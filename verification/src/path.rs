//! Socket paths compared the way `std::path::Path` compares them: by their
//! components, so that `/a//b`, `/a/./b` and `/a/b/` all name `/a/b`.
//!
//! Each component is written as a key: a tag for its kind followed by its
//! name. The tags sort the kinds as std's `Component` does (the root, then
//! `.`, then `..`, then names), and names sort by character, which for UTF-8
//! is the byte order that std compares names in.
use vstd::prelude::*;

use crate::text::{chars_lt, chars_of, lemma_lex_lt_irreflexive, lemma_lex_lt_total, lemma_lex_lt_transitive, lex_lt, split_on};

verus! {

/// The key of the root directory.
pub open spec fn root_key() -> Seq<char> {
    seq!['\u{1}']
}

/// The key of `.` at the head of a relative path.
pub open spec fn cur_dir_key() -> Seq<char> {
    seq!['\u{2}']
}

/// The key of `..`.
pub open spec fn parent_dir_key() -> Seq<char> {
    seq!['\u{3}']
}

/// The key of a name.
pub open spec fn name_key(name: Seq<char>) -> Seq<char> {
    seq!['\u{4}'] + name
}

/// The key that a piece between slashes adds, if any: empty pieces and `.`
/// add none.
pub open spec fn piece_key(p: Seq<char>) -> Option<Seq<char>> {
    if p.len() == 0 || p == seq!['.'] {
        None
    } else if p == seq!['.', '.'] {
        Some(parent_dir_key())
    } else {
        Some(name_key(p))
    }
}

/// The keys of a run of pieces, in order.
pub open spec fn piece_keys(ps: Seq<Seq<char>>) -> Seq<Seq<char>>
    decreases ps.len(),
{
    if ps.len() == 0 {
        Seq::empty()
    } else {
        let rest = piece_keys(ps.drop_last());
        match piece_key(ps.last()) {
            Some(k) => rest.push(k),
            None => rest,
        }
    }
}

/// The key that the head of a path adds: the root for an absolute path, `.`
/// for a relative one whose first piece is `.`.
pub open spec fn head_keys(s: Seq<char>) -> Seq<Seq<char>> {
    if s.len() > 0 && s[0] == '/' {
        seq![root_key()]
    } else if s.len() > 0 && s[0] == '.' && (s.len() == 1 || s[1] == '/') {
        seq![cur_dir_key()]
    } else {
        Seq::empty()
    }
}

/// The components of the path `s`, as keys.
pub open spec fn components(s: Seq<char>) -> Seq<Seq<char>> {
    head_keys(s) + piece_keys(split_on(s, '/'))
}

/// The last component of the path `s` when it is a name, as
/// `Path::file_name` gives it (none for a path that ends in the root, `.`
/// alone or `..`).
pub open spec fn file_name_of(s: Seq<char>) -> Option<Seq<char>> {
    let ks = components(s);
    if ks.len() > 0 && ks.last().len() > 0 && ks.last()[0] == '\u{4}' {
        Some(ks.last().drop_first())
    } else {
        None
    }
}

/// Index `k` holds the last `.` of `name`.
pub open spec fn is_last_dot(name: Seq<char>, k: int) -> bool {
    &&& 0 <= k < name.len()
    &&& name[k] == '.'
    &&& forall|j: int| k < j < name.len() ==> name[j] != '.'
}

/// The stem of a file name, as `Path::file_stem` takes it: the name before
/// its last `.`; the whole name when it has no `.`, or its only `.` leads.
pub open spec fn stem_of(name: Seq<char>) -> Seq<char> {
    if exists|k: int| #[trigger] is_last_dot(name, k) && k > 0 {
        name.take(choose|k: int| #[trigger] is_last_dot(name, k) && k > 0)
    } else {
        name
    }
}

/// The stem of the path `s`, as `Path::file_stem` gives it.
pub open spec fn file_stem_of(s: Seq<char>) -> Option<Seq<char>> {
    match file_name_of(s) {
        Some(name) => Some(stem_of(name)),
        None => None,
    }
}

/// `a` and `b` name the same path.
pub open spec fn same_path(a: Seq<char>, b: Seq<char>) -> bool {
    components(a) == components(b)
}

/// `a` sorts before `b` as component lists, deciding at index `k`.
pub open spec fn keys_lt_at(a: Seq<Seq<char>>, b: Seq<Seq<char>>, k: int) -> bool {
    &&& 0 <= k <= a.len()
    &&& k <= b.len()
    &&& forall|j: int| 0 <= j < k ==> #[trigger] a[j] == b[j]
    &&& {
        ||| (k == a.len() && k < b.len())
        ||| (k < a.len() && k < b.len() && lex_lt(a[k], b[k]))
    }
}

/// `a` sorts strictly before `b` as component lists.
pub open spec fn keys_lt(a: Seq<Seq<char>>, b: Seq<Seq<char>>) -> bool {
    exists|k: int| #[trigger] keys_lt_at(a, b, k)
}

/// The path `a` sorts strictly before the path `b`, as `Path` orders them.
pub open spec fn path_lt(a: Seq<char>, b: Seq<char>) -> bool {
    keys_lt(components(a), components(b))
}

/// No component list sorts before itself.
pub proof fn lemma_keys_lt_irreflexive(a: Seq<Seq<char>>)
    ensures
        !keys_lt(a, a),
{
    if keys_lt(a, a) {
        let k = choose|k: int| keys_lt_at(a, a, k);
        lemma_lex_lt_irreflexive(a[k]);
    }
}

/// The order of component lists is transitive.
pub proof fn lemma_keys_lt_transitive(a: Seq<Seq<char>>, b: Seq<Seq<char>>, c: Seq<Seq<char>>)
    requires
        keys_lt(a, b),
        keys_lt(b, c),
    ensures
        keys_lt(a, c),
{
    let k1 = choose|k: int| keys_lt_at(a, b, k);
    let k2 = choose|k: int| keys_lt_at(b, c, k);
    let k = if k1 < k2 { k1 } else { k2 };
    assert forall|j: int| 0 <= j < k implies #[trigger] a[j] == c[j] by {
        assert(a[j] == b[j]);
        assert(b[j] == c[j]);
    }
    if k1 < k2 {
        assert(b[k1] == c[k1]);
    } else if k2 < k1 {
        assert(a[k2] == b[k2]);
    } else if k1 < a.len() && k2 < b.len() {
        lemma_lex_lt_transitive(a[k], b[k], c[k]);
    }
    assert(keys_lt_at(a, c, k));
}

/// The first index below `m` where `a` and `b` differ, given one exists.
proof fn lemma_first_key_difference(a: Seq<Seq<char>>, b: Seq<Seq<char>>, m: int) -> (k: int)
    requires
        m <= a.len(),
        m <= b.len(),
        exists|j: int| 0 <= j < m && a[j] != b[j],
    ensures
        0 <= k < m,
        a[k] != b[k],
        forall|j: int| 0 <= j < k ==> a[j] == b[j],
    decreases m,
{
    if exists|j: int| 0 <= j < m - 1 && a[j] != b[j] {
        lemma_first_key_difference(a, b, m - 1)
    } else {
        m - 1
    }
}

/// Of two different component lists one sorts before the other.
pub proof fn lemma_keys_lt_total(a: Seq<Seq<char>>, b: Seq<Seq<char>>)
    requires
        a != b,
    ensures
        keys_lt(a, b) || keys_lt(b, a),
{
    let m = if a.len() < b.len() { a.len() as int } else { b.len() as int };
    if forall|j: int| 0 <= j < m ==> a[j] == b[j] {
        if a.len() == b.len() {
            assert(a =~= b);
        } else if a.len() < b.len() {
            assert(keys_lt_at(a, b, m));
        } else {
            assert(keys_lt_at(b, a, m));
        }
    } else {
        let k = lemma_first_key_difference(a, b, m);
        lemma_lex_lt_total(a[k], b[k]);
        if lex_lt(a[k], b[k]) {
            assert(keys_lt_at(a, b, k));
        } else {
            assert(keys_lt_at(b, a, k));
        }
    }
}

/// The characters held by each vector of `v`.
pub open spec fn views(v: Seq<Vec<char>>) -> Seq<Seq<char>> {
    v.map_values(|x: Vec<char>| x@)
}

/// Adds the key of the piece `p`, if it has one.
fn push_piece(out: &mut Vec<Vec<char>>, p: &Vec<char>)
    ensures
        views(final(out)@) == (match piece_key(p@) {
            Some(k) => views(old(out)@).push(k),
            None => views(old(out)@),
        }),
{
    let n = p.len();
    if n == 0 || (n == 1 && p[0] == '.') {
        proof {
            if n == 1 {
                assert(p@ =~= seq!['.']);
            }
        }
        return;
    }
    let ghost before = out@;
    if n == 2 && p[0] == '.' && p[1] == '.' {
        proof {
            assert(p@ =~= seq!['.', '.']);
        }
        let pk: Vec<char> = vec!['\u{3}'];
        proof {
            assert(pk@ =~= parent_dir_key());
        }
        out.push(pk);
    } else {
        proof {
            if n == 1 {
                assert(p@ != seq!['.']);
            }
            if n == 2 {
                assert(p@ != seq!['.', '.']) by {
                    if p@ == seq!['.', '.'] {
                        assert(p@[0] == '.' && p@[1] == '.');
                    }
                }
            }
        }
        let mut k: Vec<char> = vec!['\u{4}'];
        let mut i: usize = 0;
        while i < n
            invariant
                n == p@.len(),
                0 <= i <= n,
                k@ == seq!['\u{4}'] + p@.take(i as int),
            decreases n - i,
        {
            k.push(p[i]);
            proof {
                assert(p@.take(i + 1) =~= p@.take(i as int).push(p@[i as int]));
            }
            i = i + 1;
        }
        proof {
            assert(p@.take(n as int) =~= p@);
            assert(k@ =~= name_key(p@));
        }
        out.push(k);
    }
    proof {
        assert(views(out@) =~= views(before).push(out@.last()@));
    }
}

/// The components of the path `s`, as `Path::components` gives them, each
/// written as its key.
pub fn path_components(s: &str) -> (r: Vec<Vec<char>>)
    ensures
        views(r@) == components(s@),
{
    let cs = chars_of(s);
    let n = cs.len();
    let mut out: Vec<Vec<char>> = Vec::new();
    if n > 0 && cs[0] == '/' {
        let rk: Vec<char> = vec!['\u{1}'];
        proof {
            assert(rk@ =~= root_key());
        }
        out.push(rk);
    } else if n > 0 && cs[0] == '.' && (n == 1 || cs[1] == '/') {
        let ck: Vec<char> = vec!['\u{2}'];
        proof {
            assert(ck@ =~= cur_dir_key());
        }
        out.push(ck);
    }
    proof {
        assert(views(out@) =~= head_keys(s@));
        assert(s@.take(0) =~= Seq::<char>::empty());
        assert(split_on(s@.take(0), '/').drop_last() =~= Seq::<Seq<char>>::empty());
        assert(piece_keys(Seq::<Seq<char>>::empty()) =~= Seq::<Seq<char>>::empty());
        assert(views(out@) =~= head_keys(s@) + piece_keys(split_on(s@.take(0), '/').drop_last()));
    }
    let mut cur: Vec<char> = Vec::new();
    let mut i: usize = 0;
    while i < n
        invariant
            n == s@.len(),
            cs@ == s@,
            0 <= i <= n,
            views(out@) == head_keys(s@) + piece_keys(split_on(s@.take(i as int), '/').drop_last()),
            cur@ == split_on(s@.take(i as int), '/').last(),
            split_on(s@.take(i as int), '/').len() > 0,
        decreases n - i,
    {
        let ghost ps = split_on(s@.take(i as int), '/');
        proof {
            assert(s@.take(i + 1).drop_last() =~= s@.take(i as int));
            assert(s@.take(i + 1).last() == s@[i as int]);
        }
        if cs[i] == '/' {
            push_piece(&mut out, &cur);
            cur = Vec::new();
            proof {
                let ps2 = split_on(s@.take(i + 1), '/');
                assert(ps2 == ps.push(Seq::<char>::empty()));
                assert(ps2.drop_last() =~= ps);
                assert(ps.drop_last() =~= ps.drop_last());
                assert(piece_keys(ps) == (match piece_key(ps.last()) {
                    Some(k) => piece_keys(ps.drop_last()).push(k),
                    None => piece_keys(ps.drop_last()),
                }));
                match piece_key(ps.last()) {
                    Some(k) => {
                        assert(head_keys(s@) + piece_keys(ps) =~= (head_keys(s@) + piece_keys(ps.drop_last())).push(k));
                    },
                    None => {},
                }
                assert(cur@ =~= ps2.last());
            }
        } else {
            cur.push(cs[i]);
            proof {
                let ps2 = split_on(s@.take(i + 1), '/');
                assert(ps2 == ps.update(ps.len() - 1, ps.last().push(s@[i as int])));
                assert(ps2.drop_last() =~= ps.drop_last());
            }
        }
        i = i + 1;
    }
    let ghost ps = split_on(s@.take(n as int), '/');
    push_piece(&mut out, &cur);
    proof {
        assert(s@.take(n as int) =~= s@);
        match piece_key(ps.last()) {
            Some(k) => {
                assert(head_keys(s@) + piece_keys(ps) =~= (head_keys(s@) + piece_keys(ps.drop_last())).push(k));
            },
            None => {},
        }
    }
    out
}

/// Whether two component lists are equal.
pub fn components_eq(a: &Vec<Vec<char>>, b: &Vec<Vec<char>>) -> (r: bool)
    ensures
        r == (views(a@) == views(b@)),
{
    if a.len() != b.len() {
        proof {
            assert(views(a@).len() != views(b@).len());
        }
        return false;
    }
    let n = a.len();
    let mut i: usize = 0;
    while i < n
        invariant
            n == a@.len(),
            n == b@.len(),
            0 <= i <= n,
            forall|j: int| 0 <= j < i ==> #[trigger] views(a@)[j] == views(b@)[j],
        decreases n - i,
    {
        if !crate::text::chars_eq(&a[i], &b[i]) {
            proof {
                assert(views(a@)[i as int] != views(b@)[i as int]);
            }
            return false;
        }
        i = i + 1;
    }
    assert(views(a@) =~= views(b@));
    true
}

/// Whether the component list `a` sorts strictly before `b`.
pub fn components_less(a: &Vec<Vec<char>>, b: &Vec<Vec<char>>) -> (r: bool)
    ensures
        r == keys_lt(views(a@), views(b@)),
{
    let ghost va = views(a@);
    let ghost vb = views(b@);
    let m = if a.len() < b.len() { a.len() } else { b.len() };
    let mut i: usize = 0;
    while i < m && crate::text::chars_eq(&a[i], &b[i])
        invariant
            va == views(a@),
            vb == views(b@),
            m <= a@.len(),
            m <= b@.len(),
            m == a@.len() || m == b@.len(),
            0 <= i <= m,
            forall|j: int| 0 <= j < i ==> #[trigger] va[j] == vb[j],
        decreases m - i,
    {
        i = i + 1;
    }
    let r = if i == m {
        a.len() < b.len()
    } else {
        chars_lt(&a[i], &b[i])
    };
    proof {
        if r {
            assert(keys_lt_at(va, vb, i as int));
        } else {
            assert forall|k: int| !#[trigger] keys_lt_at(va, vb, k) by {
                if keys_lt_at(va, vb, k) {
                    if k > i {
                        assert(va[i as int] == vb[i as int]);
                    }
                }
            }
        }
    }
    r
}

/// Whether `a` and `b` name the same path.
pub fn path_eq(a: &str, b: &str) -> (r: bool)
    ensures
        r == same_path(a@, b@),
{
    let ka = path_components(a);
    let kb = path_components(b);
    components_eq(&ka, &kb)
}

} // verus!
