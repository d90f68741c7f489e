use vstd::prelude::*;

use crate::text::{chars_of, is_trim_range, is_whitespace, is_whitespace_spec, parse_usize, parse_usize_spec, split_on, trim_range};

verus! {

/// The pairs `(from[i], to[i])` for `i` below the shorter length, as a
/// `sed` script in order.
pub open spec fn sed_pairs(from: Seq<Seq<char>>, to: Seq<Seq<char>>, n: int) -> Seq<char>
    decreases n,
{
    if n <= 0 {
        Seq::empty()
    } else {
        sed_pairs(from, to, n - 1) + "s|"@ + from[n - 1] + "|"@ + to[n - 1] + "|g;"@
    }
}

/// Given the strings to replace in a file and their replacements in order,
/// the `sed` script that performs all the replacements.
pub fn gen_sed_replace_cmd(replace_from: &[&str], replace_to: &[&str]) -> (r: String)
    ensures
        r@ == sed_pairs(
            replace_from@.map_values(|s: &str| s@),
            replace_to@.map_values(|s: &str| s@),
            if replace_from@.len() < replace_to@.len() { replace_from@.len() as int } else { replace_to@.len() as int },
        ),
{
    let ghost from = replace_from@.map_values(|s: &str| s@);
    let ghost to = replace_to@.map_values(|s: &str| s@);
    let n = if replace_from.len() < replace_to.len() { replace_from.len() } else { replace_to.len() };
    let mut sed_cmd = String::new();
    let mut i: usize = 0;
    while i < n
        invariant
            n <= replace_from@.len(),
            n <= replace_to@.len(),
            from == replace_from@.map_values(|s: &str| s@),
            to == replace_to@.map_values(|s: &str| s@),
            0 <= i <= n,
            sed_cmd@ == sed_pairs(from, to, i as int),
        decreases n - i,
    {
        sed_cmd.append("s|");
        sed_cmd.append(replace_from[i]);
        sed_cmd.append("|");
        sed_cmd.append(replace_to[i]);
        sed_cmd.append("|g;");
        proof {
            assert(from[i as int] == replace_from@[i as int]@);
            assert(to[i as int] == replace_to@[i as int]@);
        }
        i = i + 1;
    }
    sed_cmd
}

/// The balloon experiment's VM starts with this much memory, in KiB (48 GiB).
pub const BALLOON_VM_SIZE_KB: usize = 50331648;

/// Longest pause between two looks at the guest's size, in milliseconds.
pub const MAX_WAIT_MS: usize = 5000;

/// Shortest pause between two looks at the guest's size, in milliseconds.
pub const MIN_WAIT_MS: usize = 500;

/// The guest size, in KiB, that shrinking the balloon VM to `shrink_size_gb`
/// GiB aims at.
pub fn shrink_target_kb(shrink_size_gb: usize) -> (r: usize)
    requires
        shrink_size_gb * 1048576 <= usize::MAX,
    ensures
        r == shrink_size_gb * 1048576,
{
    shrink_size_gb * 1024 * 1024
}

/// How long to wait before looking at the guest's size again, while the
/// balloon shrinks it from `BALLOON_VM_SIZE_KB` to `target_kb`: the longest
/// pause scaled by the share of the shrink still to go, but at least the
/// shortest pause.
pub fn balloon_wait_time_ms(guest_size_kb: usize, target_kb: usize) -> (r: usize)
    requires
        target_kb <= guest_size_kb,
        target_kb < BALLOON_VM_SIZE_KB,
        MAX_WAIT_MS * (guest_size_kb - target_kb) <= usize::MAX,
    ensures
        r == (if MAX_WAIT_MS * (guest_size_kb - target_kb) / (BALLOON_VM_SIZE_KB - target_kb) < MIN_WAIT_MS as int {
            MIN_WAIT_MS as int
        } else {
            MAX_WAIT_MS * (guest_size_kb - target_kb) / (BALLOON_VM_SIZE_KB - target_kb)
        }),
{
    let wait_time_ms = MAX_WAIT_MS * (guest_size_kb - target_kb) / (BALLOON_VM_SIZE_KB - target_kb);
    if wait_time_ms < MIN_WAIT_MS { MIN_WAIT_MS } else { wait_time_ms }
}

/// The IP address of a VM from the output of `virsh domifaddr ... | awk`:
/// the output without surrounding white space, or `None` when nothing is
/// left.
pub fn vm_ip_from_output(stdout: &str) -> (r: Option<String>)
    ensures
        r is None <==> forall|j: int| 0 <= j < stdout@.len() ==> #[trigger] is_whitespace_spec(stdout@[j]),
        r matches Some(ip) ==> exists|lo: int, hi: int| #[trigger] is_trim_range(stdout@, lo, hi) && lo < hi
            && ip@ == stdout@.subrange(lo, hi),
{
    let cs = chars_of(stdout);
    let (lo, hi) = trim_range(&cs);
    if lo == hi {
        None
    } else {
        let ip = stdout.substring_char(lo, hi);
        proof {
            assert(is_trim_range(stdout@, lo as int, hi as int));
            assert(!is_whitespace_spec(stdout@[lo as int]));
        }
        Some(String::from_str(ip))
    }
}

/// The guest's size in KiB from the output of `virsh dommemstat ... | grep
/// actual | awk`: the output without surrounding white space, read as
/// `usize::from_str` reads it; `None` when that is no decimal that fits.
pub fn guest_size_from_output(stdout: &str) -> (r: Option<usize>)
    ensures
        exists|lo: int, hi: int| #[trigger] is_trim_range(stdout@, lo, hi)
            && r == parse_usize_spec(stdout@.subrange(lo, hi)),
{
    let cs = chars_of(stdout);
    let (lo, hi) = trim_range(&cs);
    let trimmed = stdout.substring_char(lo, hi);
    proof {
        assert(is_trim_range(stdout@, lo as int, hi as int));
    }
    parse_usize(trimmed)
}

/// The pieces of `s` between line feeds, as `split('\n')` gives them.
pub open spec fn split_lf(s: Seq<char>) -> Seq<Seq<char>> {
    split_on(s, '\n')
}

/// A line without the carriage return that ended it, if any.
pub open spec fn strip_cr(l: Seq<char>) -> Seq<char> {
    if l.len() > 0 && l.last() == '\r' {
        l.drop_last()
    } else {
        l
    }
}

/// The lines of `s` as `str::lines` gives them: split at line feeds, a
/// carriage return before a line feed dropped, no empty line after a final
/// line feed.
pub open spec fn std_lines(s: Seq<char>) -> Seq<Seq<char>> {
    let p = split_lf(s);
    let complete = p.drop_last().map_values(|l: Seq<char>| strip_cr(l));
    if p.last().len() > 0 {
        complete.push(p.last())
    } else {
        complete
    }
}

/// A line of an `authorized_keys` file that holds a key: after leading white
/// space it starts with `ssh`.
pub open spec fn is_key_line(l: Seq<char>) -> bool {
    exists|k: int| {
        &&& 0 <= k
        &&& k + 3 <= l.len()
        &&& forall|j: int| 0 <= j < k ==> #[trigger] is_whitespace_spec(l[j])
        &&& #[trigger] l[k] == 's'
        &&& l[k + 1] == 's'
        &&& l[k + 2] == 'h'
    }
}

/// The key lines of `ls`, in order.
pub open spec fn key_lines(ls: Seq<Seq<char>>) -> Seq<Seq<char>>
    decreases ls.len(),
{
    if ls.len() == 0 {
        Seq::empty()
    } else if is_key_line(ls.last()) {
        key_lines(ls.drop_last()).push(ls.last())
    } else {
        key_lines(ls.drop_last())
    }
}

/// `ls` joined with `sep` between each two.
pub open spec fn join_with(ls: Seq<Seq<char>>, sep: Seq<char>) -> Seq<char>
    decreases ls.len(),
{
    if ls.len() == 0 {
        Seq::empty()
    } else if ls.len() == 1 {
        ls[0]
    } else {
        join_with(ls.drop_last(), sep) + sep + ls.last()
    }
}

/// What separates two keys in the cloud-init user data: a `\n` escape and
/// the indentation of the next list item.
pub open spec fn key_separator() -> Seq<char> {
    seq!['\\', 'n', ' ', ' ', ' ', ' ', ' ', ' ', '-', ' ']
}

/// Whether the line `l` holds a key.
fn key_line(l: &Vec<char>, lo: usize, hi: usize) -> (r: bool)
    requires
        lo <= hi <= l@.len(),
    ensures
        r == is_key_line(l@.subrange(lo as int, hi as int)),
{
    let ghost line = l@.subrange(lo as int, hi as int);
    let mut k: usize = lo;
    while k < hi && is_whitespace(l[k])
        invariant
            lo <= k <= hi,
            hi <= l@.len(),
            line == l@.subrange(lo as int, hi as int),
            forall|j: int| lo <= j < k ==> #[trigger] is_whitespace_spec(l@[j]),
        decreases hi - k,
    {
        k = k + 1;
    }
    let r = hi - k >= 3 && l[k] == 's' && l[k + 1] == 's' && l[k + 2] == 'h';
    proof {
        let kk = (k - lo) as int;
        if r {
            assert forall|j: int| 0 <= j < kk implies #[trigger] is_whitespace_spec(line[j]) by {
                assert(line[j] == l@[lo + j]);
            }
            assert(line[kk] == 's');
        } else {
            assert forall|k2: int| !({
                &&& 0 <= k2
                &&& k2 + 3 <= line.len()
                &&& forall|j: int| 0 <= j < k2 ==> #[trigger] is_whitespace_spec(line[j])
                &&& #[trigger] line[k2] == 's'
                &&& line[k2 + 1] == 's'
                &&& line[k2 + 2] == 'h'
            }) by {
                if 0 <= k2 && k2 + 3 <= line.len() && (forall|j: int| 0 <= j < k2 ==> #[trigger] is_whitespace_spec(line[j]))
                    && line[k2] == 's' && line[k2 + 1] == 's' && line[k2 + 2] == 'h' {
                    if k2 < kk {
                        assert(is_whitespace_spec(l@[lo + k2]));
                        assert(line[k2] == l@[lo + k2]);
                    } else if k2 > kk {
                        assert(kk < line.len());
                        assert(is_whitespace_spec(line[kk]));
                        assert(line[kk] == l@[k as int]);
                    }
                }
            }
        }
    }
    r
}

/// The complete lines among the pieces `p` (all but the last), each without
/// the carriage return before its line feed.
pub open spec fn complete_lines(p: Seq<Seq<char>>) -> Seq<Seq<char>> {
    p.drop_last().map_values(|l: Seq<char>| strip_cr(l))
}

/// The keys of an `authorized_keys` file, for a YAML list in cloud-init user
/// data: the lines that hold a key, as they are, joined by an escaped line
/// feed and the indentation of the next list item.
pub fn authorized_ssh_keys(text: &str) -> (r: String)
    ensures
        r@ == join_with(key_lines(std_lines(text@)), key_separator()),
{
    let sep = "\\n      - ";
    proof {
        reveal_strlit("\\n      - ");
        assert(sep@ =~= key_separator());
    }
    let cs = chars_of(text);
    let n = cs.len();
    let mut out = String::new();
    let mut any = false;
    let mut start: usize = 0;
    let mut i: usize = 0;
    proof {
        assert(text@.take(0) =~= Seq::<char>::empty());
        assert(complete_lines(split_lf(text@.take(0))) =~= Seq::<Seq<char>>::empty());
        assert(text@.subrange(0, 0) =~= Seq::<char>::empty());
    }
    while i < n
        invariant
            cs@ == text@,
            n == cs@.len(),
            sep@ == key_separator(),
            start <= i <= n,
            split_lf(text@.take(i as int)).len() > 0,
            split_lf(text@.take(i as int)).last() == text@.subrange(start as int, i as int),
            any == (key_lines(complete_lines(split_lf(text@.take(i as int)))).len() > 0),
            out@ == join_with(key_lines(complete_lines(split_lf(text@.take(i as int)))), key_separator()),
        decreases n - i,
    {
        let ghost p = split_lf(text@.take(i as int));
        proof {
            assert(text@.take(i + 1).drop_last() =~= text@.take(i as int));
            assert(text@.take(i + 1).last() == cs@[i as int]);
        }
        if cs[i] == '\n' {
            let end = if i > start && cs[i - 1] == '\r' { i - 1 } else { i };
            let ghost line = text@.subrange(start as int, end as int);
            let ghost c0 = complete_lines(p);
            proof {
                let p2 = split_lf(text@.take(i + 1));
                assert(p2 == p.push(Seq::<char>::empty()));
                assert(p2.drop_last() =~= p);
                assert(strip_cr(p.last()) =~= line);
                assert(complete_lines(p2) =~= c0.push(line));
            }
            if key_line(&cs, start, end) {
                if any {
                    out.append(sep);
                }
                out.append(text.substring_char(start, end));
                any = true;
                proof {
                    let k0 = key_lines(c0);
                    assert(c0.push(line).drop_last() =~= c0);
                    assert(key_lines(c0.push(line)) =~= k0.push(line));
                    assert(k0.push(line).drop_last() =~= k0);
                }
            } else {
                proof {
                    assert(c0.push(line).drop_last() =~= c0);
                    assert(key_lines(c0.push(line)) =~= key_lines(c0));
                }
            }
            start = i + 1;
            proof {
                assert(text@.subrange(start as int, i + 1) =~= Seq::<char>::empty());
            }
        } else {
            proof {
                let p2 = split_lf(text@.take(i + 1));
                assert(p2 == p.update(p.len() - 1, p.last().push(cs@[i as int])));
                assert(p2.drop_last() =~= p.drop_last());
                assert(p2.last() =~= text@.subrange(start as int, i + 1));
            }
        }
        i = i + 1;
    }
    proof {
        assert(text@.take(n as int) =~= text@);
    }
    let ghost p = split_lf(text@);
    let ghost c0 = complete_lines(p);
    if start < n && key_line(&cs, start, n) {
        if any {
            out.append(sep);
        }
        out.append(text.substring_char(start, n));
        proof {
            let last = text@.subrange(start as int, n as int);
            assert(std_lines(text@) == c0.push(last));
            let k0 = key_lines(c0);
            assert(c0.push(last).drop_last() =~= c0);
            assert(key_lines(c0.push(last)) =~= k0.push(last));
            assert(k0.push(last).drop_last() =~= k0);
        }
    } else {
        proof {
            let last = text@.subrange(start as int, n as int);
            if start < n {
                assert(std_lines(text@) == c0.push(last));
                assert(c0.push(last).drop_last() =~= c0);
                assert(key_lines(c0.push(last)) =~= key_lines(c0));
            } else {
                assert(last.len() == 0);
            }
        }
    }
    out
}

/// The answer of a remote command run as a yes/no test (`grep`, `test`):
/// success is yes, exit status 1 is no, and any other failure is no answer.
pub fn exit_status_answer(succeeded: bool, exit_status: Option<i32>) -> (r: Option<bool>)
    ensures
        succeeded ==> r == Some(true),
        !succeeded && exit_status == Some(1i32) ==> r == Some(false),
        !succeeded && exit_status != Some(1i32) ==> r is None,
{
    if succeeded {
        Some(true)
    } else {
        match exit_status {
            Some(1) => Some(false),
            _ => None,
        }
    }
}

} // verus!
