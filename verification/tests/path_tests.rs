use std::path::Path;

use ephmem::allocation::{EphAllocation, EPH_MEM_DONATION_GRANULARITY};
use ephmem::path::{components_less, path_components, path_eq};
use ephmem::qmp_types::{HostMemPolicy, Memdev};
use ephmem::vm_list::VmList;

const G: u64 = EPH_MEM_DONATION_GRANULARITY;

fn memdev(id: &str, size: u64) -> Memdev {
    Memdev {
        id: Some(id.to_string()),
        size,
        merge: false,
        dump: false,
        prealloc: false,
        donatable: Some(true),
        use_userfaultfd: None,
        share: false,
        reserve: None,
        host_nodes: Vec::new(),
        policy: HostMemPolicy::Bind,
    }
}

fn path_less(a: &str, b: &str) -> bool {
    components_less(&path_components(a), &path_components(b))
}

#[test]
fn same_paths_as_std_sees_them() {
    let pairs = [
        ("/tmp/ephmem//3.qmp", "/tmp/ephmem/3.qmp"),
        ("/tmp/ephmem/./3.qmp", "/tmp/ephmem/3.qmp"),
        ("/tmp/ephmem/", "/tmp/ephmem"),
        ("a", "./a"),
        ("/a/../b", "/b"),
        ("./a", "./a/"),
        ("", "."),
        ("/", "//"),
    ];
    for (a, b) in pairs {
        assert_eq!(path_eq(a, b), Path::new(a) == Path::new(b), "{} vs {}", a, b);
    }
    assert!(path_eq("/tmp/ephmem//3.qmp", "/tmp/ephmem/3.qmp"));
    assert!(!path_eq("a", "./a"));
    assert!(!path_eq("/a/../b", "/b"));
}

#[test]
fn path_order_as_std_sees_it() {
    let paths = ["/a/b", "/a-b", "/a", "a", "./a", "../a", "/", "", ".", "/a/.b", "/a/..", "/b", "/é", "/z"];
    for a in paths {
        for b in paths {
            assert_eq!(path_less(a, b), Path::new(a) < Path::new(b), "{} < {}", a, b);
        }
    }
    assert!(path_less("/a/b", "/a-b"));
    assert!(!path_less("/a-b", "/a/b"));
}

#[test]
fn component_keys() {
    assert_eq!(path_components("/tmp//x/"), vec![vec!['\u{1}'], vec!['\u{4}', 't', 'm', 'p'], vec!['\u{4}', 'x']]);
    assert_eq!(path_components("./.."), vec![vec!['\u{2}'], vec!['\u{3}']]);
    assert!(path_components("").is_empty());
}

#[test]
fn vm_found_under_another_spelling_of_its_path() {
    let mut vms = VmList::new();
    assert!(vms.check_new_vm("/tmp/ephmem/3.qmp".to_string(), Vec::new(), None));
    assert_eq!(vms.find_vm("/tmp/ephmem//3.qmp"), Some(0));
    assert_eq!(vms.find_vm("/tmp/ephmem/./3.qmp"), Some(0));
    assert!(!vms.check_new_vm("/tmp/ephmem//3.qmp".to_string(), Vec::new(), None));
    assert!(!vms.handle_new_file("/tmp/ephmem/3.qmp/", true));
    vms.remove_vms(&vec!["/tmp//ephmem/3.qmp".to_string()]);
    assert!(vms.vms.is_empty());
}

#[test]
fn donors_asked_in_path_order() {
    let mut vms = VmList::new();
    assert!(vms.check_new_vm("/a-b".to_string(), vec![memdev("m1", 2 * G)], None));
    assert!(vms.check_new_vm("/a/b".to_string(), vec![memdev("m2", 2 * G)], None));
    let rsvd = EphAllocation::new(0, 0, G);
    let (first, _) = vms.allocate_eph_memory_inner("", &rsvd).unwrap();
    assert_eq!(first, "/a/b");
    let (second, _) = vms.allocate_eph_memory_inner(&first, &rsvd).unwrap();
    assert_eq!(second, "/a-b");
    assert!(vms.allocate_eph_memory_inner(&second, &rsvd).is_none());
}
