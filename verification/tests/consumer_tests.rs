use ephmem::allocation::{align_to_granularity, EphAllocation, EPH_MEM_DONATION_GRANULARITY};
use ephmem::consumer::{
    classify_consumer_line, consumer_cmd_dispatacher, consumer_socket_path, dcd_candidate_paths, dcd_probe_start,
    dcd_probe_step, parse_vsock_cid, ConsumerCmdAction, ConsumerCommand, ConsumerLine, ConsumerState, DcdProbe,
};
use ephmem::qmp_types::QomListResponse;

const G: u64 = EPH_MEM_DONATION_GRANULARITY;

fn area(id: u64, offset: u64, size: u64) -> EphAllocation {
    EphAllocation { id, consumer_offset: offset, initial_size: size, size }
}

fn consumer_with(size: u64, areas: Vec<EphAllocation>) -> ConsumerState {
    let mut c = ConsumerState::new(3, "/machine/peripheral/cxl-dcd0".to_string(), size);
    c.allocated_areas = areas;
    c
}

#[test]
fn align_rounds_up_to_granularity() {
    assert_eq!(align_to_granularity(0), Some(0));
    assert_eq!(align_to_granularity(1), Some(G));
    assert_eq!(align_to_granularity(G), Some(G));
    assert_eq!(align_to_granularity(G + 1), Some(2 * G));
    assert_eq!(align_to_granularity(u64::MAX), None);
    assert_eq!(align_to_granularity(u64::MAX / G * G + 1), None);
    assert_eq!(align_to_granularity(u64::MAX - G), Some(u64::MAX / G * G));
    assert_eq!(align_to_granularity(u64::MAX / G * G), Some(u64::MAX / G * G));
}

#[test]
fn reserve_in_empty_device_starts_at_zero() {
    let mut c = ConsumerState::new(3, "dcd".to_string(), 4 * G);
    let r = c.reserve_memory(G, 7);
    assert_eq!(r, Some(area(7, 0, G)));
    assert_eq!(c.allocated_areas, vec![area(7, 0, G)]);
}

#[test]
fn reserve_is_capped_by_device_and_rounded_down() {
    let mut c = ConsumerState::new(3, "dcd".to_string(), 2 * G + 5);
    let r = c.reserve_memory(10 * G, 1);
    assert_eq!(r, Some(area(1, 0, 2 * G)));
    let mut small = ConsumerState::new(3, "dcd".to_string(), G - 1);
    assert_eq!(small.reserve_memory(G, 1), None);
    assert!(small.allocated_areas.is_empty());
    let mut c2 = ConsumerState::new(3, "dcd".to_string(), 4 * G);
    assert_eq!(c2.reserve_memory(G - 1, 1), None);
}

#[test]
fn reserve_takes_first_gap_that_fits() {
    // gaps: [0,G) [2G,4G) [5G,8G)
    let mut c = consumer_with(8 * G, vec![area(1, G, G), area(2, 4 * G, G)]);
    let r = c.reserve_memory(2 * G, 9);
    assert_eq!(r, Some(area(9, 2 * G, 2 * G)));
    assert_eq!(c.allocated_areas, vec![area(1, G, G), area(9, 2 * G, 2 * G), area(2, 4 * G, G)]);
}

#[test]
fn reserve_falls_back_to_first_largest_gap() {
    // gaps: [0,0) [G,2G) [3G,4G): none holds 2G, the first of the largest is at G
    let mut c = consumer_with(4 * G, vec![area(1, 0, G), area(2, 2 * G, G)]);
    let r = c.reserve_memory(2 * G, 3);
    assert_eq!(r, Some(area(3, G, G)));
    assert_eq!(c.allocated_areas, vec![area(1, 0, G), area(3, G, G), area(2, 2 * G, G)]);
}

#[test]
fn reserve_uses_gap_after_last_area() {
    let mut c = consumer_with(4 * G, vec![area(1, 0, G)]);
    let r = c.reserve_memory(3 * G, 4);
    assert_eq!(r, Some(area(4, G, 3 * G)));
}

#[test]
fn reserve_rounds_gap_down_and_fails_when_nothing_left() {
    // the only gap is half a granule long
    let mut c = consumer_with(2 * G, vec![area(1, 0, G + G / 2)]);
    assert_eq!(c.reserve_memory(G, 2), None);
    assert_eq!(c.allocated_areas, vec![area(1, 0, G + G / 2)]);
    // a full device
    let mut full = consumer_with(G, vec![area(1, 0, G)]);
    assert_eq!(full.reserve_memory(G, 2), None);
}

#[test]
fn release_undoes_reserve() {
    let mut c = consumer_with(8 * G, vec![area(1, G, G)]);
    let before = c.allocated_areas.clone();
    let r = c.reserve_memory(G, 5).unwrap();
    assert!(c.release_reserved_memory(r.consumer_offset));
    assert_eq!(c.allocated_areas, before);
    assert!(!c.release_reserved_memory(r.consumer_offset));
    assert_eq!(c.allocated_areas, before);
}

#[test]
fn commit_shrinks_area() {
    let mut c = consumer_with(8 * G, vec![area(1, G, 2 * G)]);
    assert!(c.commit_allocation(G, G));
    assert_eq!(c.allocated_areas[0].size, G);
    assert_eq!(c.allocated_areas[0].initial_size, 2 * G);
    assert!(!c.commit_allocation(G, 2 * G));
    assert!(!c.commit_allocation(G, 0));
    assert!(!c.commit_allocation(5, 1));
    // the freed tail is a gap again
    let r = c.reserve_memory(G, 2);
    assert_eq!(r, Some(area(2, 0, G)));
}

#[test]
fn qom_path_getter() {
    let c = ConsumerState::new(3, "/machine/peripheral/dcd".to_string(), G);
    assert_eq!(c.get_qom_path(), "/machine/peripheral/dcd");
}

#[test]
fn dispatcher_recognizes_requests() {
    let cmd = ConsumerCommand::new("eph-mem-request".to_string(), Some(42));
    assert_eq!(consumer_cmd_dispatacher(&cmd), ConsumerCmdAction::EphMemRequest(42));
    let missing = ConsumerCommand::new("eph-mem-request".to_string(), None);
    assert_eq!(consumer_cmd_dispatacher(&missing), ConsumerCmdAction::MissingSize);
    let other = ConsumerCommand::new("eph-mem-free".to_string(), Some(1));
    assert_eq!(consumer_cmd_dispatacher(&other), ConsumerCmdAction::Unknown);
}

#[test]
fn consumer_lines_are_classified() {
    assert_eq!(classify_consumer_line(0, ""), ConsumerLine::EndOfStream);
    assert_eq!(classify_consumer_line(5, "abcd\n"), ConsumerLine::Command);
    assert_eq!(classify_consumer_line(4, "abcd"), ConsumerLine::Overlong);
}

#[test]
fn cid_comes_from_socket_name() {
    assert_eq!(parse_vsock_cid("/tmp/ephmem/3.qmp"), Some(3));
    assert_eq!(parse_vsock_cid("/tmp/ephmem/4294967295.qmp"), Some(4294967295));
    assert_eq!(parse_vsock_cid("/tmp/ephmem/4294967296.qmp"), None);
    assert_eq!(parse_vsock_cid("/tmp/ephmem/donor.qmp"), None);
    assert_eq!(parse_vsock_cid("/tmp/ephmem/"), None);
    assert_eq!(parse_vsock_cid("17"), Some(17));
}

#[test]
fn socket_path_of_cid() {
    assert_eq!(consumer_socket_path("/tmp/ephmem/", 3), "/tmp/ephmem//3.qmp");
    assert_eq!(consumer_socket_path("/tmp/ephmem", 120), "/tmp/ephmem/120.qmp");
    assert_eq!(parse_vsock_cid(&consumer_socket_path("/tmp/ephmem", 987)), Some(987));
}

#[test]
fn dcd_candidates_are_cxl_type3_devices() {
    let objs = vec![
        QomListResponse { name: "nic0".to_string(), type_: "child<virtio-net-pci>".to_string() },
        QomListResponse { name: "cxl-dcd0".to_string(), type_: "child<cxl-type3>".to_string() },
        QomListResponse { name: "cxl-mem1".to_string(), type_: "child<cxl-type3>".to_string() },
    ];
    assert_eq!(
        dcd_candidate_paths(&objs),
        vec!["/machine/peripheral/cxl-dcd0".to_string(), "/machine/peripheral/cxl-mem1".to_string()]
    );
    assert!(dcd_candidate_paths(&Vec::new()).is_empty());
}

#[test]
fn reservations_are_whole_granules() {
    let mut c = ConsumerState::new(3, "dcd".to_string(), 10 * G + 7);
    let mut id = 0;
    while let Some(a) = c.reserve_memory(3 * G + 5, id) {
        assert!(a.size > 0 && a.size % G == 0 && a.size <= 3 * G + 5);
        id += 1;
    }
    let total: u64 = c.allocated_areas.iter().map(|a| a.size).sum();
    assert_eq!(total, 10 * G);
    assert_eq!(id, 4);
}

#[test]
fn first_configured_dcd_wins() {
    assert!(matches!(dcd_probe_start(0), DcdProbe::NotFound));
    assert!(matches!(dcd_probe_start(3), DcdProbe::ReadLink(0)));
    // an unset link passes to the next candidate
    assert!(matches!(dcd_probe_step(3, 0, ""), DcdProbe::ReadLink(1)));
    assert!(matches!(dcd_probe_step(3, 2, ""), DcdProbe::NotFound));
    match dcd_probe_step(3, 1, "/objects/dc0") {
        DcdProbe::Found { device, memdev } => {
            assert_eq!(device, 1);
            assert_eq!(memdev, "/objects/dc0");
        }
        _ => panic!("a set link is the device"),
    }
}

#[test]
fn reserve_commit_release_restores_areas() {
    let mut c = consumer_with(8 * G, vec![area(7, 2 * G, G)]);
    let before = c.allocated_areas.clone();
    let a = c.reserve_memory(2 * G, 9).unwrap();
    assert!(c.commit_allocation(a.consumer_offset, G));
    assert!(c.release_reserved_memory(a.consumer_offset));
    assert_eq!(c.allocated_areas, before);
}

#[test]
fn cid_from_stem_as_std_takes_it() {
    let paths = [
        "/tmp/ephmem/3.qmp", "3", "3.", ".3", "..3", "3.qmp.bak", "/tmp/7.qmp/", "/tmp/7.qmp/.", "/tmp/7.qmp/..",
        "/", "", ".", "..", "./12.x", "a/+5.qmp", "a/5..qmp", "a/.5.qmp", "/tmp//42.sock",
    ];
    for p in paths {
        let expected = std::path::Path::new(p)
            .file_stem()
            .and_then(|s| s.to_str())
            .and_then(|s| s.parse::<u32>().ok());
        assert_eq!(parse_vsock_cid(p), expected, "{:?}", p);
    }
}
