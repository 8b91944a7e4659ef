use eldercare::storage::{check_counter_header, check_manager_header, check_map_header};
use eldercare::ReportStore;

#[test]
fn empty_memory_headers_are_accepted() {
    assert!(check_manager_header(&vec![]));
    assert!(check_counter_header(&vec![]));
    assert!(check_map_header(&vec![]));
}

#[test]
fn manager_header_of_another_version_is_refused() {
    assert!(check_manager_header(&vec![b'M', b'G', b'R', 1]));
    assert!(!check_manager_header(&vec![b'M', b'G', b'R', 2]));
    assert!(check_manager_header(&vec![b'X', b'G', b'R', 2]));
}

fn cell_head(len: u8) -> Vec<u8> {
    let mut h = vec![b'S', b'C', b'L', 1, len, 0, 0, 0];
    h.extend_from_slice(&[0; 8]);
    h
}

fn map_head(value_size_high: u8, allocator_version: u8) -> Vec<u8> {
    let mut h = vec![b'B', b'T', b'R', 1, 8, 0, 0, 0, 0, value_size_high, 0, 0];
    h.resize(52, 0);
    h.extend_from_slice(&[b'B', b'T', b'A', allocator_version]);
    h
}

#[test]
fn counter_header_must_hold_eight_bytes() {
    assert!(check_counter_header(&cell_head(8)));
    assert!(!check_counter_header(&cell_head(4)));
    assert!(!check_counter_header(&vec![b'S', b'C', b'L', 1, 8, 0, 0, 0]));
    // Another version is refused by the cell itself with an error.
    assert!(check_counter_header(&vec![b'S', b'C', b'L', 2, 4, 0, 0, 0]));
}

#[test]
fn map_header_must_match_the_bounds() {
    assert!(check_map_header(&map_head(8, 1)));
    assert!(!check_map_header(&map_head(16, 1)));
    let mut other_version = map_head(8, 1);
    other_version[3] = 2;
    assert!(!check_map_header(&other_version));
    assert!(!check_map_header(&vec![b'B', b'T', b'R', 1, 8, 0, 0, 0, 0, 8, 0, 0]));
    assert!(!check_map_header(&vec![b'B', b'T', b'R', 1]));
}

#[test]
fn map_header_needs_a_sound_allocator_header() {
    assert!(!check_map_header(&map_head(8, 2)));
    let mut bad_magic = map_head(8, 1);
    bad_magic[54] = b'X';
    assert!(!check_map_header(&bad_magic));
}

#[test]
fn fresh_store_is_not_recovered() {
    assert!(!ReportStore::new().expect("new").was_recovered());
}

#[test]
fn open_on_empty_memory_starts_empty() {
    let store = ReportStore::open().expect("open");
    assert_eq!(store.next_report_id(), 0);
    assert!(!store.contains_report(0));
    assert!(!store.was_recovered());
}
