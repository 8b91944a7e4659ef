use eldercare::{CareReportPayload, ReportError, ReportStore};

fn payload(elder: &str, caregiver: &str, details: &str) -> CareReportPayload {
    CareReportPayload::new(elder.to_string(), caregiver.to_string(), details.to_string())
}

fn fresh() -> ReportStore {
    ReportStore::new().expect("fresh store")
}

#[test]
fn add_update_delete_get_scenario() {
    let mut store = fresh();
    let added = store.add_report(payload("Jane", "Amy", "stable"), 100).unwrap();
    assert_eq!(added.id, 0);
    assert_eq!(added.elder_name, "Jane");
    assert_eq!(added.caregiver_name, "Amy");
    assert_eq!(added.report_details, "stable");
    assert_eq!(added.timestamp, 100);
    assert_eq!(added.updated_at, None);

    let updated = store.update_report(0, payload("Jane", "Amy", "improved"), 250).unwrap();
    assert_eq!(updated.id, 0);
    assert_eq!(updated.report_details, "improved");
    assert_eq!(updated.timestamp, 100);
    assert_eq!(updated.updated_at, Some(250));

    let deleted = store.delete_report(0).unwrap();
    assert_eq!(deleted.id, 0);
    assert_eq!(deleted.report_details, "improved");
    assert_eq!(deleted.updated_at, Some(250));

    assert_eq!(store.get_report(0).unwrap_err(), ReportError::NotFound(0));
}

#[test]
fn fresh_store_starts_at_zero() {
    let store = fresh();
    assert_eq!(store.next_report_id(), 0);
    assert!(!store.contains_report(0));
}

#[test]
fn get_returns_what_add_stored() {
    let mut store = fresh();
    store.add_report(payload("Ölga", "Zoë", "ate well; 体温 normal"), 7).unwrap();
    let got = store.get_report(0).unwrap();
    assert_eq!(got.id, 0);
    assert_eq!(got.elder_name, "Ölga");
    assert_eq!(got.caregiver_name, "Zoë");
    assert_eq!(got.report_details, "ate well; 体温 normal");
    assert_eq!(got.timestamp, 7);
    assert_eq!(got.updated_at, None);
}

#[test]
fn ids_strictly_increase_despite_deletions() {
    let mut store = fresh();
    let mut ids = Vec::new();
    for i in 0..5u64 {
        let r = store.add_report(payload("E", "C", "d"), i).unwrap();
        ids.push(r.id);
        if i % 2 == 0 {
            store.delete_report(r.id).unwrap();
        }
    }
    assert_eq!(ids, vec![0, 1, 2, 3, 4]);
    let next = store.add_report(payload("E", "C", "d"), 9).unwrap();
    assert_eq!(next.id, 5);
    assert_eq!(store.next_report_id(), 6);
}

#[test]
fn unknown_id_is_not_found_everywhere() {
    let mut store = fresh();
    store.add_report(payload("Jane", "Amy", "stable"), 1).unwrap();
    assert_eq!(store.get_report(7).unwrap_err(), ReportError::NotFound(7));
    assert_eq!(
        store.update_report(7, payload("a", "b", "c"), 2).unwrap_err(),
        ReportError::NotFound(7)
    );
    assert_eq!(store.delete_report(7).unwrap_err(), ReportError::NotFound(7));
    assert!(!store.contains_report(7));
    assert_eq!(store.next_report_id(), 1);
    assert_eq!(store.get_report(0).unwrap().report_details, "stable");
}

#[test]
fn update_keeps_id_and_creation_time() {
    let mut store = fresh();
    store.add_report(payload("A", "B", "C"), 10).unwrap();
    store.add_report(payload("D", "E", "F"), 20).unwrap();
    let u = store.update_report(1, payload("X", "Y", "Z"), 30).unwrap();
    assert_eq!(u.id, 1);
    assert_eq!(u.timestamp, 20);
    assert_eq!((u.elder_name.as_str(), u.caregiver_name.as_str(), u.report_details.as_str()), ("X", "Y", "Z"));
    assert_eq!(u.updated_at, Some(30));
    let again = store.get_report(1).unwrap();
    assert_eq!(again.report_details, "Z");
    assert_eq!(again.updated_at, Some(30));
    assert_eq!(store.get_report(0).unwrap().report_details, "C");
    assert_eq!(store.next_report_id(), 2);
}

#[test]
fn update_at_time_zero_is_present() {
    let mut store = fresh();
    store.add_report(payload("A", "B", "C"), 0).unwrap();
    let u = store.update_report(0, payload("A", "B", "C"), 0).unwrap();
    assert_eq!(u.updated_at, Some(0));
    assert_eq!(store.get_report(0).unwrap().updated_at, Some(0));
}

#[test]
fn delete_is_final() {
    let mut store = fresh();
    store.add_report(payload("A", "B", "C"), 1).unwrap();
    assert_eq!(store.delete_report(0).unwrap().id, 0);
    assert_eq!(store.get_report(0).unwrap_err(), ReportError::NotFound(0));
    assert_eq!(store.delete_report(0).unwrap_err(), ReportError::NotFound(0));
    assert_eq!(
        store.update_report(0, payload("a", "b", "c"), 2).unwrap_err(),
        ReportError::NotFound(0)
    );
}

#[test]
fn oversized_add_is_rejected_without_change() {
    let mut store = fresh();
    let big = "x".repeat(2100);
    assert_eq!(
        store.add_report(payload("A", "B", &big), 1).unwrap_err(),
        ReportError::EncodingTooLarge
    );
    assert_eq!(store.next_report_id(), 0);
    assert!(!store.contains_report(0));
    assert_eq!(store.add_report(payload("A", "B", "ok"), 2).unwrap().id, 0);
}

#[test]
fn oversized_update_is_rejected_without_change() {
    let mut store = fresh();
    store.add_report(payload("A", "B", "C"), 1).unwrap();
    let third = "y".repeat(700);
    assert_eq!(
        store.update_report(0, payload(&third, &third, &third), 2).unwrap_err(),
        ReportError::EncodingTooLarge
    );
    let kept = store.get_report(0).unwrap();
    assert_eq!(kept.report_details, "C");
    assert_eq!(kept.updated_at, None);
}

#[test]
fn largest_report_fits_and_one_more_byte_does_not() {
    let mut store = fresh();
    // 30 bytes of framing when the update time is absent.
    let fits = "d".repeat(2048 - 30);
    let r = store.add_report(payload("", "", &fits), 1).unwrap();
    assert_eq!(store.get_report(r.id).unwrap().report_details.len(), 2018);
    let too_big = "d".repeat(2048 - 29);
    assert_eq!(
        store.add_report(payload("", "", &too_big), 1).unwrap_err(),
        ReportError::EncodingTooLarge
    );
    // The update adds eight bytes of update time.
    assert_eq!(
        store.update_report(r.id, payload("", "", &fits), 2).unwrap_err(),
        ReportError::EncodingTooLarge
    );
    let shorter = "d".repeat(2048 - 38);
    assert_eq!(store.update_report(r.id, payload("", "", &shorter), 2).unwrap().updated_at, Some(2));
}
