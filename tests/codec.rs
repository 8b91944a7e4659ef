use eldercare::{decode, encode, CareReport, EncodeError, MAX_ENCODED_SIZE};

fn report(updated_at: Option<u64>) -> CareReport {
    CareReport {
        id: 1,
        elder_name: "a".to_string(),
        caregiver_name: "b".to_string(),
        report_details: String::new(),
        timestamp: 2,
        updated_at,
    }
}

#[test]
fn encoding_has_the_documented_layout() {
    let bytes = encode(&report(None)).unwrap();
    let expected: Vec<u8> = vec![
        0x52, 1, 0, 0, 0, 0, 0, 0, 0, 2, 0, 0, 0, 0, 0, 0, 0, 0, 1, 0, 0, 0, b'a', 1, 0, 0, 0,
        b'b', 0, 0, 0, 0,
    ];
    assert_eq!(bytes, expected);
}

#[test]
fn encoding_with_update_time() {
    let bytes = encode(&report(Some(0x0102))).unwrap();
    assert_eq!(&bytes[17..26], &[1, 0x02, 0x01, 0, 0, 0, 0, 0, 0]);
    assert_eq!(bytes.len(), 40);
}

#[test]
fn round_trip_keeps_absent_and_present_update_time() {
    for stamp in [None, Some(0), Some(u64::MAX)] {
        let r = CareReport {
            id: u64::MAX,
            elder_name: "Jane".to_string(),
            caregiver_name: "Ämy 🙂".to_string(),
            report_details: "stable".to_string(),
            timestamp: 123456789,
            updated_at: stamp,
        };
        let back = decode(&encode(&r).unwrap()).unwrap();
        assert_eq!(back.id, r.id);
        assert_eq!(back.elder_name, r.elder_name);
        assert_eq!(back.caregiver_name, r.caregiver_name);
        assert_eq!(back.report_details, r.report_details);
        assert_eq!(back.timestamp, r.timestamp);
        assert_eq!(back.updated_at, stamp);
    }
}

#[test]
fn encoding_over_the_bound_is_rejected() {
    let mut r = report(None);
    r.report_details = "z".repeat(1000);
    r.elder_name = "z".repeat(1000);
    r.caregiver_name = "z".repeat(49);
    assert_eq!(encode(&r).unwrap_err(), EncodeError::TooLarge);
    r.caregiver_name = "z".repeat(18);
    assert_eq!(encode(&r).unwrap().len(), MAX_ENCODED_SIZE);
}

#[test]
fn decode_rejects_malformed_bytes() {
    let good = encode(&report(None)).unwrap();
    let mut trailing = good.clone();
    trailing.push(0);
    assert!(decode(&trailing).is_none());
    let mut tag = good.clone();
    tag[0] = 0;
    assert!(decode(&tag).is_none());
    let mut stamp = good.clone();
    stamp[17] = 2;
    assert!(decode(&stamp).is_none());
    let mut utf8 = good.clone();
    utf8[22] = 0xff;
    assert!(decode(&utf8).is_none());
    assert!(decode(&good[..good.len() - 1]).is_none());
    assert!(decode(&[]).is_none());
}
