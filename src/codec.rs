//! Binary form of a care report.
//!
//! Layout, all integers little-endian:
//! a format tag byte; the identifier (8 bytes); the creation timestamp
//! (8 bytes); the update timestamp as a presence byte followed, when present,
//! by 8 bytes; then the elder name, caregiver name and report details, each as
//! a 4-byte byte length followed by the UTF-8 bytes. The whole encoding may
//! not exceed [`MAX_ENCODED_SIZE`] bytes.
use crate::record::{CareReport, ReportView};
use vstd::bytes::*;
use vstd::prelude::*;
use vstd::slice::*;
use vstd::string::*;
use vstd::utf8::*;

verus! {

/// Largest number of bytes an encoded report may take.
pub const MAX_ENCODED_SIZE: usize = 2048;

/// First byte of every encoded report.
pub const FORMAT_TAG: u8 = 0x52;

/// Presence byte for an absent update timestamp.
pub const STAMP_ABSENT: u8 = 0;

/// Presence byte for a present update timestamp.
pub const STAMP_PRESENT: u8 = 1;

/// Bytes taken by everything but the text bodies when the update timestamp is absent.
pub const FIXED_PART: usize = 30;

/// Why a report could not be encoded.
#[derive(Clone, Copy, Debug, PartialEq, Eq)]
pub enum EncodeError {
    /// The encoded form would exceed [`MAX_ENCODED_SIZE`].
    TooLarge,
}

/// A text field: its UTF-8 byte length on four bytes, then the bytes.
pub open spec fn text_bytes(s: Seq<char>) -> Seq<u8> {
    spec_u32_to_le_bytes(encode_utf8(s).len() as u32) + encode_utf8(s)
}

/// The optional update timestamp: a presence byte, then the value if present.
pub open spec fn stamp_bytes(t: Option<u64>) -> Seq<u8> {
    match t {
        None => seq![STAMP_ABSENT],
        Some(x) => seq![STAMP_PRESENT] + spec_u64_to_le_bytes(x),
    }
}

/// The encoding of a report.
pub open spec fn encoding(r: ReportView) -> Seq<u8> {
    seq![FORMAT_TAG] + spec_u64_to_le_bytes(r.id) + spec_u64_to_le_bytes(r.timestamp)
        + stamp_bytes(r.updated_at) + text_bytes(r.elder_name) + text_bytes(r.caregiver_name)
        + text_bytes(r.report_details)
}

/// A report whose encoding respects the size bound.
pub open spec fn encodable(r: ReportView) -> bool {
    encoding(r).len() <= MAX_ENCODED_SIZE
}

/// Reads the update timestamp at `pos`; gives the value and the position after it.
pub open spec fn parse_stamp(b: Seq<u8>, pos: int) -> Option<(Option<u64>, int)> {
    if 0 <= pos < b.len() {
        if b[pos] == STAMP_ABSENT {
            Some((None, pos + 1))
        } else if b[pos] == STAMP_PRESENT && pos + 9 <= b.len() {
            Some((Some(spec_u64_from_le_bytes(b.subrange(pos + 1, pos + 9))), pos + 9))
        } else {
            None
        }
    } else {
        None
    }
}

/// Reads a text field at `pos`; gives the text and the position after it.
pub open spec fn parse_text(b: Seq<u8>, pos: int) -> Option<(Seq<char>, int)> {
    if 0 <= pos && pos + 4 <= b.len() {
        let n = spec_u32_from_le_bytes(b.subrange(pos, pos + 4)) as int;
        if pos + 4 + n <= b.len() && valid_utf8(b.subrange(pos + 4, pos + 4 + n)) {
            Some((decode_utf8(b.subrange(pos + 4, pos + 4 + n)), pos + 4 + n))
        } else {
            None
        }
    } else {
        None
    }
}

/// The report that `b` encodes, if `b` is exactly one well-formed encoding.
pub open spec fn parse_report(b: Seq<u8>) -> Option<ReportView> {
    if b.len() < 17 || b[0] != FORMAT_TAG {
        None
    } else {
        match parse_stamp(b, 17) {
            None => None,
            Some((updated_at, p1)) => match parse_text(b, p1) {
                None => None,
                Some((elder_name, p2)) => match parse_text(b, p2) {
                    None => None,
                    Some((caregiver_name, p3)) => match parse_text(b, p3) {
                        None => None,
                        Some((report_details, p4)) => if p4 == b.len() {
                            Some(
                                ReportView {
                                    id: spec_u64_from_le_bytes(b.subrange(1, 9)),
                                    elder_name,
                                    caregiver_name,
                                    report_details,
                                    timestamp: spec_u64_from_le_bytes(b.subrange(9, 17)),
                                    updated_at,
                                },
                            )
                        } else {
                            None
                        },
                    },
                },
            },
        }
    }
}

proof fn lemma_parse_text(pre: Seq<u8>, s: Seq<char>, post: Seq<u8>)
    requires
        encode_utf8(s).len() <= u32::MAX,
    ensures
        parse_text(pre + text_bytes(s) + post, pre.len() as int) == Some(
            (s, (pre.len() + text_bytes(s).len()) as int),
        ),
{
    let b = pre + text_bytes(s) + post;
    let n = encode_utf8(s).len();
    let p = pre.len() as int;
    lemma_auto_spec_u32_to_from_le_bytes();
    assert(b.subrange(p, p + 4) =~= spec_u32_to_le_bytes(n as u32));
    assert(b.subrange(p + 4, p + 4 + n) =~= encode_utf8(s));
    encode_utf8_valid_utf8(s);
    encode_utf8_decode_utf8(s);
}

proof fn lemma_parse_stamp(pre: Seq<u8>, t: Option<u64>, post: Seq<u8>)
    ensures
        parse_stamp(pre + stamp_bytes(t) + post, pre.len() as int) == Some(
            (t, (pre.len() + stamp_bytes(t).len()) as int),
        ),
{
    let b = pre + stamp_bytes(t) + post;
    let p = pre.len() as int;
    lemma_auto_spec_u64_to_from_le_bytes();
    assert(b[p] == stamp_bytes(t)[0]);
    if let Some(x) = t {
        assert(b.subrange(p + 1, p + 9) =~= spec_u64_to_le_bytes(x));
    }
}

/// Decoding the encoding of any report within the size bound gives that
/// report back, field for field, including whether the update timestamp is
/// present.
pub proof fn lemma_decode_encode(r: ReportView)
    requires
        encodable(r),
    ensures
        parse_report(encoding(r)) == Some(r),
{
    lemma_auto_spec_u64_to_from_le_bytes();
    lemma_auto_spec_u32_to_from_le_bytes();
    let h = seq![FORMAT_TAG] + spec_u64_to_le_bytes(r.id) + spec_u64_to_le_bytes(r.timestamp);
    let st = stamp_bytes(r.updated_at);
    let t1 = text_bytes(r.elder_name);
    let t2 = text_bytes(r.caregiver_name);
    let t3 = text_bytes(r.report_details);
    let b = encoding(r);
    assert(b =~= h + st + t1 + t2 + t3);
    assert(h.len() == 17);
    assert(b[0] == FORMAT_TAG);
    assert(b.subrange(1, 9) =~= spec_u64_to_le_bytes(r.id));
    assert(b.subrange(9, 17) =~= spec_u64_to_le_bytes(r.timestamp));
    lemma_parse_stamp(h, r.updated_at, t1 + t2 + t3);
    assert(h + st + (t1 + t2 + t3) =~= b);
    lemma_parse_text(h + st, r.elder_name, t2 + t3);
    assert(h + st + t1 + (t2 + t3) =~= b);
    lemma_parse_text(h + st + t1, r.caregiver_name, t3);
    assert(h + st + t1 + t2 + t3 =~= b);
    lemma_parse_text(h + st + t1 + t2, r.report_details, Seq::empty());
    assert(h + st + t1 + t2 + t3 + Seq::<u8>::empty() =~= b);
}

/// Relies on `std::str::from_utf8`: it succeeds exactly on valid UTF-8, and
/// the text then holds the characters that the bytes encode.
#[verifier::external_body]
fn utf8_text(b: &[u8]) -> (r: Option<String>)
    ensures
        r is Some <==> valid_utf8(b@),
        r matches Some(s) ==> s@ == decode_utf8(b@),
{
    std::str::from_utf8(b).ok().map(|s| s.to_string())
}

fn append_bytes(out: &mut Vec<u8>, mut more: Vec<u8>)
    ensures
        final(out)@ == old(out)@ + more@,
{
    out.append(&mut more);
}

/// Number of bytes that `s` takes in UTF-8.
fn utf8_len(s: &String) -> (n: usize)
    ensures
        n == encode_utf8(s@).len(),
{
    s.as_str().as_bytes().len()
}

fn append_text(out: &mut Vec<u8>, s: &String)
    requires
        encode_utf8(s@).len() <= u32::MAX,
    ensures
        final(out)@ == old(out)@ + text_bytes(s@),
{
    let bytes = s.as_str().as_bytes();
    append_bytes(out, u32_to_le_bytes(bytes.len() as u32));
    append_bytes(out, slice_to_vec(bytes));
    assert(final(out)@ =~= old(out)@ + text_bytes(s@));
}

/// Encodes a report, or refuses one whose encoding would exceed [`MAX_ENCODED_SIZE`].
pub fn encode(r: &CareReport) -> (res: Result<Vec<u8>, EncodeError>)
    ensures
        res is Ok <==> encodable(r@),
        res matches Ok(b) ==> b@ == encoding(r@),
{
    let e = utf8_len(&r.elder_name);
    let c = utf8_len(&r.caregiver_name);
    let d = utf8_len(&r.report_details);
    let stamp: usize = if r.updated_at.is_some() { 8 } else { 0 };
    proof {
        let t = r@;
        lemma_auto_spec_u64_to_from_le_bytes();
        lemma_auto_spec_u32_to_from_le_bytes();
        assert(stamp_bytes(t.updated_at).len() == 1 + stamp);
        assert(encoding(t).len() == FIXED_PART + stamp + e + c + d);
    }
    if e > MAX_ENCODED_SIZE || c > MAX_ENCODED_SIZE || d > MAX_ENCODED_SIZE {
        return Err(EncodeError::TooLarge);
    }
    if FIXED_PART + stamp + e + c + d > MAX_ENCODED_SIZE {
        return Err(EncodeError::TooLarge);
    }
    let mut out: Vec<u8> = Vec::new();
    out.push(FORMAT_TAG);
    append_bytes(&mut out, u64_to_le_bytes(r.id));
    append_bytes(&mut out, u64_to_le_bytes(r.timestamp));
    match r.updated_at {
        None => {
            out.push(STAMP_ABSENT);
        },
        Some(t) => {
            out.push(STAMP_PRESENT);
            append_bytes(&mut out, u64_to_le_bytes(t));
        },
    }
    append_text(&mut out, &r.elder_name);
    append_text(&mut out, &r.caregiver_name);
    append_text(&mut out, &r.report_details);
    assert(out@ =~= encoding(r@));
    Ok(out)
}

fn read_stamp(b: &[u8], pos: usize) -> (r: Option<(Option<u64>, usize)>)
    ensures
        match r {
            Some((t, p)) => parse_stamp(b@, pos as int) == Some((t, p as int)),
            None => parse_stamp(b@, pos as int) is None,
        },
{
    if pos >= b.len() {
        return None;
    }
    if b[pos] == STAMP_ABSENT {
        Some((None, pos + 1))
    } else if b[pos] == STAMP_PRESENT && b.len() - pos >= 9 {
        let t = u64_from_le_bytes(slice_subrange(b, pos + 1, pos + 9));
        Some((Some(t), pos + 9))
    } else {
        None
    }
}

fn read_text(b: &[u8], pos: usize) -> (r: Option<(String, usize)>)
    ensures
        match r {
            Some((s, p)) => parse_text(b@, pos as int) == Some((s@, p as int)),
            None => parse_text(b@, pos as int) is None,
        },
{
    if pos > b.len() || b.len() - pos < 4 {
        return None;
    }
    let n = u32_from_le_bytes(slice_subrange(b, pos, pos + 4)) as usize;
    let start = pos + 4;
    if n > b.len() - start {
        return None;
    }
    match utf8_text(slice_subrange(b, start, start + n)) {
        Some(s) => Some((s, start + n)),
        None => None,
    }
}

/// Decodes a report; gives `None` on bytes that are not exactly one encoding.
pub fn decode(b: &[u8]) -> (r: Option<CareReport>)
    ensures
        match r {
            Some(x) => parse_report(b@) == Some(x@),
            None => parse_report(b@) is None,
        },
{
    if b.len() < 17 || b[0] != FORMAT_TAG {
        return None;
    }
    let id = u64_from_le_bytes(slice_subrange(b, 1, 9));
    let timestamp = u64_from_le_bytes(slice_subrange(b, 9, 17));
    let (updated_at, p1) = match read_stamp(b, 17) {
        Some(x) => x,
        None => return None,
    };
    let (elder_name, p2) = match read_text(b, p1) {
        Some(x) => x,
        None => return None,
    };
    let (caregiver_name, p3) = match read_text(b, p2) {
        Some(x) => x,
        None => return None,
    };
    let (report_details, p4) = match read_text(b, p3) {
        Some(x) => x,
        None => return None,
    };
    if p4 != b.len() {
        return None;
    }
    Some(CareReport { id, elder_name, caregiver_name, report_details, timestamp, updated_at })
}

} // verus!
