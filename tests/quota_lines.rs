use mio0::quota_file::{format_quota_line, parse_quota_line};
use mio0::quotas::QuotaRecord;

fn rec(v: [u32; 7]) -> QuotaRecord {
    QuotaRecord {
        days_to_go: v[0],
        new_assigned: v[1],
        review_assigned: v[2],
        new_quota_initial: v[3],
        review_quota_initial: v[4],
        new_practiced: v[5],
        review_practiced: v[6],
    }
}

#[test]
fn quota_line_text_form() {
    let r = rec([3, 12, 0, 14, 5, 1, 1000]);
    assert_eq!(format_quota_line(&r), b"3,12,0,14,5,1,1000".to_vec());
}

#[test]
fn quota_line_round_trip() {
    for v in [[0u32; 7], [1, 2, 3, 4, 5, 6, 7], [u32::MAX, 0, 9, 10, 99, 100, u32::MAX]] {
        let r = rec(v);
        assert_eq!(parse_quota_line(&format_quota_line(&r)), Some(r));
    }
}

#[test]
fn quota_line_refuses_bad_text() {
    assert_eq!(parse_quota_line(b""), None);
    assert_eq!(parse_quota_line(b"1,2,3"), None);
    assert_eq!(parse_quota_line(b"1,2,3,4,5,6,x"), None);
    assert_eq!(parse_quota_line(b"1,2,3,4,5,6,7,"), None);
    assert_eq!(parse_quota_line(b",1,2,3,4,5,6"), None);
    assert_eq!(parse_quota_line(b"1,2,3,4,5,6,7,8"), None);
    assert_eq!(parse_quota_line(b"4294967296,0,0,0,0,0,0"), None);
    assert_eq!(parse_quota_line(b"1, 2,3,4,5,6,7"), None);
    assert_eq!(parse_quota_line(b"01,2,3,4,5,6,7"), Some(rec([1, 2, 3, 4, 5, 6, 7])));
}
