use loginator::decoder::Decoder;
use loginator::telemetry::{split_fields, telemetry_payload};

fn fields(text: &str) -> Option<Vec<String>> {
    Decoder::telemetry_fields(&text.as_bytes().to_vec())
        .map(|fields| fields.into_iter().map(|f| String::from_utf8(f).unwrap()).collect())
}

#[test]
fn telemetry_between_markers() {
    assert_eq!(
        fields("xxTELE_DEBUG:0,1.5,2TELE_ENDyy"),
        Some(vec!["0".to_string(), "1.5".to_string(), "2".to_string()])
    );
}

#[test]
fn no_telemetry_without_markers() {
    assert_eq!(fields("sout2,30.000000,30.000000\n"), None);
    assert_eq!(fields("TELE_DEBUG:1,2"), None);
    assert_eq!(fields("1,2TELE_END"), None);
    assert_eq!(fields(""), None);
}

#[test]
fn telemetry_never_spans_lines() {
    assert_eq!(fields("TELE_DEBUG:1,\n2TELE_END"), None);
}

#[test]
fn line_feed_after_the_end_marker_is_fine() {
    assert_eq!(fields("TELE_DEBUG:3TELE_END\n"), Some(vec!["3".to_string()]));
}

#[test]
fn first_telemetry_wins() {
    assert_eq!(
        fields("TELE_DEBUG:1TELE_ENDTELE_DEBUG:2TELE_END"),
        Some(vec!["1".to_string()])
    );
}

#[test]
fn payload_ends_at_the_first_end_marker() {
    assert_eq!(
        telemetry_payload(&b"TELE_DEBUG:aTELE_ENDbTELE_END".to_vec()),
        Some(b"a".to_vec())
    );
}

#[test]
fn broken_start_is_skipped_for_a_later_one() {
    assert_eq!(
        fields("TELE_DEBUG:1\nTELE_DEBUG:2,3TELE_END"),
        Some(vec!["2".to_string(), "3".to_string()])
    );
}

#[test]
fn empty_telemetry_has_one_empty_field() {
    assert_eq!(fields("TELE_DEBUG:TELE_END"), Some(vec!["".to_string()]));
}

#[test]
fn start_marker_inside_the_payload_is_data() {
    assert_eq!(
        telemetry_payload(&b"TELE_DEBUG:TELE_DEBUG:5TELE_END".to_vec()),
        Some(b"TELE_DEBUG:5".to_vec())
    );
}

#[test]
fn split_keeps_empty_fields() {
    assert_eq!(
        split_fields(&b"a,,b".to_vec()),
        vec![b"a".to_vec(), vec![], b"b".to_vec()]
    );
    assert_eq!(split_fields(&vec![]), vec![Vec::<u8>::new()]);
    assert_eq!(split_fields(&b",".to_vec()), vec![Vec::<u8>::new(), vec![]]);
}

#[test]
fn non_ascii_bytes_pass_through() {
    assert_eq!(
        telemetry_payload(&vec![200, 84, 69, 76, 69, 95, 68, 69, 66, 85, 71, 58, 255, 13, 84, 69, 76, 69, 95, 69, 78, 68]),
        Some(vec![255, 13])
    );
}
