use freq_plotter::parser::{parse_recip_line, RawRecord};

#[test]
fn parses_basic_record() {
    assert_eq!(
        parse_recip_line(b"R=1F,A"),
        Some(RawRecord {
            counter: 31,
            reference_cycles: 10,
            fine_raw: None
        })
    );
}

#[test]
fn parses_fine_field() {
    assert_eq!(
        parse_recip_line(b"R=1F,A,5"),
        Some(RawRecord {
            counter: 31,
            reference_cycles: 10,
            fine_raw: Some(5)
        })
    );
}

#[test]
fn rejects_wrong_marker() {
    assert_eq!(parse_recip_line(b"X=1F,A"), None);
}

#[test]
fn rejects_bad_hex() {
    assert_eq!(parse_recip_line(b"R=ZZ,A"), None);
}

#[test]
fn rejects_missing_fields() {
    assert_eq!(parse_recip_line(b"R=1F"), None);
    assert_eq!(parse_recip_line(b"R="), None);
    assert_eq!(parse_recip_line(b"R=1F,"), None);
    assert_eq!(parse_recip_line(b"R=,A"), None);
    assert_eq!(parse_recip_line(b""), None);
}

#[test]
fn accepts_lowercase_and_spaces() {
    assert_eq!(
        parse_recip_line(b"R= 1f , a"),
        Some(RawRecord {
            counter: 31,
            reference_cycles: 10,
            fine_raw: None
        })
    );
}

#[test]
fn unparsable_fine_counts_as_zero() {
    assert_eq!(
        parse_recip_line(b"R=1F,A,ZZ"),
        Some(RawRecord {
            counter: 31,
            reference_cycles: 10,
            fine_raw: Some(0)
        })
    );
}

#[test]
fn ignores_fields_past_the_third() {
    assert_eq!(
        parse_recip_line(b"R=1,2,3,4"),
        Some(RawRecord {
            counter: 1,
            reference_cycles: 2,
            fine_raw: Some(3)
        })
    );
}

#[test]
fn accepts_plus_prefix() {
    assert_eq!(
        parse_recip_line(b"R=+1F,+A"),
        Some(RawRecord {
            counter: 31,
            reference_cycles: 10,
            fine_raw: None
        })
    );
}

#[test]
fn rejects_counter_overflow() {
    assert_eq!(parse_recip_line(b"R=FFFFFFFFF,A"), None);
    assert_eq!(
        parse_recip_line(b"R=FFFFFFFF,A"),
        Some(RawRecord {
            counter: 0xFFFF_FFFF,
            reference_cycles: 10,
            fine_raw: None
        })
    );
}
