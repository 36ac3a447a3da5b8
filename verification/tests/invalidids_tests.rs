use std::io::BufRead;
use std::io::Cursor;

use aoc_25::invalidids::{naive_invalid_id, naive_invalid_ids, ranges_from_bytes, IdRange,
    IdRangeError};

static GIVEN_TESTCASE: &str = "\
        11-22,95-115,998-1012,1188511880-1188511890,222220-222224,\
        1698522-1698528,446443-446449,38593856-38593862,565653-565659,\
        824824821-824824827,2121212118-2121212124";

#[test]
fn test_naive_invalid_id() {
    assert!(naive_invalid_id(1212));
    assert!(naive_invalid_id(123123));
    assert!(naive_invalid_id(12341234));
    assert!(!naive_invalid_id(12345));
    assert!(!naive_invalid_id(1231231));
}

#[test]
fn given_testcase() {
    let items: Vec<IdRange> = ranges_from_bytes(GIVEN_TESTCASE.as_bytes())
        .into_iter()
        .collect::<Result<Vec<IdRange>, IdRangeError>>()
        .unwrap();
    let mut res = 0u64;

    for r in &items {
        let invalids = naive_invalid_ids(r);
        res += invalids.iter().sum::<u64>();
    }
    assert_eq!(res, 1227775554);
}

#[test]
fn test_id_range_try_from() {
    assert_eq!(IdRange::try_from("100-200"), Ok(IdRange { min: 100, max: 200 }));
    assert_eq!(IdRange::try_from("200-100"), Err(IdRangeError::RangeError));
    assert_eq!(IdRange::try_from("100-100"), Err(IdRangeError::RangeError));
    assert!(matches!(IdRange::try_from("abc-def"), Err(IdRangeError::ParseError(_))));
    assert!(matches!(IdRange::try_from("10-def"), Err(IdRangeError::ParseError(_))));
}

#[test]
fn test_id_ranges_from_reader() {
    let data = "11-22,95-115,998-1012,1188511880-1188511890,\
            222220-222224,1698522-1698528,446443-446449,38593856-38593862,\
            565653-565659,824824821-824824827,2121212118-2121212124";
    let items: Vec<IdRange> = ranges_from_bytes(data.as_bytes())
        .into_iter()
        .collect::<Result<Vec<IdRange>, IdRangeError>>()
        .unwrap();
    assert_eq!(items, vec![
        IdRange { min: 11, max: 22 },
        IdRange { min: 95, max: 115 },
        IdRange { min: 998, max: 1012 },
        IdRange { min: 1188511880, max: 1188511890 },
        IdRange { min: 222220, max: 222224 },
        IdRange { min: 1698522, max: 1698528 },
        IdRange { min: 446443, max: 446449 },
        IdRange { min: 38593856, max: 38593862 },
        IdRange { min: 565653, max: 565659 },
        IdRange { min: 824824821, max: 824824827 },
        IdRange { min: 2121212118, max: 2121212124 },
    ]);
}

#[test]
fn test_naive_invalid_ids() {
    let rdr = Cursor::new(
        "11-22,95-115,998-1012,1188511880-1188511890,222220-222224,
1698522-1698528,446443-446449,38593856-38593862,565653-565659,
824824821-824824827,2121212118-2121212124",
    );

    let mut brc = std::io::BufReader::new(rdr).split(b',').map(|r| match r {
        Ok(v) => IdRange::try_from_bytes(v.as_slice()),
        Err(_) => Err(IdRangeError::IOError),
    });
    let i1 = brc.next().unwrap().unwrap();
    assert_eq!(i1, IdRange { min: 11, max: 22 });
}

#[test]
fn boundary_range_sum() {
    // In [11, 22] the invalid IDs are the two-digit repeats 11 and 22,
    // which sum to 33.
    let invalids = naive_invalid_ids(&IdRange { min: 11, max: 22 });
    assert_eq!(invalids, vec![11, 22]);
    assert_eq!(invalids.iter().sum::<u64>(), 33);
}

#[test]
fn invalid_id_edges() {
    // A single digit is an odd-length representation and never invalid.
    assert!(!naive_invalid_id(0));
    assert!(!naive_invalid_id(7));
    assert!(naive_invalid_id(11));
    assert!(naive_invalid_id(1188511885));
    assert!(!naive_invalid_id(1188511886));
    // Halves must match character for character, not merely as numbers.
    assert!(!naive_invalid_id(1201));
    assert!(naive_invalid_id(1010));
}

#[test]
fn parse_error_reports_the_failing_part() {
    match IdRange::try_from("abc-def") {
        Err(IdRangeError::ParseError(m)) => assert_eq!(m, "abc"),
        other => panic!("unexpected result {:?}", other),
    }
    match IdRange::try_from("10-def") {
        Err(IdRangeError::ParseError(m)) => assert_eq!(m, "def"),
        other => panic!("unexpected result {:?}", other),
    }
    match IdRange::try_from("123") {
        Err(IdRangeError::ParseError(m)) => assert_eq!(m, ""),
        other => panic!("unexpected result {:?}", other),
    }
}

#[test]
fn plus_signed_bounds_are_accepted() {
    // Each bound is what u64 parsing accepts: one leading `+` may precede
    // the digits; a second one, or a bare `+`, may not.
    assert_eq!(IdRange::try_from("+100-200"), Ok(IdRange { min: 100, max: 200 }));
    assert_eq!(IdRange::try_from("100-+200"), Ok(IdRange { min: 100, max: 200 }));
    assert!(matches!(IdRange::try_from("++100-200"), Err(IdRangeError::ParseError(_))));
    assert!(matches!(IdRange::try_from("+-200"), Err(IdRangeError::ParseError(_))));
}

#[test]
fn non_utf8_token_is_rejected() {
    let bytes: Vec<u8> = vec![0xff, 0xfe, b'1', b'-', b'2'];
    assert_eq!(IdRange::try_from_bytes(bytes.as_slice()), Err(IdRangeError::UTF8Error));
    assert_eq!(IdRange::try_from_bytes(b"100-200"), Ok(IdRange { min: 100, max: 200 }));
}

#[test]
fn empty_tokens_are_skipped() {
    let results = ranges_from_bytes(b",,1-2,,3-9,");
    assert_eq!(results, vec![
        Ok(IdRange { min: 1, max: 2 }),
        Ok(IdRange { min: 3, max: 9 }),
    ]);
    assert_eq!(ranges_from_bytes(b""), vec![]);
}
