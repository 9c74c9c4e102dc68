use srcmap_lookup::query::{parse_offset, parse_offsets, QueryError};

fn by_std(s: &str) -> Option<u32> {
    if s.starts_with("0x") || s.starts_with("0X") {
        u32::from_str_radix(&s[2..], 16).ok()
    } else {
        s.parse::<u32>().ok()
    }
}

#[test]
fn decimal_offsets() {
    assert_eq!(parse_offset("0"), Some(0));
    assert_eq!(parse_offset("7"), Some(7));
    assert_eq!(parse_offset("1234"), Some(1234));
    assert_eq!(parse_offset("0042"), Some(42));
    assert_eq!(parse_offset("4294967295"), Some(4294967295));
}

#[test]
fn hexadecimal_offsets() {
    assert_eq!(parse_offset("0x0"), Some(0));
    assert_eq!(parse_offset("0x1f"), Some(31));
    assert_eq!(parse_offset("0X1F"), Some(31));
    assert_eq!(parse_offset("0xdeadBEEF"), Some(0xdead_beef));
    assert_eq!(parse_offset("0xffffffff"), Some(u32::MAX));
    assert_eq!(parse_offset("0x00000000000010"), Some(16));
}

#[test]
fn leading_plus_is_accepted() {
    assert_eq!(parse_offset("+5"), Some(5));
    assert_eq!(parse_offset("0x+ff"), Some(255));
    assert_eq!(parse_offset("+0x10"), None);
    assert_eq!(parse_offset("++5"), None);
    assert_eq!(parse_offset("+"), None);
    assert_eq!(parse_offset("0x+"), None);
}

#[test]
fn offsets_that_do_not_fit() {
    assert_eq!(parse_offset("4294967296"), None);
    assert_eq!(parse_offset("99999999999999999999999999"), None);
    assert_eq!(parse_offset("0x100000000"), None);
    assert_eq!(parse_offset("0xfffffffffffffffffffff"), None);
}

#[test]
fn literals_that_write_no_offset() {
    for s in ["", "0x", "0X", "-1", "0x-1", "12a", "a", "0xg", "1 ", " 1", "1_000", "0x0x1", "x10",
        "1.0", "١٢٣", "0b101", "0o17", "1e3", "०"]
    {
        assert_eq!(parse_offset(s), None, "{:?}", s);
    }
}

#[test]
fn hexadecimal_digits_need_the_prefix() {
    assert_eq!(parse_offset("ff"), None);
    assert_eq!(parse_offset("1F"), None);
    assert_eq!(parse_offset("0xz"), None);
}

#[test]
fn agrees_with_the_standard_parsers() {
    let pieces = ["", "0", "1", "9", "a", "f", "F", "g", "x", "X", "+", "-", " ", "0x", "0X", "10",
        "4294967295", "4294967296", "ffffffff", "100000000", "é", "_"];
    for a in pieces {
        for b in pieces {
            for c in pieces {
                let s = format!("{}{}{}", a, b, c);
                assert_eq!(parse_offset(&s), by_std(&s), "{:?}", s);
            }
        }
    }
}

#[test]
fn list_of_offsets() {
    let literals: Vec<String> = vec!["16".to_string(), "0x10".to_string(), "0".to_string()];
    assert_eq!(parse_offsets(&literals), Ok(vec![16, 16, 0]));
}

#[test]
fn empty_list_of_offsets() {
    assert_eq!(parse_offsets(&Vec::new()), Err(QueryError::NoOffsets));
}

#[test]
fn first_invalid_offset_is_reported() {
    let literals: Vec<String> =
        vec!["1".to_string(), "two".to_string(), "3".to_string(), "".to_string()];
    assert_eq!(parse_offsets(&literals), Err(QueryError::InvalidOffset { index: 1 }));
    let only: Vec<String> = vec!["0x".to_string()];
    assert_eq!(parse_offsets(&only), Err(QueryError::InvalidOffset { index: 0 }));
}
