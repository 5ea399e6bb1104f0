use pdf_printer::pages::parse_page_range;

#[test]
fn readme_single_range() {
    assert_eq!(parse_page_range("1-10", 100), Ok((0..10).collect::<Vec<u32>>()));
}

#[test]
fn readme_list_of_pages() {
    assert_eq!(parse_page_range("1,3,5", 100), Ok(vec![0, 2, 4]));
}

#[test]
fn readme_mixed_ranges() {
    let mut expected: Vec<u32> = (0..10).collect();
    expected.push(14);
    expected.extend(19..30);
    assert_eq!(parse_page_range("1-10,15,20-30", 100), Ok(expected));
}

#[test]
fn overlapping_and_unordered_parts_are_merged_and_sorted() {
    assert_eq!(parse_page_range("5,1-3,2,3-4", 10), Ok(vec![0, 1, 2, 3, 4]));
}

#[test]
fn fullwidth_comma_separates() {
    assert_eq!(parse_page_range("1\u{ff0c}3", 10), Ok(vec![0, 2]));
}

#[test]
fn white_space_and_empty_parts_are_ignored() {
    assert_eq!(parse_page_range(" 2 - 4 , ,\t7\u{3000},", 10), Ok(vec![1, 2, 3, 6]));
}

#[test]
fn pages_outside_the_document_are_dropped() {
    assert_eq!(parse_page_range("0-2,9-12", 10), Ok(vec![0, 1, 8, 9]));
}

#[test]
fn reversed_range_selects_nothing() {
    assert_eq!(parse_page_range("5-3", 10), Err("empty range".to_string()));
}

#[test]
fn empty_text_selects_nothing() {
    assert_eq!(parse_page_range("", 10), Err("empty range".to_string()));
    assert_eq!(parse_page_range(" , ", 10), Err("empty range".to_string()));
}

#[test]
fn no_pages_in_document() {
    assert_eq!(parse_page_range("1", 0), Err("empty range".to_string()));
}

#[test]
fn plus_sign_is_accepted() {
    assert_eq!(parse_page_range("+3", 10), Ok(vec![2]));
    assert_eq!(parse_page_range("+", 10), Err("invalid: +".to_string()));
}

#[test]
fn invalid_part_is_reported_trimmed() {
    assert_eq!(parse_page_range("1, a-3 ,5", 10), Err("invalid: a-3".to_string()));
    assert_eq!(parse_page_range("1-2-3", 10), Err("invalid: 1-2-3".to_string()));
    assert_eq!(parse_page_range("-3", 10), Err("invalid: -3".to_string()));
    assert_eq!(parse_page_range("3-", 10), Err("invalid: 3-".to_string()));
    assert_eq!(parse_page_range("１", 10), Err("invalid: １".to_string()));
}

#[test]
fn first_invalid_part_wins() {
    assert_eq!(parse_page_range("x,y", 10), Err("invalid: x".to_string()));
}

#[test]
fn number_overflow_is_invalid() {
    assert_eq!(parse_page_range("4294967295", 10), Err("empty range".to_string()));
    assert_eq!(parse_page_range("4294967296", 10), Err("invalid: 4294967296".to_string()));
    assert_eq!(parse_page_range("00000000000000000007", 10), Ok(vec![6]));
}

#[test]
fn huge_range_is_clamped_to_document() {
    assert_eq!(parse_page_range("1-4294967295", 3), Ok(vec![0, 1, 2]));
}

#[test]
fn result_is_strictly_increasing_and_bounded() {
    let v = parse_page_range("9,1-4,3,20,7-8", 8).unwrap();
    assert!(v.windows(2).all(|w| w[0] < w[1]));
    assert!(v.iter().all(|&p| p < 8));
    assert_eq!(v, vec![0, 1, 2, 3, 6, 7]);
}

#[test]
fn trimming_follows_str_trim_for_every_char() {
    for code in 0u32..=0x10FFFF {
        let Some(c) = char::from_u32(code) else { continue };
        if c.is_ascii_digit() || matches!(c, ',' | '+' | '-' | '\u{ff0c}') {
            continue;
        }
        let text = format!("{c}3{c}");
        let expected = if c.is_whitespace() {
            Ok(vec![2])
        } else {
            Err(format!("invalid: {}", text.trim()))
        };
        assert_eq!(parse_page_range(&text, 5), expected, "char {code:#x}");
    }
}

#[test]
fn numbers_follow_u32_from_str() {
    for s in [
        "0", "1", "+1", "+0", "00", "007", "++1", "+-1", "1+", " 1", "4294967295", "+4294967295",
        "4294967296", "99999999999999999999", "12a", "1 2", "٣", "1.0", "0x10",
    ] {
        let expected = match s.trim().parse::<u32>() {
            Ok(0) => Err("empty range".to_string()),
            Ok(n) => Ok(vec![n - 1]),
            Err(_) => Err(format!("invalid: {}", s.trim())),
        };
        assert_eq!(parse_page_range(s, u32::MAX), expected, "text {s:?}");
    }
}

#[test]
fn page_list_written_back_parses_to_itself() {
    for (text, m) in [("1-10", 100u32), ("3,1,2", 5), ("2-4,9, 12-13", 12), ("1-1000", 20)] {
        let v = parse_page_range(text, m).unwrap();
        let joined = v.iter().map(|i| (i + 1).to_string()).collect::<Vec<String>>().join(",");
        assert_eq!(parse_page_range(&joined, m), Ok(v));
    }
}

#[test]
fn smaller_document_keeps_the_pages_below_it() {
    for text in ["1-10", "2,4,6,8", "5-7,1", "9"] {
        let v2 = parse_page_range(text, 10).unwrap();
        for m1 in 0..=10u32 {
            let w: Vec<u32> = v2.iter().copied().filter(|i| *i < m1).collect();
            let expected = if w.is_empty() { Err("empty range".to_string()) } else { Ok(w) };
            assert_eq!(parse_page_range(text, m1), expected);
        }
    }
}
