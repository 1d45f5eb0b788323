use safety_scheduler::rng::{random_id, random_number};
use safety_scheduler::sheets::parse_date;

#[test]
fn random_ids_are_six_alphanumerics() {
    for _ in 0..100 {
        let r = random_id();
        assert_eq!(r.len(), 6);
        assert!(r.chars().all(|c| c.is_ascii_alphanumeric()));
    }
}

#[test]
fn random_numbers_below_end() {
    for _ in 0..100 {
        assert!(random_number(5) < 5);
    }
    assert_eq!(random_number(1), 0);
}

#[test]
fn dates_parse() {
    assert_eq!(parse_date("1/2/2020"), Ok((1, 2, 2020)));
    assert_eq!(parse_date("+12/31/-44"), Ok((12, 31, -44)));
    assert_eq!(parse_date("4294967295/0/-2147483648"), Ok((4294967295, 0, -2147483648)));
}

#[test]
fn dates_refused() {
    assert_eq!(parse_date("1/2"), Err(String::new()));
    assert_eq!(parse_date("1/2/3/4"), Err(String::new()));
    assert_eq!(parse_date("a/2/3"), Err("invalid digit found in string".to_string()));
    assert_eq!(parse_date("/2/3"), Err("cannot parse integer from empty string".to_string()));
    assert_eq!(parse_date("-1/2/3"), Err("invalid digit found in string".to_string()));
    assert_eq!(parse_date("+/2/3"), Err("invalid digit found in string".to_string()));
    assert_eq!(parse_date("4294967296/1/1"), Err("number too large to fit in target type".to_string()));
    assert_eq!(parse_date("1/1/2147483648"), Err("number too large to fit in target type".to_string()));
    assert_eq!(parse_date("1/1/-2147483649"), Err("number too small to fit in target type".to_string()));
}

#[test]
fn dates_agree_with_std() {
    for s in ["7/4/1776", "0/0/0", "99999999999/1/1", "1/x/1", "1/1/-0", "1/1/+5", "1/ 1/1"] {
        let parts: Vec<&str> = s.split('/').collect();
        let expected = (|| -> Result<(u32, u32, i32), String> {
            Ok((
                parts[0].parse::<u32>().map_err(|e| e.to_string())?,
                parts[1].parse::<u32>().map_err(|e| e.to_string())?,
                parts[2].parse::<i32>().map_err(|e| e.to_string())?,
            ))
        })();
        assert_eq!(parse_date(s), expected, "{}", s);
    }
}
