use sumfile::parse::split_numbers;
use sumfile::pipeline::{new_contents, ProcessError};
use sumfile::render::{append_sum, usize_to_string};
use sumfile::sum::{add_numbers, add_numbers_checked};

#[test]
fn test_split_numbers() {
    let res = split_numbers(&String::from("5\n8"));

    assert!(res.is_ok());

    if let Ok(v) = res {
        assert_eq!(v, vec![5, 8])
    }
}

#[test]
fn test_add_numbers() {
    let sum = add_numbers(vec![3, 5]);
    assert_eq!(sum, 8);
    let sum = add_numbers(vec![1]);
    assert_eq!(sum, 1);
    let sum = add_numbers(vec![4, 7, 2]);
    assert_eq!(sum, 13);
    let sum = add_numbers(vec![]);
    assert_eq!(sum, 0);
}

#[test]
fn split_numbers_on_newline_separated_text() {
    let v = split_numbers(&String::from("3\n5")).unwrap();
    assert_eq!(v, vec![3, 5]);
}

#[test]
fn split_numbers_on_whitespace_only_text_is_empty() {
    let v = split_numbers(&String::from("   ")).unwrap();
    assert_eq!(v, Vec::<usize>::new());
}

#[test]
fn split_numbers_on_empty_text_is_empty() {
    let v = split_numbers(&String::from("")).unwrap();
    assert_eq!(v, Vec::<usize>::new());
}

#[test]
fn split_numbers_collapses_mixed_whitespace() {
    let v = split_numbers(&String::from(" \t7\n\n 8  9\r\n")).unwrap();
    assert_eq!(v, vec![7, 8, 9]);
}

#[test]
fn split_numbers_rejects_non_numeric_token() {
    let e = split_numbers(&String::from("4 a")).unwrap_err();
    assert_eq!(e.token, "a");
}

#[test]
fn split_numbers_reports_first_bad_token() {
    let e = split_numbers(&String::from("1 two 3 four")).unwrap_err();
    assert_eq!(e.token, "two");
}

#[test]
fn split_numbers_rejects_negative_number() {
    let e = split_numbers(&String::from("3 -5")).unwrap_err();
    assert_eq!(e.token, "-5");
}

#[test]
fn split_numbers_accepts_plus_sign() {
    let v = split_numbers(&String::from("+5 3")).unwrap();
    assert_eq!(v, vec![5, 3]);
}

#[test]
fn split_numbers_rejects_bare_plus() {
    let e = split_numbers(&String::from("+")).unwrap_err();
    assert_eq!(e.token, "+");
}

#[test]
fn split_numbers_accepts_max_value() {
    let v = split_numbers(&String::from("18446744073709551615")).unwrap();
    assert_eq!(v, vec![usize::MAX]);
}

#[test]
fn split_numbers_rejects_out_of_range_value() {
    let e = split_numbers(&String::from("18446744073709551616")).unwrap_err();
    assert_eq!(e.token, "18446744073709551616");
}

#[test]
fn add_numbers_is_order_independent() {
    assert_eq!(add_numbers(vec![4, 7, 2]), add_numbers(vec![2, 7, 4]));
    assert_eq!(add_numbers(vec![]), 0);
}

#[test]
fn add_numbers_checked_agrees_when_in_range() {
    assert_eq!(add_numbers_checked(&vec![3, 5]), Some(8));
    assert_eq!(add_numbers_checked(&vec![]), Some(0));
    assert_eq!(add_numbers_checked(&vec![usize::MAX]), Some(usize::MAX));
}

#[test]
fn add_numbers_checked_reports_overflow() {
    assert_eq!(add_numbers_checked(&vec![usize::MAX, 1]), None);
}

#[test]
fn usize_to_string_renders_decimal() {
    assert_eq!(usize_to_string(0), "0");
    assert_eq!(usize_to_string(10), "10");
    assert_eq!(usize_to_string(12345), "12345");
    assert_eq!(usize_to_string(usize::MAX), "18446744073709551615");
}

#[test]
fn append_sum_appends_newline_and_sum() {
    assert_eq!(append_sum("4\n6", 10), "4\n6\n10");
}

#[test]
fn append_sum_leaves_no_trailing_newline() {
    let out = append_sum("7", 7);
    assert_eq!(out, "7\n7");
    assert!(!out.ends_with('\n'));
}

#[test]
fn new_contents_runs_the_whole_pipeline() {
    let out = new_contents(&String::from("3\n5")).unwrap();
    assert_eq!(out, "3\n5\n8");
}

#[test]
fn new_contents_rerun_sums_its_own_output() {
    let once = new_contents(&String::from("3\n5")).unwrap();
    assert_eq!(once, "3\n5\n8");
    let v = split_numbers(&once).unwrap();
    assert_eq!(v, vec![3, 5, 8]);
    let twice = new_contents(&once).unwrap();
    assert_eq!(twice, "3\n5\n8\n16");
}

#[test]
fn new_contents_of_whitespace_text_appends_zero() {
    let out = new_contents(&String::from("   ")).unwrap();
    assert_eq!(out, "   \n0");
}

#[test]
fn new_contents_fails_on_non_numeric_token() {
    let e = new_contents(&String::from("3 x")).unwrap_err();
    match e {
        ProcessError::BadToken(p) => assert_eq!(p.token, "x"),
        ProcessError::SumOverflow => panic!("expected a parse failure"),
    }
}

#[test]
fn new_contents_fails_on_sum_overflow() {
    let e = new_contents(&String::from("18446744073709551615 1")).unwrap_err();
    assert!(matches!(e, ProcessError::SumOverflow));
}
