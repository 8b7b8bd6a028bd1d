use mdtodo::{parse_numbers, parse_task_ref, parse_task_ref_multi, TodoError};

#[test]
fn test_parse_task_ref() {
    let (section, num) = parse_task_ref("Today:3").unwrap();
    assert_eq!(section, "Today");
    assert_eq!(num, 3);
}

#[test]
fn test_parse_task_ref_multi() {
    let (section, nums) = parse_task_ref_multi("Today:3,1,5").unwrap();
    assert_eq!(section, "Today");
    assert_eq!(nums, vec![1, 3, 5]);
}

#[test]
fn test_parse_numbers() {
    let nums = parse_numbers("3,1,5,1").unwrap();
    assert_eq!(nums, vec![1, 3, 5]);
}

#[test]
fn parse_numbers_trims_and_accepts_plus() {
    assert_eq!(parse_numbers(" 2 ,+7,\t4").unwrap(), vec![2, 4, 7]);
}

#[test]
fn parse_numbers_rejects_bad_pieces() {
    assert_eq!(parse_numbers("1,x"), Err(TodoError::InvalidNumber));
    assert_eq!(parse_numbers(""), Err(TodoError::InvalidNumber));
    assert_eq!(parse_numbers("1,,2"), Err(TodoError::InvalidNumber));
    assert_eq!(parse_numbers("-1"), Err(TodoError::InvalidNumber));
    assert_eq!(parse_numbers("18446744073709551616"), Err(TodoError::InvalidNumber));
    assert_eq!(parse_numbers("18446744073709551615").unwrap(), vec![usize::MAX]);
}

#[test]
fn parse_task_ref_errors() {
    assert_eq!(parse_task_ref("Today3"), Err(TodoError::InvalidReference));
    assert_eq!(parse_task_ref("Today:three"), Err(TodoError::InvalidNumber));
    assert_eq!(parse_task_ref("Today: 3"), Err(TodoError::InvalidNumber));
    assert_eq!(parse_task_ref("a:b:4"), Err(TodoError::InvalidNumber));
    assert_eq!(parse_task_ref("a::4"), Err(TodoError::InvalidNumber));
    assert_eq!(parse_task_ref(":4"), Ok((String::new(), 4)));
    assert_eq!(parse_task_ref_multi("Today"), Err(TodoError::InvalidReference));
}

#[test]
fn ref_section_takes_text_before_colon() {
    assert_eq!(mdtodo::reference::ref_section("Today:1,2"), "Today");
    assert_eq!(mdtodo::reference::ref_section("a:b:c"), "a");
    assert_eq!(mdtodo::reference::ref_section("plain"), "plain");
}
