use cronlist::CronError;
use cronlist::date_time_field_parser::DateTimeFieldParser;
use cronlist::stepped_range::SteppedRange;

#[test]
fn should_parse_complex_pattern() {
    let parser = DateTimeFieldParser::new(1, 12);
    assert_eq!(parser.parse_field("5-9/2,1,*/5").unwrap(), vec![1, 5, 6, 7, 9, 11]);
}

#[test]
fn date_time_field_parser_should_parse_complex_pattern() {
    let parser = DateTimeFieldParser::new(1, 12);
    assert_eq!(parser.parse_field("5-9/2,1,12,6").unwrap(), vec![1, 5, 6, 7, 9, 12]);
}

#[test]
fn should_parse_comma_separated_numbers() {
    let parser = DateTimeFieldParser::new(0, 23);
    assert_eq!(parser.parse_field("0,23").unwrap(), vec![0, 23]);
}

#[test]
fn date_time_field_parser_should_parse_comma_separated_numbers() {
    let parser = DateTimeFieldParser::new(0, 23);
    assert_eq!(parser.parse_field("0,23").unwrap(), vec![0, 23]);
}

#[test]
fn should_parse_range_with_step() {
    let parser = DateTimeFieldParser::new(0, 23);
    assert_eq!(parser.parse_list_entry("1-7/2").unwrap(), vec![1, 3, 5, 7]);
}

#[test]
fn date_time_field_parser_should_parse_range_with_step() {
    let parser = DateTimeFieldParser::new(0, 23);
    assert_eq!(parser.parse_list_entry("1-7/2").unwrap(), vec![1, 3, 5, 7]);
}

#[test]
fn should_parse_asterisk() {
    let parser = DateTimeFieldParser::new(1, 12);
    assert_eq!(parser.parse_list_entry("*/4").unwrap(), vec![1, 5, 9]);
}

#[test]
fn should_parse_january_name() {
    let parser = DateTimeFieldParser::new(1, 12);
    assert_eq!(parser.parse_list_entry("Jan").unwrap(), vec![1]);
}

#[test]
fn should_parse_february_name() {
    let parser = DateTimeFieldParser::new(1, 12);
    assert_eq!(parser.parse_list_entry("Feb").unwrap(), vec![2]);
}

#[test]
fn should_parse_march_name() {
    let parser = DateTimeFieldParser::new(1, 12);
    assert_eq!(parser.parse_list_entry("Mar").unwrap(), vec![3]);
}

#[test]
fn should_parse_april_name() {
    let parser = DateTimeFieldParser::new(1, 12);
    assert_eq!(parser.parse_list_entry("Apr").unwrap(), vec![4]);
}

#[test]
fn should_parse_may_name() {
    let parser = DateTimeFieldParser::new(1, 12);
    assert_eq!(parser.parse_list_entry("May").unwrap(), vec![5]);
}

#[test]
fn should_parse_june_name() {
    let parser = DateTimeFieldParser::new(1, 12);
    assert_eq!(parser.parse_list_entry("Jun").unwrap(), vec![6]);
}

#[test]
fn should_parse_july_name() {
    let parser = DateTimeFieldParser::new(1, 12);
    assert_eq!(parser.parse_list_entry("Jul").unwrap(), vec![7]);
}

#[test]
fn should_parse_august_name() {
    let parser = DateTimeFieldParser::new(1, 12);
    assert_eq!(parser.parse_list_entry("Aug").unwrap(), vec![8]);
}

#[test]
fn should_parse_september_name() {
    let parser = DateTimeFieldParser::new(1, 12);
    assert_eq!(parser.parse_list_entry("Sep").unwrap(), vec![9]);
}

#[test]
fn should_parse_october_name() {
    let parser = DateTimeFieldParser::new(1, 12);
    assert_eq!(parser.parse_list_entry("Oct").unwrap(), vec![10]);
}

#[test]
fn should_parse_november_name() {
    let parser = DateTimeFieldParser::new(1, 12);
    assert_eq!(parser.parse_list_entry("Nov").unwrap(), vec![11]);
}

#[test]
fn should_parse_december_name() {
    let parser = DateTimeFieldParser::new(1, 12);
    assert_eq!(parser.parse_list_entry("Dec").unwrap(), vec![12]);
}

#[test]
fn should_parse_month_name_case_insensitively() {
    let parser = DateTimeFieldParser::new(1, 12);
    assert_eq!(parser.parse_list_entry("dEC").unwrap(), vec![12]);
}

#[test]
fn should_parse_sunday_name() {
    let parser = DateTimeFieldParser::new_with_wrap_around(0, 6);
    assert_eq!(parser.parse_list_entry("Sun").unwrap(), vec![0]);
}

#[test]
fn should_parse_monday_name() {
    let parser = DateTimeFieldParser::new_with_wrap_around(0, 6);
    assert_eq!(parser.parse_list_entry("Mon").unwrap(), vec![1]);
}

#[test]
fn should_parse_tuesday_name() {
    let parser = DateTimeFieldParser::new_with_wrap_around(0, 6);
    assert_eq!(parser.parse_list_entry("Tue").unwrap(), vec![2]);
}

#[test]
fn should_parse_wednesday_name() {
    let parser = DateTimeFieldParser::new_with_wrap_around(0, 6);
    assert_eq!(parser.parse_list_entry("Wed").unwrap(), vec![3]);
}

#[test]
fn should_parse_thursday_name() {
    let parser = DateTimeFieldParser::new_with_wrap_around(0, 6);
    assert_eq!(parser.parse_list_entry("Thu").unwrap(), vec![4]);
}

#[test]
fn should_parse_friday_name() {
    let parser = DateTimeFieldParser::new_with_wrap_around(0, 6);
    assert_eq!(parser.parse_list_entry("Fri").unwrap(), vec![5]);
}

#[test]
fn should_parse_saturday_name() {
    let parser = DateTimeFieldParser::new_with_wrap_around(0, 6);
    assert_eq!(parser.parse_list_entry("Sat").unwrap(), vec![6]);
}

#[test]
fn should_parse_week_day_name_case_insensitively() {
    let parser = DateTimeFieldParser::new_with_wrap_around(0, 6);
    assert_eq!(parser.parse_list_entry("sAT").unwrap(), vec![6]);
}

#[test]
fn should_remove_duplicates() {
    let parser = DateTimeFieldParser::new(1, 2);
    assert_eq!(parser.parse_field("1,1,2,2,2").unwrap(), vec![1, 2]);
}

#[test]
fn date_time_field_parser_should_remove_duplicates() {
    let parser = DateTimeFieldParser::new(1, 2);
    assert_eq!(parser.parse_field("1,1,2,2,2").unwrap(), vec![1, 2]);
}

#[test]
fn should_sort_values() {
    let parser = DateTimeFieldParser::new(1, 2);
    assert_eq!(parser.parse_field("2,1").unwrap(), vec![1, 2]);
}

#[test]
fn date_time_field_parser_should_sort_values() {
    let parser = DateTimeFieldParser::new(1, 2);
    assert_eq!(parser.parse_field("2,1").unwrap(), vec![1, 2]);
}

#[test]
fn should_parse_wraparound_sunday() {
    let parser = DateTimeFieldParser::new_with_wrap_around(0, 6);
    assert_eq!(parser.parse_field("7").unwrap(), vec![0]);
}

#[test]
fn should_parse_week_range_with_sunday_at_end() {
    let parser = DateTimeFieldParser::new_with_wrap_around(0, 6);
    assert_eq!(parser.parse_field("4-7").unwrap(), vec![0, 4, 5, 6]);
}

#[test]
fn should_parse_week_range_with_sunday_at_both_sides() {
    let parser = DateTimeFieldParser::new_with_wrap_around(0, 6);
    assert_eq!(parser.parse_field("0-7").unwrap(), vec![0, 1, 2, 3, 4, 5, 6]);
}

#[test]
fn should_parse_range() {
    let parser = DateTimeFieldParser::new(0, 23);
    assert_eq!(parser.parse_range("1-3").unwrap(), (1, 3));
}

#[test]
fn date_time_field_parser_should_parse_range() {
    let parser = DateTimeFieldParser::new(0, 23);
    assert_eq!(parser.parse_range("1-3").unwrap(), (1, 3));
}

#[test]
fn should_verify_at_min() {
    let parser = DateTimeFieldParser::new(0, 23);
    assert!(parser.verify_range(0));
}

#[test]
fn date_time_field_parser_should_verify_at_min() {
    let parser = DateTimeFieldParser::new(0, 23);
    assert!(parser.verify_range(0));
}

#[test]
fn should_verify_between_min_and_max() {
    let parser = DateTimeFieldParser::new(0, 23);
    assert!(parser.verify_range(12));
}

#[test]
fn date_time_field_parser_should_verify_between_min_and_max() {
    let parser = DateTimeFieldParser::new(0, 23);
    assert!(parser.verify_range(12));
}

#[test]
fn should_verify_at_both_min_and_max() {
    let parser = DateTimeFieldParser::new(1, 1);
    assert!(parser.verify_range(1));
}

#[test]
fn date_time_field_parser_should_verify_at_both_min_and_max() {
    let parser = DateTimeFieldParser::new(1, 1);
    assert!(parser.verify_range(1));
}

#[test]
fn should_verify_at_max() {
    let parser = DateTimeFieldParser::new(0, 23);
    assert!(parser.verify_range(23));
}

#[test]
fn date_time_field_parser_should_verify_at_max() {
    let parser = DateTimeFieldParser::new(0, 23);
    assert!(parser.verify_range(23));
}

#[test]
fn should_reject_value_below_min() {
    let parser = DateTimeFieldParser::new(1, 12);
    assert!(!parser.verify_range(0));
    assert_eq!(parser.parse_field("0"), Err(CronError::OutOfDomain));
}

#[test]
fn should_reject_value_above_max_without_wraparound() {
    let parser = DateTimeFieldParser::new(0, 23);
    assert!(!parser.verify_range(24));
    assert_eq!(parser.parse_field("24"), Err(CronError::OutOfDomain));
}

#[test]
fn should_accept_domain_bounds() {
    let parser = DateTimeFieldParser::new(0, 59);
    assert_eq!(parser.parse_field("0").unwrap(), vec![0]);
    assert_eq!(parser.parse_field("59").unwrap(), vec![59]);
}

#[test]
fn should_parse_same_field_twice_identically() {
    let parser = DateTimeFieldParser::new(0, 59);
    assert_eq!(parser.parse_field("5-20/3,7"), parser.parse_field("5-20/3,7"));
}

#[test]
fn should_treat_wildcard_as_whole_domain_range() {
    let parser = DateTimeFieldParser::new(1, 12);
    assert_eq!(parser.parse_field("*"), parser.parse_field("1-12"));
    assert_eq!(parser.parse_field("*").unwrap(), vec![1, 2, 3, 4, 5, 6, 7, 8, 9, 10, 11, 12]);
}

#[test]
fn should_treat_name_as_its_number() {
    let parser = DateTimeFieldParser::new(1, 12);
    assert_eq!(parser.parse_field("Jan"), parser.parse_field("1"));
    assert_eq!(parser.parse_field("dEC"), parser.parse_field("12"));
}

#[test]
fn should_parse_stepped_range_within_wide_domain() {
    let parser = DateTimeFieldParser::new(0, 23);
    assert_eq!(parser.parse_field("1-7/2").unwrap(), vec![1, 3, 5, 7]);
}

#[test]
fn should_fail_on_unparsable_number() {
    let parser = DateTimeFieldParser::new(0, 59);
    assert_eq!(parser.parse_field("abcd"), Err(CronError::MalformedField));
    assert_eq!(parser.parse_field(""), Err(CronError::MalformedField));
    assert_eq!(parser.parse_field("300"), Err(CronError::MalformedField));
}

#[test]
fn should_fail_on_empty_range() {
    let parser = DateTimeFieldParser::new(0, 59);
    assert_eq!(parser.parse_field("9-5"), Err(CronError::MalformedField));
}

#[test]
fn should_fail_on_step_of_zero() {
    let parser = DateTimeFieldParser::new(0, 59);
    assert_eq!(parser.parse_field("1-5/0"), Err(CronError::InvalidStep));
}

#[test]
fn should_fail_whole_field_on_one_bad_entry() {
    let parser = DateTimeFieldParser::new(0, 59);
    assert_eq!(parser.parse_field("1,2,x,4"), Err(CronError::MalformedField));
}

#[test]
fn should_return_none_for_empty_range() {
    let mut range = SteppedRange::new(0, 0, 1).unwrap();
    assert_eq!(range.next(), None);
}

#[test]
fn should_return_one_item_for_trivial_range() {
    let mut range = SteppedRange::new(0, 1, 1).unwrap();
    assert_eq!(range.next(), Some(0));
    assert_eq!(range.next(), None);
}

#[test]
fn should_refuse_step_of_zero_eagerly() {
    assert!(matches!(SteppedRange::new(0, 0, 0), Err(CronError::InvalidStep)));
}

#[test]
fn should_step_through_progression() {
    let mut range = SteppedRange::new(3, 10, 3).unwrap();
    assert_eq!(range.next(), Some(3));
    assert_eq!(range.next(), Some(6));
    assert_eq!(range.next(), Some(9));
    assert_eq!(range.next(), None);
}
