use timelog::{fmt_option_title_pad, fmt_str_title_pad};

#[test]
fn option_pad_present_and_absent() {
    assert_eq!(fmt_option_title_pad(&Some("value".to_string()), "Goal:", 8), "Goal:   value");
    assert_eq!(fmt_option_title_pad(&None, "Stop Time:", 12), "Stop Time:  --");
}

#[test]
fn str_pad_single_and_multi_line() {
    assert_eq!(fmt_str_title_pad("one", "Goal:", 8), "Goal:   one");
    assert_eq!(fmt_str_title_pad("a\nb", "Goal:", 8), "Goal:   a\n        b");
    assert_eq!(fmt_str_title_pad("", "Result:", 8), "Result: ");
    assert_eq!(fmt_str_title_pad("ends\n", "Note:", 6), "Note: ends");
}
