use padfoot::dates::{choose_date, display_trail_date};
use padfoot::errors::Error;

#[test]
fn in_out_test_display_trail_date() {
    assert_eq!(
        display_trail_date("D:20170712171035+01'00'").unwrap_or_else(|e| format!("{:?}", e)),
        "Wed, 12 Jul 2017 17:10:35 +0100"
    );
    assert_eq!(
        display_trail_date("D:20170711121931").unwrap_or_else(|e| format!("{:?}", e)),
        "Tue, 11 Jul 2017 12:19:31"
    );
    assert_eq!(
        display_trail_date("D:20180710153507Z00'00'").unwrap_or_else(|e| format!("{:?}", e)),
        "Tue, 10 Jul 2018 15:35:07 +0000"
    );
}

#[test]
fn mod_test_display_trail_date() {
    assert_eq!(
        display_trail_date("D:20170712171035+01'00'").unwrap_or_else(|e| format!("{:?}", e)),
        "Wed, 12 Jul 2017 17:10:35 +0100"
    );
    assert_eq!(
        display_trail_date("D:20170711121931").unwrap_or_else(|e| format!("{:?}", e)),
        "Tue, 11 Jul 2017 12:19:31"
    );
    assert_eq!(
        display_trail_date("D:20180710153507Z00'00'").unwrap_or_else(|e| format!("{:?}", e)),
        "Tue, 10 Jul 2018 15:35:07 +0000"
    );
}

#[test]
fn not_a_date() {
    assert_eq!(display_trail_date("hello"), Err(Error::BadDate));
    assert_eq!(display_trail_date(""), Err(Error::BadDate));
}

#[test]
fn first_successful_reading_wins() {
    assert_eq!(choose_date(Some("a".into()), Some("b".into())), Ok("a".to_string()));
    assert_eq!(choose_date(None, Some("b".into())), Ok("b".to_string()));
    assert_eq!(choose_date(None, None), Err(Error::BadDate));
}
