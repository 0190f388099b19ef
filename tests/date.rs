use csv_schema::date::{collect_date, find_separator, DateError};

#[test]
fn separator_is_most_frequent_candidate() {
    assert_eq!(find_separator("2021-05-01"), Some('-'));
    assert_eq!(find_separator("2021/05/01 10:00"), Some('/'));
    assert_eq!(find_separator("20210501"), None);
    assert_eq!(find_separator("May\n"), None);
}

#[test]
fn date_parts() {
    match collect_date("01.02.2003") {
        Ok([Some(a), Some(b), Some(c)]) => {
            assert_eq!(a, "01");
            assert_eq!(b, "02");
            assert_eq!(c, "2003");
        }
        other => panic!("unexpected {:?}", other),
    }
    assert!(matches!(collect_date("2021-05"), Err(DateError::UnsupportedFormat)));
    assert!(matches!(collect_date("today"), Err(DateError::UnsupportedFormat)));
}
