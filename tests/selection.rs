use youtube_downloader::selection::{choose_ordinal, parse_ordinal, Prompt, Selector};
use youtube_downloader::Error;

#[test]
fn parse_ordinal_reads_digits() {
    assert_eq!(parse_ordinal(b"2\n").unwrap(), 2);
    assert_eq!(parse_ordinal(b"  17 \r\n").unwrap(), 17);
    assert_eq!(parse_ordinal(b"0").unwrap(), 0);
    assert_eq!(parse_ordinal(b"+2\n").unwrap(), 2);
}

#[test]
fn parse_ordinal_rejects_non_numbers() {
    assert!(matches!(parse_ordinal(b""), Err(Error::InvalidSelection)));
    assert!(matches!(parse_ordinal(b"  \n"), Err(Error::InvalidSelection)));
    assert!(matches!(parse_ordinal(b"1a"), Err(Error::InvalidSelection)));
    assert!(matches!(parse_ordinal(b"-1"), Err(Error::InvalidSelection)));
    assert!(matches!(parse_ordinal(b"+"), Err(Error::InvalidSelection)));
    assert!(matches!(parse_ordinal(b"++1"), Err(Error::InvalidSelection)));
    assert!(matches!(parse_ordinal(b"+ 1"), Err(Error::InvalidSelection)));
    assert!(matches!(parse_ordinal(b"1 2"), Err(Error::InvalidSelection)));
    assert!(matches!(
        parse_ordinal(b"99999999999999999999999999"),
        Err(Error::InvalidSelection)
    ));
}

#[test]
fn choose_ordinal_checks_range() {
    assert!(matches!(choose_ordinal(b"0", 3), Err(Error::InvalidSelection)));
    assert!(matches!(choose_ordinal(b"4", 3), Err(Error::InvalidSelection)));
    assert_eq!(choose_ordinal(b"1", 3).unwrap(), 1);
    assert_eq!(choose_ordinal(b"3\n", 3).unwrap(), 3);
}

#[test]
fn selector_retries_until_bound() {
    let mut s = Selector::new(2, Some(2));
    assert_eq!(s.on_line(b"x"), Prompt::Retry);
    assert_eq!(s.on_line(b"5"), Prompt::GiveUp);
    let mut s = Selector::new(2, Some(3));
    assert_eq!(s.on_line(b"9"), Prompt::Retry);
    assert_eq!(s.on_line(b"2"), Prompt::Chosen(2));
}

#[test]
fn selector_without_bound_keeps_asking() {
    let mut s = Selector::new(1, None);
    for _ in 0..10 {
        assert_eq!(s.on_line(b"nope"), Prompt::Retry);
    }
    assert_eq!(s.attempts, 10);
    assert_eq!(s.on_line(b"1"), Prompt::Chosen(1));
}
