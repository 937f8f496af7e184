use topfew::key_finder::{ConfigError, KeyError, KeyFinder};

const TEST: &str = "92.109.155.34 - - [09/Aug/2018:11:53:26 +0200] \"GET / HTTP/2.0\" 200 3219 \"https://www.facebook.com/\" \"Mozilla/5.0 (Macintosh; Intel Mac OS X 10_13_4) AppleWebKit/537.36 (KHTML, like Gecko) Chrome/67.0.3396.99 Safari/537.36\"";

#[test]
fn key() {
    let kf = KeyFinder::new(Some(vec![1])).unwrap();
    let record = TEST.as_bytes().to_vec();
    assert_eq!(kf.key(&record).unwrap(), b"92.109.155.34".to_vec());

    let kf = KeyFinder::new(Some(vec![7])).unwrap();
    assert_eq!(kf.key(&record).unwrap(), b"/".to_vec());
}

#[test]
fn key_second_field() {
    let kf = KeyFinder::new(Some(vec![2])).unwrap();
    let record = TEST.as_bytes().to_vec();
    assert_eq!(kf.key(&record).unwrap(), b"-".to_vec());
}

#[test]
fn key_beyond_field_count() {
    let kf = KeyFinder::new(Some(vec![4])).unwrap();
    let record = b"only three fields".to_vec();
    assert!(matches!(kf.key(&record), Err(KeyError::NotEnoughFields)));
}

#[test]
fn key_preserves_request_order() {
    let kf = KeyFinder::new(Some(vec![3, 1])).unwrap();
    let record = b"alpha beta gamma delta".to_vec();
    assert_eq!(kf.key(&record).unwrap(), b"gamma alpha".to_vec());
}

#[test]
fn key_whole_line_when_unconfigured() {
    let record = b"keep the whole line".to_vec();
    let kf = KeyFinder::new(None).unwrap();
    assert_eq!(kf.key(&record).unwrap(), record);
    let kf = KeyFinder::new(Some(vec![])).unwrap();
    assert_eq!(kf.key(&record).unwrap(), record);
}

#[test]
fn key_splits_on_tabs_too() {
    let kf = KeyFinder::new(Some(vec![2])).unwrap();
    let record = b"a\tb\tc".to_vec();
    assert_eq!(kf.key(&record).unwrap(), b"b".to_vec());
}

#[test]
fn key_empty_record_has_one_empty_field() {
    let kf = KeyFinder::new(Some(vec![1])).unwrap();
    let record = Vec::new();
    assert_eq!(kf.key(&record).unwrap(), b"".to_vec());
}

#[test]
fn config_rejects_zero_index() {
    assert!(matches!(
        KeyFinder::new(Some(vec![1, 0])),
        Err(ConfigError::ZeroFieldIndex)
    ));
}

#[test]
fn config_rejects_duplicate_index() {
    assert!(matches!(
        KeyFinder::new(Some(vec![2, 5, 2])),
        Err(ConfigError::DuplicateFieldIndex)
    ));
}
