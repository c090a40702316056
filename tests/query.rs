use youtube_downloader::query::{decode, encode, QueryMap};
use youtube_downloader::Error;

fn lookup(q: &QueryMap, key: &str) -> Option<String> {
    q.get(key.as_bytes()).map(|v| String::from_utf8(v).unwrap())
}

#[test]
fn decode_empty_is_empty() {
    let q = decode(b"").unwrap();
    assert_eq!(q.len(), 0);
    assert_eq!(lookup(&q, "a"), None);
}

#[test]
fn decode_two_pairs() {
    let q = decode(b"a=1&b=2").unwrap();
    assert_eq!(q.len(), 2);
    assert_eq!(lookup(&q, "a"), Some("1".to_string()));
    assert_eq!(lookup(&q, "b"), Some("2".to_string()));
    assert_eq!(lookup(&q, "c"), None);
}

#[test]
fn decode_last_value_wins() {
    let q = decode(b"a=1&a=2").unwrap();
    assert_eq!(lookup(&q, "a"), Some("2".to_string()));
}

#[test]
fn decode_escapes_and_plus() {
    let q = decode(b"t=video%2Fmp4%3B+codecs&k%3D=x%3dy").unwrap();
    assert_eq!(lookup(&q, "t"), Some("video/mp4; codecs".to_string()));
    assert_eq!(lookup(&q, "k="), Some("x=y".to_string()));
}

#[test]
fn decode_bare_key_and_empty_pieces() {
    let q = decode(b"&flag&&x=1=2&").unwrap();
    assert_eq!(q.len(), 2);
    assert_eq!(lookup(&q, "flag"), Some(String::new()));
    assert_eq!(lookup(&q, "x"), Some("1=2".to_string()));
}

#[test]
fn decode_rejects_bad_escape() {
    assert!(matches!(decode(b"a=%G1"), Err(Error::MalformedInput)));
    assert!(matches!(decode(b"a=1&b=%4"), Err(Error::MalformedInput)));
    assert!(matches!(decode(b"%"), Err(Error::MalformedInput)));
}

#[test]
fn encode_escapes_reserved_bytes() {
    let q = QueryMap {
        pairs: vec![
            (b"a b".to_vec(), b"x&y=z/+".to_vec()),
            (b"n".to_vec(), b"A-z.0_*".to_vec()),
        ],
    };
    assert_eq!(encode(&q), b"a+b=x%26y%3Dz%2F%2B&n=A-z.0_*".to_vec());
}

#[test]
fn decode_then_reencode_keeps_pairs() {
    let raw: &[u8] = b"title=Hello+World&x=%E2%9C%93&a=1&a=2&empty=";
    let q = decode(raw).unwrap();
    let again = decode(&encode(&q)).unwrap();
    assert_eq!(again.pairs, q.pairs);
    for key in ["title", "x", "a", "empty"] {
        assert_eq!(lookup(&again, key), lookup(&q, key));
    }
    assert_eq!(lookup(&again, "title"), Some("Hello World".to_string()));
    assert_eq!(lookup(&again, "x"), Some("\u{2713}".to_string()));
    assert_eq!(lookup(&again, "a"), Some("2".to_string()));
}

#[test]
fn encode_of_no_pairs_is_empty() {
    let q = QueryMap { pairs: Vec::new() };
    assert_eq!(encode(&q), Vec::<u8>::new());
    assert_eq!(decode(&encode(&q)).unwrap().len(), 0);
}
