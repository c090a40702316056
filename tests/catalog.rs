use youtube_downloader::catalog::{
    catalog_from_field, extension_from, stream_from_segment, video_from_metadata,
};
use youtube_downloader::query::{encode, QueryMap};
use youtube_downloader::Error;

const FIELD: &str = "url=U1%26type=video%2Fmp4%3Bcodecs&quality=hd720,url=U2%26type=video%2Fwebm&quality=medium";

fn metadata(pairs: &[(&str, &str)]) -> Vec<u8> {
    let q = QueryMap {
        pairs: pairs
            .iter()
            .map(|(k, v)| (k.as_bytes().to_vec(), v.as_bytes().to_vec()))
            .collect(),
    };
    encode(&q)
}

#[test]
fn catalog_of_two_streams() {
    let c = catalog_from_field(FIELD.as_bytes()).unwrap();
    assert_eq!(c.len(), 2);
    assert_eq!(c.streams[0].extension, b"mp4".to_vec());
    assert_eq!(c.streams[0].url, b"U1".to_vec());
    assert_eq!(c.streams[0].quality, b"hd720".to_vec());
    assert_eq!(c.streams[0].mime_type, b"video/mp4;codecs".to_vec());
    assert_eq!(c.streams[1].extension, b"webm".to_vec());
    assert_eq!(c.streams[1].url, b"U2".to_vec());
    assert_eq!(c.streams[1].quality, b"medium".to_vec());
}

#[test]
fn select_valid_and_invalid_ordinals() {
    let c = catalog_from_field(FIELD.as_bytes()).unwrap();
    assert!(matches!(c.select(0), Err(Error::InvalidSelection)));
    assert!(matches!(c.select(3), Err(Error::InvalidSelection)));
    assert_eq!(c.select(1).unwrap(), (b"U1".to_vec(), b"mp4".to_vec()));
    assert_eq!(c.select(2).unwrap(), (b"U2".to_vec(), b"webm".to_vec()));
    assert!(c.stream(0).is_none());
    assert_eq!(c.stream(2).unwrap().quality, b"medium".to_vec());
}

#[test]
fn empty_field_has_no_streams() {
    assert!(matches!(catalog_from_field(b""), Err(Error::NoStreams)));
}

#[test]
fn segment_missing_quality_is_malformed() {
    assert!(matches!(
        stream_from_segment(b"url=U1%26type=video%2Fmp4"),
        Err(Error::MalformedStream)
    ));
    assert!(matches!(
        catalog_from_field(b"url=U1%26type=video%2Fmp4%26quality=hd,url=U2"),
        Err(Error::MalformedStream)
    ));
}

#[test]
fn segment_with_bad_escape_is_malformed() {
    assert!(matches!(stream_from_segment(b"url=%ZZ"), Err(Error::MalformedStream)));
    assert!(matches!(stream_from_segment(b"url=%2"), Err(Error::MalformedStream)));
}

#[test]
fn mime_type_without_slash_is_unrecognized() {
    assert!(matches!(
        stream_from_segment(b"url=U%26type=mp4%26quality=hd"),
        Err(Error::UnrecognizedMimeType)
    ));
}

#[test]
fn extension_is_the_subtype() {
    assert_eq!(extension_from(b"video/mp4; codecs=\"avc1\""), Some(b"mp4".to_vec()));
    assert_eq!(extension_from(b"video/webm"), Some(b"webm".to_vec()));
    assert_eq!(extension_from(b"video/x-flv/extra"), Some(b"x-flv".to_vec()));
    assert_eq!(extension_from(b"video"), None);
}

#[test]
fn metadata_with_ok_status_gives_video() {
    let raw = metadata(&[("status", "ok"), ("title", "My Clip"), ("url_encoded_fmt_stream_map", FIELD)]);
    let v = video_from_metadata(&raw).unwrap();
    assert_eq!(v.title, b"My Clip".to_vec());
    assert_eq!(v.catalog.len(), 2);
    assert_eq!(v.catalog.select(2).unwrap().1, b"webm".to_vec());
}

#[test]
fn status_not_ok_short_circuits() {
    let raw = metadata(&[("status", "fail"), ("url_encoded_fmt_stream_map", "%%%bad")]);
    assert!(matches!(video_from_metadata(&raw), Err(Error::VideoUnavailable)));
    let raw = metadata(&[("title", "x"), ("url_encoded_fmt_stream_map", FIELD)]);
    assert!(matches!(video_from_metadata(&raw), Err(Error::VideoUnavailable)));
}

#[test]
fn metadata_errors() {
    assert!(matches!(video_from_metadata(b"status=ok&title=%Q"), Err(Error::MalformedInput)));
    assert!(matches!(video_from_metadata(b"status=ok&x=1"), Err(Error::NoStreams)));
    let no_title = metadata(&[("status", "ok"), ("url_encoded_fmt_stream_map", FIELD)]);
    assert!(matches!(video_from_metadata(&no_title), Err(Error::MalformedInput)));
    let no_title_bad_stream = metadata(&[("status", "ok"), ("url_encoded_fmt_stream_map", "url=U")]);
    assert!(matches!(video_from_metadata(&no_title_bad_stream), Err(Error::MalformedStream)));
    assert!(matches!(video_from_metadata(b"status=ok&title=t"), Err(Error::NoStreams)));
    assert!(matches!(
        video_from_metadata(b"status=ok&title=t&url_encoded_fmt_stream_map="),
        Err(Error::NoStreams)
    ));
}
