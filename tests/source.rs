use youtube_downloader::source::{id_from_capture, info_url, video_id};

#[test]
fn video_id_from_watch_url() {
    assert_eq!(video_id(b"https://www.youtube.com/watch?v=dQw4w9WgXcQ&t=10"), b"dQw4w9WgXcQ".to_vec());
    assert_eq!(video_id(b"https://youtu.be/abc123"), b"abc123".to_vec());
    assert_eq!(video_id(b"http://www.youtube.com/embed/XyZ?rel=0"), b"XyZ".to_vec());
}

#[test]
fn video_id_kept_when_not_url() {
    assert_eq!(video_id(b"dQw4w9WgXcQ"), b"dQw4w9WgXcQ".to_vec());
}

#[test]
fn id_from_capture_prefers_capture() {
    assert_eq!(id_from_capture(b"arg", Some(b"id".to_vec())), b"id".to_vec());
    assert_eq!(id_from_capture(b"arg", None), b"arg".to_vec());
}

#[test]
fn info_url_appends_id() {
    assert_eq!(
        info_url(b"abc"),
        b"https://youtube.com/get_video_info?video_id=abc".to_vec()
    );
}
