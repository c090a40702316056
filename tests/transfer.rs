use youtube_downloader::transfer::{
    destination_name, expected_size, Transfer, TransferAction, TransferEvent, CHUNK_SIZE,
};

/// Copies `body` through a buffer of `chunk` bytes, driven by the transfer's
/// decisions; gives what was written and the final action.
fn copy_body(body: &[u8], chunk: usize, size_header: Option<u64>) -> (Vec<u8>, TransferAction, (u64, u64)) {
    let mut t = Transfer::new(expected_size(size_header));
    let mut out = Vec::new();
    let mut pos = 0;
    loop {
        let n = std::cmp::min(chunk, body.len() - pos);
        match t.on_event(TransferEvent::Read(n)) {
            TransferAction::Write(len) => {
                out.extend_from_slice(&body[pos..pos + len]);
                pos += len;
            }
            done => return (out, done, t.progress()),
        }
    }
}

#[test]
fn transfer_writes_every_byte() {
    let body: Vec<u8> = (0..1000u32).map(|i| (i % 251) as u8).collect();
    for chunk in [1usize, 7, 100, 1000, 4096] {
        let (out, done, progress) = copy_body(&body, chunk, Some(1000));
        assert_eq!(out, body);
        assert_eq!(done, TransferAction::Complete(1000));
        assert_eq!(progress, (1000, 1000));
    }
}

#[test]
fn transfer_of_empty_body() {
    let (out, done, progress) = copy_body(&[], CHUNK_SIZE, Some(0));
    assert!(out.is_empty());
    assert_eq!(done, TransferAction::Complete(0));
    assert_eq!(progress, (0, 0));
}

#[test]
fn transfer_without_size_header() {
    let body = vec![7u8; CHUNK_SIZE * 2 + 5];
    let (out, done, progress) = copy_body(&body, CHUNK_SIZE, None);
    assert_eq!(out.len(), body.len());
    assert_eq!(done, TransferAction::Complete(body.len() as u64));
    assert_eq!(progress, (body.len() as u64, 0));
}

#[test]
fn transfer_failures_abort() {
    let mut t = Transfer::new(10);
    assert_eq!(t.on_event(TransferEvent::Read(4)), TransferAction::Write(4));
    assert_eq!(t.on_event(TransferEvent::ReadFailed), TransferAction::Abort);
    assert_eq!(t.on_event(TransferEvent::Read(1)), TransferAction::Abort);
    assert_eq!(t.progress(), (4, 10));
    let mut t = Transfer::new(0);
    assert_eq!(t.on_event(TransferEvent::WriteFailed), TransferAction::Abort);
}

#[test]
fn expected_size_defaults_to_zero() {
    assert_eq!(expected_size(Some(12345)), 12345);
    assert_eq!(expected_size(None), 0);
}

#[test]
fn destination_is_title_dot_extension() {
    assert_eq!(destination_name(b"My Clip", b"mp4"), b"My Clip.mp4".to_vec());
    assert_eq!(destination_name(b"", b"webm"), b".webm".to_vec());
}

#[test]
fn transfer_with_reads_of_uneven_sizes() {
    let body: Vec<u8> = (0..5000u32).map(|i| (i * 7 % 256) as u8).collect();
    let sizes = [1usize, 4096, 3, 900, CHUNK_SIZE];
    let mut t = Transfer::new(0);
    let mut out = Vec::new();
    let mut pos = 0;
    let mut k = 0;
    loop {
        let n = std::cmp::min(sizes[k % sizes.len()], body.len() - pos);
        k += 1;
        match t.on_event(TransferEvent::Read(n)) {
            TransferAction::Write(len) => {
                assert_eq!(len, n);
                out.extend_from_slice(&body[pos..pos + len]);
                pos += len;
            }
            done => {
                assert_eq!(done, TransferAction::Complete(5000));
                break;
            }
        }
    }
    assert_eq!(out, body);
    assert_eq!(t.progress(), (5000, 0));
}
