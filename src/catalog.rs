use vstd::prelude::*;

use crate::query::{
    bytes_equal, bytes_view, copy_range, decode, decoded_query, percent_decode_range,
    percent_decoded, split, split_bytes,
};
use crate::Error;

verus! {

/// `,`, which separates the stream descriptors.
pub const COMMA: u8 = 44;

/// `/`, which separates a MIME type from its subtype.
pub const SLASH: u8 = 47;

/// `;`, which opens the parameters of a MIME type.
pub const SEMICOLON: u8 = 59;

pub open spec fn url_key() -> Seq<u8> {
    seq![117u8, 114, 108]
}

pub open spec fn type_key() -> Seq<u8> {
    seq![116u8, 121, 112, 101]
}

pub open spec fn quality_key() -> Seq<u8> {
    seq![113u8, 117, 97, 108, 105, 116, 121]
}

pub open spec fn status_key() -> Seq<u8> {
    seq![115u8, 116, 97, 116, 117, 115]
}

pub open spec fn ok_value() -> Seq<u8> {
    seq![111u8, 107]
}

pub open spec fn title_key() -> Seq<u8> {
    seq![116u8, 105, 116, 108, 101]
}

/// `url_encoded_fmt_stream_map`.
pub open spec fn stream_map_key() -> Seq<u8> {
    seq![
        117u8, 114, 108, 95, 101, 110, 99, 111, 100, 101, 100, 95, 102, 109, 116, 95, 115, 116,
        114, 101, 97, 109, 95, 109, 97, 112,
    ]
}

/// The position of the first byte at or after `i` that is `a` or `b`, or
/// `s.len()`.
pub open spec fn first_of(s: Seq<u8>, a: u8, b: u8, i: int) -> int
    decreases s.len() - i,
{
    if i >= s.len() {
        s.len() as int
    } else if s[i] == a || s[i] == b {
        i
    } else {
        first_of(s, a, b, i + 1)
    }
}

/// The file extension of a MIME type: its subtype, after the first `/` and up
/// to the next `;` or `/`; `None` where there is no `/`.
pub open spec fn extension_of(t: Seq<u8>) -> Option<Seq<u8>> {
    let i = first_of(t, SLASH, SLASH, 0);
    if i >= t.len() {
        None
    } else {
        let rest = t.subrange(i + 1, t.len() as int);
        Some(rest.subrange(0, first_of(rest, SEMICOLON, SLASH, 0)))
    }
}

/// What a stream descriptor holds.
pub struct StreamView {
    pub url: Seq<u8>,
    pub mime_type: Seq<u8>,
    pub quality: Seq<u8>,
    pub extension: Seq<u8>,
}

/// The stream that one comma-separated segment describes. The segment is
/// percent-decoded, and what comes out is decoded as a query string.
pub open spec fn stream_of(seg: Seq<u8>) -> Result<StreamView, Error> {
    match percent_decoded(seg) {
        None => Err(Error::MalformedStream),
        Some(inner) => match decoded_query(inner) {
            None => Err(Error::MalformedStream),
            Some(m) => if !m.contains_key(url_key()) || !m.contains_key(type_key())
                || !m.contains_key(quality_key()) {
                Err(Error::MalformedStream)
            } else {
                match extension_of(m[type_key()]) {
                    None => Err(Error::UnrecognizedMimeType),
                    Some(ext) => Ok(
                        StreamView {
                            url: m[url_key()],
                            mime_type: m[type_key()],
                            quality: m[quality_key()],
                            extension: ext,
                        },
                    ),
                }
            },
        },
    }
}

/// The streams of a list of segments in order; the first failing segment
/// decides the error.
pub open spec fn streams_of(segs: Seq<Seq<u8>>) -> Result<Seq<StreamView>, Error>
    decreases segs.len(),
{
    if segs.len() == 0 {
        Ok(Seq::<StreamView>::empty())
    } else {
        match streams_of(segs.drop_last()) {
            Err(e) => Err(e),
            Ok(acc) => match stream_of(segs.last()) {
                Err(e) => Err(e),
                Ok(s) => Ok(acc.push(s)),
            },
        }
    }
}

/// The streams that the value of the stream-map field lists.
pub open spec fn catalog_of(field: Seq<u8>) -> Result<Seq<StreamView>, Error> {
    if field.len() == 0 {
        Err(Error::NoStreams)
    } else {
        streams_of(split(field, COMMA))
    }
}

/// One encoded variant of the video.
pub struct Stream {
    pub url: Vec<u8>,
    pub mime_type: Vec<u8>,
    pub quality: Vec<u8>,
    pub extension: Vec<u8>,
}

impl View for Stream {
    type V = StreamView;

    open spec fn view(&self) -> StreamView {
        StreamView {
            url: self.url@,
            mime_type: self.mime_type@,
            quality: self.quality@,
            extension: self.extension@,
        }
    }
}

pub open spec fn stream_view(s: Stream) -> StreamView {
    s@
}

/// The streams of a video, in the order of the metadata; the stream at index
/// `i` has the ordinal `i + 1`.
pub struct Catalog {
    pub streams: Vec<Stream>,
}

impl View for Catalog {
    type V = Seq<StreamView>;

    open spec fn view(&self) -> Seq<StreamView> {
        self.streams@.map_values(|s: Stream| stream_view(s))
    }
}


fn url_key_bytes() -> (r: Vec<u8>)
    ensures
        r@ == url_key(),
{
    let r: Vec<u8> = vec![117u8, 114, 108];
    assert(r@ =~= url_key());
    r
}

fn type_key_bytes() -> (r: Vec<u8>)
    ensures
        r@ == type_key(),
{
    let r: Vec<u8> = vec![116u8, 121, 112, 101];
    assert(r@ =~= type_key());
    r
}

fn quality_key_bytes() -> (r: Vec<u8>)
    ensures
        r@ == quality_key(),
{
    let r: Vec<u8> = vec![113u8, 117, 97, 108, 105, 116, 121];
    assert(r@ =~= quality_key());
    r
}

fn status_key_bytes() -> (r: Vec<u8>)
    ensures
        r@ == status_key(),
{
    let r: Vec<u8> = vec![115u8, 116, 97, 116, 117, 115];
    assert(r@ =~= status_key());
    r
}

fn ok_value_bytes() -> (r: Vec<u8>)
    ensures
        r@ == ok_value(),
{
    let r: Vec<u8> = vec![111u8, 107];
    assert(r@ =~= ok_value());
    r
}

fn title_key_bytes() -> (r: Vec<u8>)
    ensures
        r@ == title_key(),
{
    let r: Vec<u8> = vec![116u8, 105, 116, 108, 101];
    assert(r@ =~= title_key());
    r
}

fn stream_map_key_bytes() -> (r: Vec<u8>)
    ensures
        r@ == stream_map_key(),
{
    let r: Vec<u8> = vec![
        117u8, 114, 108, 95, 101, 110, 99, 111, 100, 101, 100, 95, 102, 109, 116, 95, 115, 116,
        114, 101, 97, 109, 95, 109, 97, 112,
    ];
    assert(r@ =~= stream_map_key());
    r
}

fn first_of_from(s: &[u8], a: u8, b: u8, start: usize) -> (r: usize)
    requires
        start <= s@.len(),
    ensures
        r == first_of(s@, a, b, start as int),
        start <= r <= s@.len(),
{
    let mut i: usize = start;
    while i < s.len() && s[i] != a && s[i] != b
        invariant
            start <= i <= s@.len(),
            first_of(s@, a, b, i as int) == first_of(s@, a, b, start as int),
        decreases s.len() - i,
    {
        i = i + 1;
    }
    i
}

/// `first_of` on a suffix of `s`, counted from the start of that suffix.
proof fn lemma_first_of_shift(s: Seq<u8>, a: u8, b: u8, off: int, i: int)
    requires
        0 <= off <= s.len(),
        0 <= i <= s.len() - off,
    ensures
        first_of(s.subrange(off, s.len() as int), a, b, i) + off == first_of(s, a, b, i + off),
    decreases s.len() - off - i,
{
    if i < s.len() - off {
        lemma_first_of_shift(s, a, b, off, i + 1);
    }
}

/// The file extension of the MIME type `t`: its subtype without parameters.
pub fn extension_from(t: &[u8]) -> (r: Option<Vec<u8>>)
    ensures
        match r {
            Some(e) => extension_of(t@) == Some(e@),
            None => extension_of(t@) is None,
        },
{
    let i = first_of_from(t, SLASH, SLASH, 0);
    if i >= t.len() {
        return None;
    }
    let j = first_of_from(t, SEMICOLON, SLASH, i + 1);
    proof {
        lemma_first_of_shift(t@, SEMICOLON, SLASH, i + 1, 0);
        let rest = t@.subrange(i + 1, t@.len() as int);
        assert(rest.subrange(0, j - i - 1) =~= t@.subrange(i + 1, j as int));
    }
    Some(copy_range(t, i + 1, j))
}

/// Builds the stream that one segment of the stream-map field describes.
pub fn stream_from_segment(seg: &[u8]) -> (r: Result<Stream, Error>)
    ensures
        match r {
            Ok(s) => stream_of(seg@) == Ok::<StreamView, Error>(s@),
            Err(e) => stream_of(seg@) == Err::<StreamView, Error>(e),
        },
{
    let inner = match percent_decode_range(seg, 0, seg.len()) {
        Some(v) => v,
        None => {
            assert(seg@.subrange(0, seg@.len() as int) =~= seg@);
            return Err(Error::MalformedStream);
        },
    };
    assert(seg@.subrange(0, seg@.len() as int) =~= seg@);
    let q = match decode(inner.as_slice()) {
        Ok(q) => q,
        Err(_) => {
            return Err(Error::MalformedStream);
        },
    };
    let url = q.get(url_key_bytes().as_slice());
    let mime_type = q.get(type_key_bytes().as_slice());
    let quality = q.get(quality_key_bytes().as_slice());
    match (url, mime_type, quality) {
        (Some(url), Some(mime_type), Some(quality)) => match extension_from(mime_type.as_slice()) {
            Some(extension) => Ok(Stream { url, mime_type, quality, extension }),
            None => Err(Error::UnrecognizedMimeType),
        },
        _ => Err(Error::MalformedStream),
    }
}

/// A failure among the first `j` segments is the failure of all of them.
proof fn lemma_streams_fail_extends(segs: Seq<Seq<u8>>, j: int)
    requires
        0 <= j <= segs.len(),
        streams_of(segs.subrange(0, j)) is Err,
    ensures
        streams_of(segs) == streams_of(segs.subrange(0, j)),
    decreases segs.len() - j,
{
    if j < segs.len() {
        assert(segs.subrange(0, j + 1).drop_last() =~= segs.subrange(0, j));
        lemma_streams_fail_extends(segs, j + 1);
    } else {
        assert(segs.subrange(0, j) =~= segs);
    }
}

/// Builds the catalog from the value of the stream-map field: one stream per
/// comma-separated segment, in order.
pub fn catalog_from_field(field: &[u8]) -> (r: Result<Catalog, Error>)
    ensures
        match r {
            Ok(c) => catalog_of(field@) == Ok::<Seq<StreamView>, Error>(c@),
            Err(e) => catalog_of(field@) == Err::<Seq<StreamView>, Error>(e),
        },
{
    if field.len() == 0 {
        return Err(Error::NoStreams);
    }
    let segs = split_bytes(field, COMMA);
    let ghost ss = split(field@, COMMA);
    let mut streams: Vec<Stream> = Vec::new();
    let mut j: usize = 0;
    assert(ss.subrange(0, 0) =~= Seq::<Seq<u8>>::empty());
    assert(streams@.map_values(|s: Stream| stream_view(s)) =~= Seq::<StreamView>::empty());
    while j < segs.len()
        invariant
            j <= segs@.len(),
            field@.len() > 0,
            ss == split(field@, COMMA),
            segs@.map_values(|v: Vec<u8>| bytes_view(v)) == ss,
            streams_of(ss.subrange(0, j as int)) == Ok::<Seq<StreamView>, Error>(
                streams@.map_values(|s: Stream| stream_view(s)),
            ),
        decreases segs.len() - j,
    {
        let seg = &segs[j];
        assert(ss[j as int] == seg@);
        assert(ss.subrange(0, j + 1).drop_last() =~= ss.subrange(0, j as int));
        match stream_from_segment(seg.as_slice()) {
            Ok(s) => {
                let ghost before = streams@;
                streams.push(s);
                assert(streams@.map_values(|s: Stream| stream_view(s)) =~= before.map_values(
                    |s: Stream| stream_view(s),
                ).push(s@));
            },
            Err(e) => {
                proof {
                    assert(ss.subrange(0, j + 1).last() == seg@);
                    assert(streams_of(ss.subrange(0, j + 1)) == Err::<Seq<StreamView>, Error>(e));
                    lemma_streams_fail_extends(ss, j + 1);
                }
                return Err(e);
            },
        }
        j = j + 1;
    }
    assert(ss.subrange(0, ss.len() as int) =~= ss);
    Ok(Catalog { streams })
}


/// The title and the streams that the metadata describes.
pub struct VideoView {
    pub title: Seq<u8>,
    pub streams: Seq<StreamView>,
}

/// What the info endpoint's query string says: the streams are looked at only
/// once the string decodes and its `status` is `ok`; the title, which only
/// names the file, is asked for once the catalog is built.
pub open spec fn video_of(raw: Seq<u8>) -> Result<VideoView, Error> {
    match decoded_query(raw) {
        None => Err(Error::MalformedInput),
        Some(m) => if !m.contains_key(status_key()) || m[status_key()] != ok_value() {
            Err(Error::VideoUnavailable)
        } else if !m.contains_key(stream_map_key()) {
            Err(Error::NoStreams)
        } else {
            match catalog_of(m[stream_map_key()]) {
                Err(e) => Err(e),
                Ok(streams) => if !m.contains_key(title_key()) {
                    Err(Error::MalformedInput)
                } else {
                    Ok(VideoView { title: m[title_key()], streams })
                },
            }
        },
    }
}

/// A video ready for a stream to be chosen.
pub struct Video {
    pub title: Vec<u8>,
    pub catalog: Catalog,
}

impl View for Video {
    type V = VideoView;

    open spec fn view(&self) -> VideoView {
        VideoView { title: self.title@, streams: self.catalog@ }
    }
}

/// Reads the info endpoint's query string: its title and its catalog.
pub fn video_from_metadata(raw: &[u8]) -> (r: Result<Video, Error>)
    ensures
        match r {
            Ok(v) => video_of(raw@) == Ok::<VideoView, Error>(v@),
            Err(e) => video_of(raw@) == Err::<VideoView, Error>(e),
        },
{
    let q = match decode(raw) {
        Ok(q) => q,
        Err(_) => {
            return Err(Error::MalformedInput);
        },
    };
    let ok = ok_value_bytes();
    match q.get(status_key_bytes().as_slice()) {
        Some(status) => {
            if !bytes_equal(status.as_slice(), ok.as_slice()) {
                return Err(Error::VideoUnavailable);
            }
        },
        None => {
            return Err(Error::VideoUnavailable);
        },
    }
    let field = match q.get(stream_map_key_bytes().as_slice()) {
        Some(f) => f,
        None => {
            return Err(Error::NoStreams);
        },
    };
    let catalog = match catalog_from_field(field.as_slice()) {
        Ok(c) => c,
        Err(e) => {
            return Err(e);
        },
    };
    match q.get(title_key_bytes().as_slice()) {
        Some(title) => Ok(Video { title, catalog }),
        None => Err(Error::MalformedInput),
    }
}

/// Metadata whose `status` is missing or not `ok` is refused as unavailable,
/// whatever its streams: the catalog is not built.
pub proof fn lemma_unavailable_before_streams(raw: Seq<u8>)
    requires
        decoded_query(raw) is Some,
        !decoded_query(raw).unwrap().contains_key(status_key()) || decoded_query(
            raw,
        ).unwrap()[status_key()] != ok_value(),
    ensures
        video_of(raw) == Err::<VideoView, Error>(Error::VideoUnavailable),
{
}

impl Catalog {
    /// The number of streams; the ordinals run from 1 to this.
    pub fn len(&self) -> (r: usize)
        ensures
            r == self@.len(),
    {
        self.streams.len()
    }

    /// The stream with the given 1-based ordinal.
    pub fn stream(&self, ordinal: usize) -> (r: Option<&Stream>)
        ensures
            match r {
                Some(s) => 1 <= ordinal <= self@.len() && s@ == self@[ordinal - 1],
                None => ordinal < 1 || ordinal > self@.len(),
            },
    {
        if ordinal >= 1 && ordinal <= self.streams.len() {
            Some(&self.streams[ordinal - 1])
        } else {
            None
        }
    }

    /// The download URL and the file extension of the stream with the given
    /// 1-based ordinal; `InvalidSelection` outside `1..=len`.
    pub fn select(&self, ordinal: usize) -> (r: Result<(Vec<u8>, Vec<u8>), Error>)
        ensures
            match r {
                Ok((url, ext)) => 1 <= ordinal <= self@.len() && url@ == self@[ordinal - 1].url
                    && ext@ == self@[ordinal - 1].extension,
                Err(e) => e == Error::InvalidSelection && (ordinal < 1 || ordinal > self@.len()),
            },
    {
        if ordinal >= 1 && ordinal <= self.streams.len() {
            let s = &self.streams[ordinal - 1];
            Ok(
                (
                    copy_range(s.url.as_slice(), 0, s.url.len()),
                    copy_range(s.extension.as_slice(), 0, s.extension.len()),
                ),
            )
        } else {
            Err(Error::InvalidSelection)
        }
    }
}

} // verus!
