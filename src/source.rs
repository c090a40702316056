use vstd::prelude::*;
use vstd::string::StringSliceAdditionalSpecFns;

verus! {

/// The shapes of a watch-page or share URL that carry a video identifier, with
/// the identifier as the first capture group.
pub const WATCH_URL_PATTERN: &'static str =
    r"^.*(?:(?:youtu\.be/|v/|vi/|u/w/|embed/)|(?:(?:watch)?\?v(?:i)?=|\&v(?:i)?=))([^#\&\?]*).*";

/// The bytes of the first capture group of the leftmost-first match of a
/// pattern in a text; `None` where the pattern does not compile, does not
/// match, or the group takes no part in the match.
pub uninterp spec fn regex_group_one(pattern: Seq<char>, text: Seq<u8>) -> Option<Seq<u8>>;

/// Relies on `regex::bytes::Regex::new`, `Regex::captures` and
/// `Captures::get`: what they give depends on the pattern and the text alone.
#[verifier::external_body]
fn first_group(pattern: &str, text: &[u8]) -> (r: Option<Vec<u8>>)
    ensures
        match r {
            Some(g) => regex_group_one(pattern@, text@) == Some(g@),
            None => regex_group_one(pattern@, text@) is None,
        },
{
    let re = regex::bytes::Regex::new(pattern).ok()?;
    let caps = re.captures(text)?;
    caps.get(1).map(|m| m.as_bytes().to_vec())
}

/// The video identifier, given what the URL pattern captured in `arg`: the
/// capture where there is one, else `arg` itself.
pub fn id_from_capture(arg: &[u8], capture: Option<Vec<u8>>) -> (r: Vec<u8>)
    ensures
        r@ == match capture {
            Some(g) => g@,
            None => arg@,
        },
{
    match capture {
        Some(g) => g,
        None => {
            let mut r: Vec<u8> = Vec::new();
            let mut i: usize = 0;
            while i < arg.len()
                invariant
                    i <= arg@.len(),
                    r@ == arg@.subrange(0, i as int),
                decreases arg.len() - i,
            {
                r.push(arg[i]);
                i = i + 1;
                assert(r@ =~= arg@.subrange(0, i as int));
            }
            assert(arg@.subrange(0, arg@.len() as int) =~= arg@);
            r
        },
    }
}

/// The video identifier that a command-line argument names: the identifier
/// inside a watch-page URL, or the argument itself where it is no such URL.
pub fn video_id(arg: &[u8]) -> (r: Vec<u8>)
    ensures
        r@ == match regex_group_one(WATCH_URL_PATTERN@, arg@) {
            Some(g) => g,
            None => arg@,
        },
{
    id_from_capture(arg, first_group(WATCH_URL_PATTERN, arg))
}

/// The address of the info endpoint.
pub const INFO_URL_PREFIX: &'static str = "https://youtube.com/get_video_info?video_id=";

/// The info endpoint's address for a video identifier.
pub fn info_url(id: &[u8]) -> (r: Vec<u8>)
    requires
        INFO_URL_PREFIX.spec_bytes().len() + id@.len() <= usize::MAX,
    ensures
        r@ == INFO_URL_PREFIX.spec_bytes() + id@,
{
    let prefix = INFO_URL_PREFIX.as_bytes();
    let mut r: Vec<u8> = Vec::new();
    let mut i: usize = 0;
    while i < prefix.len()
        invariant
            i <= prefix@.len(),
            prefix@ == INFO_URL_PREFIX.spec_bytes(),
            r@ == prefix@.subrange(0, i as int),
        decreases prefix.len() - i,
    {
        r.push(prefix[i]);
        i = i + 1;
        assert(r@ =~= prefix@.subrange(0, i as int));
    }
    assert(prefix@.subrange(0, prefix@.len() as int) =~= prefix@);
    let mut j: usize = 0;
    while j < id.len()
        invariant
            j <= id@.len(),
            prefix@.len() + id@.len() <= usize::MAX,
            r@ == prefix@ + id@.subrange(0, j as int),
        decreases id.len() - j,
    {
        r.push(id[j]);
        j = j + 1;
        assert(r@ =~= prefix@ + id@.subrange(0, j as int));
    }
    assert(id@.subrange(0, id@.len() as int) =~= id@);
    r
}

} // verus!
