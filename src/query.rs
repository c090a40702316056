use vstd::prelude::*;

use crate::Error;

verus! {

/// `&`, which separates the pairs of a query string.
pub const AMPERSAND: u8 = 38;

/// `=`, which separates a key from its value.
pub const EQUALS: u8 = 61;

/// `%`, which opens a two-digit escape.
pub const PERCENT: u8 = 37;

/// `+`, which stands for a space.
pub const PLUS: u8 = 43;

/// The space byte.
pub const SPACE: u8 = 32;

/// Splits `s` at every `sep`, as `str::split` does: `n` separators give
/// `n + 1` pieces, and the empty sequence gives one empty piece.
pub open spec fn split(s: Seq<u8>, sep: u8) -> Seq<Seq<u8>>
    decreases s.len(),
{
    if s.len() == 0 {
        seq![Seq::<u8>::empty()]
    } else {
        let prev = split(s.drop_last(), sep);
        if s.last() == sep {
            prev.push(Seq::<u8>::empty())
        } else {
            prev.update(prev.len() - 1, prev.last().push(s.last()))
        }
    }
}

pub open spec fn is_hex_digit(c: u8) -> bool {
    (48 <= c <= 57) || (65 <= c <= 70) || (97 <= c <= 102)
}

pub open spec fn hex_value(c: u8) -> int {
    if 48 <= c <= 57 {
        c - 48
    } else if 65 <= c <= 70 {
        c - 55
    } else {
        c - 87
    }
}

/// The upper-case hexadecimal digit of `n < 16`.
pub open spec fn hex_digit(n: int) -> u8 {
    if n < 10 {
        (48 + n) as u8
    } else {
        (55 + n) as u8
    }
}

/// Percent-decoding of a query component: `%XX` is the byte `0xXX`, `+` is a
/// space, and any other byte stands for itself. A `%` that is not followed by
/// two hexadecimal digits makes the whole component invalid.
pub open spec fn percent_decoded(s: Seq<u8>) -> Option<Seq<u8>>
    decreases s.len(),
{
    if s.len() == 0 {
        Some(Seq::<u8>::empty())
    } else if s[0] == PERCENT {
        if s.len() >= 3 && is_hex_digit(s[1]) && is_hex_digit(s[2]) {
            match percent_decoded(s.subrange(3, s.len() as int)) {
                Some(rest) => Some(
                    seq![(hex_value(s[1]) * 16 + hex_value(s[2])) as u8] + rest,
                ),
                None => None,
            }
        } else {
            None
        }
    } else {
        match percent_decoded(s.subrange(1, s.len() as int)) {
            Some(rest) => Some(seq![if s[0] == PLUS { SPACE } else { s[0] }] + rest),
            None => None,
        }
    }
}

/// The bytes that a query component carries unescaped.
pub open spec fn is_unreserved(c: u8) -> bool {
    (48 <= c <= 57) || (65 <= c <= 90) || (97 <= c <= 122) || c == 45 || c == 46 || c == 95
        || c == 42
}

pub open spec fn encoded_byte(c: u8) -> Seq<u8> {
    if is_unreserved(c) {
        seq![c]
    } else if c == SPACE {
        seq![PLUS]
    } else {
        seq![PERCENT, hex_digit(c as int / 16), hex_digit(c as int % 16)]
    }
}

/// Percent-encoding of a query component, in the form that HTML forms use.
pub open spec fn percent_encoded(b: Seq<u8>) -> Seq<u8>
    decreases b.len(),
{
    if b.len() == 0 {
        Seq::<u8>::empty()
    } else {
        encoded_byte(b[0]) + percent_encoded(b.subrange(1, b.len() as int))
    }
}

/// The position of the first `=` in `p` at or after `i`, or `p.len()`.
pub open spec fn equals_from(p: Seq<u8>, i: int) -> int
    decreases p.len() - i,
{
    if i >= p.len() {
        p.len() as int
    } else if p[i] == EQUALS {
        i
    } else {
        equals_from(p, i + 1)
    }
}

/// One `key=value` piece (or a bare `key`, whose value is empty), split at its
/// first `=` and with both sides percent-decoded.
pub open spec fn decoded_pair(p: Seq<u8>) -> Option<(Seq<u8>, Seq<u8>)> {
    let k = equals_from(p, 0);
    let raw_value = if k < p.len() {
        p.subrange(k + 1, p.len() as int)
    } else {
        Seq::<u8>::empty()
    };
    match (percent_decoded(p.subrange(0, k)), percent_decoded(raw_value)) {
        (Some(key), Some(value)) => Some((key, value)),
        _ => None,
    }
}

/// The pairs of a sequence of pieces, in order; empty pieces are skipped.
pub open spec fn decoded_pieces(ps: Seq<Seq<u8>>) -> Option<Seq<(Seq<u8>, Seq<u8>)>>
    decreases ps.len(),
{
    if ps.len() == 0 {
        Some(Seq::<(Seq<u8>, Seq<u8>)>::empty())
    } else {
        match decoded_pieces(ps.drop_last()) {
            None => None,
            Some(acc) => if ps.last().len() == 0 {
                Some(acc)
            } else {
                match decoded_pair(ps.last()) {
                    Some(pair) => Some(acc.push(pair)),
                    None => None,
                }
            },
        }
    }
}

/// The pairs of a query string in the order they appear, or `None` where an
/// escape is invalid.
pub open spec fn decoded_pairs(s: Seq<u8>) -> Option<Seq<(Seq<u8>, Seq<u8>)>> {
    decoded_pieces(split(s, AMPERSAND))
}

/// The mapping that a sequence of pairs gives: a later pair wins over an
/// earlier one with the same key.
pub open spec fn map_of(ps: Seq<(Seq<u8>, Seq<u8>)>) -> Map<Seq<u8>, Seq<u8>>
    decreases ps.len(),
{
    if ps.len() == 0 {
        Map::empty()
    } else {
        map_of(ps.drop_last()).insert(ps.last().0, ps.last().1)
    }
}

/// The mapping that a query string decodes to, or `None` where it is malformed.
pub open spec fn decoded_query(s: Seq<u8>) -> Option<Map<Seq<u8>, Seq<u8>>> {
    match decoded_pairs(s) {
        Some(ps) => Some(map_of(ps)),
        None => None,
    }
}

pub open spec fn encoded_pair(p: (Seq<u8>, Seq<u8>)) -> Seq<u8> {
    percent_encoded(p.0) + seq![EQUALS] + percent_encoded(p.1)
}

/// The query string of a sequence of pairs: each pair encoded, joined by `&`.
pub open spec fn encoded_pairs(ps: Seq<(Seq<u8>, Seq<u8>)>) -> Seq<u8>
    decreases ps.len(),
{
    if ps.len() == 0 {
        Seq::<u8>::empty()
    } else if ps.len() == 1 {
        encoded_pair(ps[0])
    } else {
        encoded_pairs(ps.drop_last()) + seq![AMPERSAND] + encoded_pair(ps.last())
    }
}

pub open spec fn pair_view(p: (Vec<u8>, Vec<u8>)) -> (Seq<u8>, Seq<u8>) {
    (p.0@, p.1@)
}

pub open spec fn bytes_view(v: Vec<u8>) -> Seq<u8> {
    v@
}

/// A decoded query string: its key/value pairs in the order they appeared.
/// Looking a key up gives the value of its last pair.
pub struct QueryMap {
    pub pairs: Vec<(Vec<u8>, Vec<u8>)>,
}

impl View for QueryMap {
    type V = Map<Seq<u8>, Seq<u8>>;

    open spec fn view(&self) -> Map<Seq<u8>, Seq<u8>> {
        map_of(self.pairs_view())
    }
}

impl QueryMap {
    pub open spec fn pairs_view(&self) -> Seq<(Seq<u8>, Seq<u8>)> {
        self.pairs@.map_values(|p: (Vec<u8>, Vec<u8>)| pair_view(p))
    }

    /// The number of pairs, duplicates included.
    pub fn len(&self) -> (r: usize)
        ensures
            r == self.pairs_view().len(),
    {
        self.pairs.len()
    }

    /// The value of `key`: that of its last pair.
    pub fn get(&self, key: &[u8]) -> (r: Option<Vec<u8>>)
        ensures
            match r {
                Some(v) => self@.contains_key(key@) && self@[key@] == v@,
                None => !self@.contains_key(key@),
            },
    {
        let ghost ps = self.pairs_view();
        let mut i: usize = self.pairs.len();
        while i > 0
            invariant
                i <= self.pairs@.len(),
                ps == self.pairs_view(),
                forall|j: int| i <= j < ps.len() ==> ps[j].0 != key@,
            decreases i,
        {
            let p = &self.pairs[i - 1];
            if bytes_equal(&p.0, key) {
                proof {
                    lemma_map_of_suffix_free(ps, i as int, key@);
                    lemma_map_of_last(ps.subrange(0, i as int));
                }
                return Some(copy_range(&p.1, 0, p.1.len()));
            }
            i = i - 1;
        }
        proof {
            lemma_map_of_suffix_free(ps, 0, key@);
            assert(ps.subrange(0, 0) =~= Seq::<(Seq<u8>, Seq<u8>)>::empty());
        }
        None
    }
}

/// `map_of` on `ps` agrees on `key` with `map_of` on its first `i` pairs when
/// no later pair has that key.
proof fn lemma_map_of_suffix_free(ps: Seq<(Seq<u8>, Seq<u8>)>, i: int, key: Seq<u8>)
    requires
        0 <= i <= ps.len(),
        forall|j: int| i <= j < ps.len() ==> ps[j].0 != key,
    ensures
        map_of(ps).contains_key(key) == map_of(ps.subrange(0, i)).contains_key(key),
        map_of(ps).contains_key(key) ==> map_of(ps)[key] == map_of(ps.subrange(0, i))[key],
    decreases ps.len() - i,
{
    if i < ps.len() {
        let q = ps.subrange(0, i + 1);
        lemma_map_of_suffix_free(ps, i + 1, key);
        assert(q.drop_last() =~= ps.subrange(0, i));
    } else {
        assert(ps.subrange(0, i) =~= ps);
    }
}

/// The last pair of `ps` is what `map_of` gives for its key.
proof fn lemma_map_of_last(ps: Seq<(Seq<u8>, Seq<u8>)>)
    requires
        ps.len() > 0,
    ensures
        map_of(ps).contains_key(ps.last().0),
        map_of(ps)[ps.last().0] == ps.last().1,
{
}

/// Whether two byte strings are equal.
pub fn bytes_equal(a: &[u8], b: &[u8]) -> (r: bool)
    ensures
        r == (a@ == b@),
{
    if a.len() != b.len() {
        return false;
    }
    let mut i: usize = 0;
    while i < a.len()
        invariant
            a@.len() == b@.len(),
            i <= a@.len(),
            forall|j: int| 0 <= j < i ==> a@[j] == b@[j],
        decreases a.len() - i,
    {
        if a[i] != b[i] {
            return false;
        }
        i = i + 1;
    }
    assert(a@ =~= b@);
    true
}

/// A copy of `s[lo..hi]`.
pub fn copy_range(s: &[u8], lo: usize, hi: usize) -> (r: Vec<u8>)
    requires
        lo <= hi <= s@.len(),
    ensures
        r@ == s@.subrange(lo as int, hi as int),
{
    let mut r: Vec<u8> = Vec::new();
    let mut i: usize = lo;
    while i < hi
        invariant
            lo <= i <= hi <= s@.len(),
            r@ == s@.subrange(lo as int, i as int),
        decreases hi - i,
    {
        r.push(s[i]);
        i = i + 1;
        assert(r@ =~= s@.subrange(lo as int, i as int));
    }
    r
}


/// Splits `s` at every `sep`.
pub fn split_bytes(s: &[u8], sep: u8) -> (r: Vec<Vec<u8>>)
    ensures
        r@.map_values(|v: Vec<u8>| bytes_view(v)) == split(s@, sep),
{
    let mut out: Vec<Vec<u8>> = Vec::new();
    let mut cur: Vec<u8> = Vec::new();
    let mut i: usize = 0;
    assert(s@.subrange(0, 0) =~= Seq::<u8>::empty());
    assert(out@.map_values(|v: Vec<u8>| bytes_view(v)).push(cur@) =~= split(Seq::<u8>::empty(), sep));
    while i < s.len()
        invariant
            i <= s@.len(),
            out@.map_values(|v: Vec<u8>| bytes_view(v)).push(cur@) == split(
                s@.subrange(0, i as int),
                sep,
            ),
        decreases s.len() - i,
    {
        let ghost prev = split(s@.subrange(0, i as int), sep);
        let c = s[i];
        assert(s@.subrange(0, i + 1).drop_last() =~= s@.subrange(0, i as int));
        if c == sep {
            out.push(cur);
            cur = Vec::new();
            assert(out@.map_values(|v: Vec<u8>| bytes_view(v)).push(cur@) =~= prev.push(
                Seq::<u8>::empty(),
            ));
        } else {
            cur.push(c);
            assert(out@.map_values(|v: Vec<u8>| bytes_view(v)).push(cur@) =~= prev.update(
                prev.len() - 1,
                prev.last().push(c),
            ));
        }
        i = i + 1;
    }
    assert(s@.subrange(0, s@.len() as int) =~= s@);
    out.push(cur);
    assert(out@.map_values(|v: Vec<u8>| bytes_view(v)) =~= split(s@, sep));
    out
}

fn hex_digit_value(c: u8) -> (r: Option<u8>)
    ensures
        match r {
            Some(v) => is_hex_digit(c) && v == hex_value(c),
            None => !is_hex_digit(c),
        },
{
    if 48 <= c && c <= 57 {
        Some(c - 48)
    } else if 65 <= c && c <= 70 {
        Some(c - 55)
    } else if 97 <= c && c <= 102 {
        Some(c - 87)
    } else {
        None
    }
}

/// Percent-decodes `s[lo..hi]`.
pub fn percent_decode_range(s: &[u8], lo: usize, hi: usize) -> (r: Option<Vec<u8>>)
    requires
        lo <= hi <= s@.len(),
    ensures
        match r {
            Some(v) => percent_decoded(s@.subrange(lo as int, hi as int)) == Some(v@),
            None => percent_decoded(s@.subrange(lo as int, hi as int)) is None,
        },
{
    let ghost whole = s@.subrange(lo as int, hi as int);
    let mut out: Vec<u8> = Vec::new();
    let mut i: usize = lo;
    assert(s@.subrange(lo as int, hi as int) =~= whole);
    while i < hi
        invariant
            lo <= i <= hi <= s@.len(),
            whole == s@.subrange(lo as int, hi as int),
            percent_decoded(whole) == match percent_decoded(s@.subrange(i as int, hi as int)) {
                Some(rest) => Some(out@ + rest),
                None => None::<Seq<u8>>,
            },
        decreases hi - i,
    {
        let ghost t = s@.subrange(i as int, hi as int);
        let c = s[i];
        if c == PERCENT {
            if hi - i < 3 {
                return None;
            }
            let a = hex_digit_value(s[i + 1]);
            let b = hex_digit_value(s[i + 2]);
            match (a, b) {
                (Some(x), Some(y)) => {
                    assert(t.subrange(3, t.len() as int) =~= s@.subrange(i + 3, hi as int));
                    let v: u8 = x * 16 + y;
                    let ghost old_out = out@;
                    out.push(v);
                    assert(out@ =~= old_out + seq![v]);
                    proof {
                        match percent_decoded(s@.subrange(i + 3, hi as int)) {
                            Some(rest) => {
                                assert(old_out + (seq![v] + rest) =~= out@ + rest);
                            },
                            None => {},
                        }
                    }
                    i = i + 3;
                },
                _ => {
                    return None;
                },
            }
        } else {
            assert(t.subrange(1, t.len() as int) =~= s@.subrange(i + 1, hi as int));
            let v: u8 = if c == PLUS {
                SPACE
            } else {
                c
            };
            let ghost old_out = out@;
            out.push(v);
            assert(out@ =~= old_out + seq![v]);
            proof {
                match percent_decoded(s@.subrange(i + 1, hi as int)) {
                    Some(rest) => {
                        assert(old_out + (seq![v] + rest) =~= out@ + rest);
                    },
                    None => {},
                }
            }
            i = i + 1;
        }
    }
    assert(s@.subrange(hi as int, hi as int) =~= Seq::<u8>::empty());
    assert(out@ + Seq::<u8>::empty() =~= out@);
    Some(out)
}

/// Decodes one nonempty `key=value` piece.
fn decode_pair(p: &[u8]) -> (r: Option<(Vec<u8>, Vec<u8>)>)
    ensures
        match r {
            Some(pair) => decoded_pair(p@) == Some(pair_view(pair)),
            None => decoded_pair(p@) is None,
        },
{
    let mut k: usize = 0;
    while k < p.len() && p[k] != EQUALS
        invariant
            k <= p@.len(),
            equals_from(p@, k as int) == equals_from(p@, 0),
        decreases p.len() - k,
    {
        k = k + 1;
    }
    let key = percent_decode_range(p, 0, k);
    let value = if k < p.len() {
        percent_decode_range(p, k + 1, p.len())
    } else {
        assert(p@.subrange(p@.len() as int, p@.len() as int) =~= Seq::<u8>::empty());
        percent_decode_range(p, k, k)
    };
    match (key, value) {
        (Some(key), Some(value)) => Some((key, value)),
        _ => None,
    }
}

/// A pair list that fails to decode stays failed when pieces are added.
proof fn lemma_pieces_fail_extends(ps: Seq<Seq<u8>>, j: int)
    requires
        0 <= j <= ps.len(),
        decoded_pieces(ps.subrange(0, j)) is None,
    ensures
        decoded_pieces(ps) is None,
    decreases ps.len() - j,
{
    if j < ps.len() {
        assert(ps.subrange(0, j + 1).drop_last() =~= ps.subrange(0, j));
        lemma_pieces_fail_extends(ps, j + 1);
    } else {
        assert(ps.subrange(0, j) =~= ps);
    }
}

/// Decodes a query string such as `a=1&b=x%2Fy` into its pairs, in order.
/// Empty pieces are skipped, a bare `key` has an empty value, and the empty
/// string gives no pairs.
pub fn decode(raw: &[u8]) -> (r: Result<QueryMap, Error>)
    ensures
        match r {
            Ok(q) => decoded_pairs(raw@) == Some(q.pairs_view()) && decoded_query(raw@) == Some(
                q@,
            ),
            Err(e) => e == Error::MalformedInput && decoded_pairs(raw@) is None
                && decoded_query(raw@) is None,
        },
{
    let pieces = split_bytes(raw, AMPERSAND);
    let ghost ps = split(raw@, AMPERSAND);
    let mut pairs: Vec<(Vec<u8>, Vec<u8>)> = Vec::new();
    let mut j: usize = 0;
    assert(ps.subrange(0, 0) =~= Seq::<Seq<u8>>::empty());
    while j < pieces.len()
        invariant
            j <= pieces@.len(),
            ps == split(raw@, AMPERSAND),
            pieces@.map_values(|v: Vec<u8>| bytes_view(v)) == ps,
            decoded_pieces(ps.subrange(0, j as int)) == Some(
                pairs@.map_values(|p: (Vec<u8>, Vec<u8>)| pair_view(p)),
            ),
        decreases pieces.len() - j,
    {
        let piece = &pieces[j];
        assert(ps[j as int] == piece@);
        assert(ps.subrange(0, j + 1).drop_last() =~= ps.subrange(0, j as int));
        if piece.len() > 0 {
            match decode_pair(piece) {
                Some(pair) => {
                    let ghost before = pairs@;
                    pairs.push(pair);
                    assert(pairs@.map_values(|p: (Vec<u8>, Vec<u8>)| pair_view(p)) =~= before.map_values(
                        |p: (Vec<u8>, Vec<u8>)| pair_view(p),
                    ).push(pair_view(pair)));
                },
                None => {
                    proof {
                        lemma_pieces_fail_extends(ps, j + 1);
                    }
                    return Err(Error::MalformedInput);
                },
            }
        }
        j = j + 1;
    }
    assert(ps.subrange(0, ps.len() as int) =~= ps);
    Ok(QueryMap { pairs })
}


fn hex_digit_of(n: u8) -> (r: u8)
    requires
        n < 16,
    ensures
        r == hex_digit(n as int),
{
    if n < 10 {
        48 + n
    } else {
        55 + n
    }
}

/// Appends the percent-encoding of `b` to `out`.
pub fn percent_encode_into(b: &[u8], out: &mut Vec<u8>)
    ensures
        final(out)@ == old(out)@ + percent_encoded(b@),
{
    let ghost start = out@;
    let mut i: usize = 0;
    assert(b@.subrange(0, b@.len() as int) =~= b@);
    assert(start + percent_encoded(b@) =~= out@ + percent_encoded(b@.subrange(0, b@.len() as int)));
    while i < b.len()
        invariant
            i <= b@.len(),
            start + percent_encoded(b@) == out@ + percent_encoded(
                b@.subrange(i as int, b@.len() as int),
            ),
        decreases b.len() - i,
    {
        let ghost t = b@.subrange(i as int, b@.len() as int);
        let ghost before = out@;
        assert(t.subrange(1, t.len() as int) =~= b@.subrange(i + 1, b@.len() as int));
        let c = b[i];
        if (48 <= c && c <= 57) || (65 <= c && c <= 90) || (97 <= c && c <= 122) || c == 45 || c
            == 46 || c == 95 || c == 42 {
            out.push(c);
        } else if c == SPACE {
            out.push(PLUS);
        } else {
            out.push(PERCENT);
            out.push(hex_digit_of(c / 16));
            out.push(hex_digit_of(c % 16));
        }
        assert(out@ =~= before + encoded_byte(c));
        assert(before + (encoded_byte(c) + percent_encoded(b@.subrange(i + 1, b@.len() as int)))
            =~= out@ + percent_encoded(b@.subrange(i + 1, b@.len() as int)));
        i = i + 1;
    }
    assert(b@.subrange(b@.len() as int, b@.len() as int) =~= Seq::<u8>::empty());
    assert(out@ + Seq::<u8>::empty() =~= out@);
}

/// Encodes the pairs of `q` as a query string: each pair as `key=value`, both
/// percent-encoded, joined by `&` in order.
pub fn encode(q: &QueryMap) -> (r: Vec<u8>)
    ensures
        r@ == encoded_pairs(q.pairs_view()),
{
    let ghost ps = q.pairs_view();
    let mut out: Vec<u8> = Vec::new();
    let mut j: usize = 0;
    while j < q.pairs.len()
        invariant
            j <= q.pairs@.len(),
            ps == q.pairs_view(),
            out@ == encoded_pairs(ps.subrange(0, j as int)),
        decreases q.pairs.len() - j,
    {
        let ghost before = out@;
        assert(ps.subrange(0, j + 1).drop_last() =~= ps.subrange(0, j as int));
        let pair = &q.pairs[j];
        assert(pair_view(*pair) == ps[j as int]);
        if j > 0 {
            out.push(AMPERSAND);
        }
        percent_encode_into(pair.0.as_slice(), &mut out);
        out.push(EQUALS);
        percent_encode_into(pair.1.as_slice(), &mut out);
        proof {
            if j == 0 {
                assert(out@ =~= encoded_pair(ps[0]));
            } else {
                assert(out@ =~= before + seq![AMPERSAND] + encoded_pair(ps[j as int]));
            }
        }
        j = j + 1;
    }
    assert(ps.subrange(0, ps.len() as int) =~= ps);
    out
}

pub open spec fn no_separator(s: Seq<u8>) -> bool {
    forall|i: int| 0 <= i < s.len() ==> s[i] != AMPERSAND && s[i] != EQUALS
}

proof fn lemma_hex_digit(n: int)
    requires
        0 <= n < 16,
    ensures
        is_hex_digit(hex_digit(n)),
        hex_value(hex_digit(n)) == n,
        hex_digit(n) != AMPERSAND && hex_digit(n) != EQUALS,
{
}

proof fn lemma_encoded_no_separator(b: Seq<u8>)
    ensures
        no_separator(percent_encoded(b)),
    decreases b.len(),
{
    if b.len() > 0 {
        let c = b[0];
        lemma_encoded_no_separator(b.subrange(1, b.len() as int));
        lemma_hex_digit(c as int / 16);
        lemma_hex_digit(c as int % 16);
        let e = encoded_byte(c);
        let rest = percent_encoded(b.subrange(1, b.len() as int));
        assert(no_separator(e));
        assert forall|i: int| 0 <= i < e.len() + rest.len() implies (e + rest)[i] != AMPERSAND
            && (e + rest)[i] != EQUALS by {
            if i >= e.len() {
                assert((e + rest)[i] == rest[i - e.len()]);
            }
        }
    }
}

proof fn lemma_decode_encoded(b: Seq<u8>)
    ensures
        percent_decoded(percent_encoded(b)) == Some(b),
    decreases b.len(),
{
    if b.len() > 0 {
        let c = b[0];
        let tail = b.subrange(1, b.len() as int);
        lemma_decode_encoded(tail);
        let e = encoded_byte(c);
        let rest = percent_encoded(tail);
        let s = e + rest;
        assert(s.subrange(e.len() as int, s.len() as int) =~= rest);
        if !is_unreserved(c) && c != SPACE {
            lemma_hex_digit(c as int / 16);
            lemma_hex_digit(c as int % 16);
            assert((c as int / 16) * 16 + c as int % 16 == c as int);
        }
        assert(seq![c] + tail =~= b);
    }
}

/// The split of `a + b`, where `b` holds no `sep`: `b` joins the last piece.
proof fn lemma_split_append_plain(a: Seq<u8>, b: Seq<u8>, sep: u8)
    requires
        forall|i: int| 0 <= i < b.len() ==> b[i] != sep,
    ensures
        split(a, sep).len() >= 1,
        split(a + b, sep) == split(a, sep).update(
            split(a, sep).len() - 1,
            split(a, sep).last() + b,
        ),
    decreases a.len() + b.len(),
{
    if a.len() > 0 {
        lemma_split_append_plain(a.drop_last(), Seq::<u8>::empty(), sep);
    }
    if b.len() == 0 {
        assert(a + b =~= a);
        assert(split(a, sep).last() + b =~= split(a, sep).last());
        assert(split(a, sep).update(split(a, sep).len() - 1, split(a, sep).last())
            =~= split(a, sep));
    } else {
        let b1 = b.drop_last();
        lemma_split_append_plain(a, b1, sep);
        assert((a + b).drop_last() =~= a + b1);
        assert((a + b).last() == b.last());
        assert((split(a, sep).last() + b1).push(b.last()) =~= split(a, sep).last() + b);
        assert(split(a + b, sep) =~= split(a, sep).update(
            split(a, sep).len() - 1,
            split(a, sep).last() + b,
        ));
    }
}

/// The split of `a`, a separator, and `b` holding no `sep`.
proof fn lemma_split_join(a: Seq<u8>, b: Seq<u8>, sep: u8)
    requires
        forall|i: int| 0 <= i < b.len() ==> b[i] != sep,
    ensures
        split(a + seq![sep] + b, sep) == split(a, sep).push(b),
{
    let a1 = a + seq![sep];
    assert(a1.drop_last() =~= a);
    lemma_split_append_plain(a1, b, sep);
    assert(split(a1, sep) == split(a, sep).push(Seq::<u8>::empty()));
    assert(Seq::<u8>::empty() + b =~= b);
    assert(split(a1 + b, sep) =~= split(a, sep).push(b));
}

proof fn lemma_encoded_pair_plain(p: (Seq<u8>, Seq<u8>))
    ensures
        forall|i: int|
            0 <= i < encoded_pair(p).len() ==> encoded_pair(p)[i] != AMPERSAND,
        equals_from(encoded_pair(p), 0) == percent_encoded(p.0).len(),
        encoded_pair(p).len() > 0,
{
    let k = percent_encoded(p.0);
    let v = percent_encoded(p.1);
    let e = encoded_pair(p);
    lemma_encoded_no_separator(p.0);
    lemma_encoded_no_separator(p.1);
    assert forall|i: int| 0 <= i < e.len() implies e[i] != AMPERSAND by {
        if i < k.len() {
            assert(e[i] == k[i]);
        } else if i > k.len() {
            assert(e[i] == v[i - k.len() - 1]);
        }
    }
    lemma_equals_from_first(e, 0, k.len() as int);
}

proof fn lemma_equals_from_first(p: Seq<u8>, i: int, k: int)
    requires
        0 <= i <= k < p.len(),
        p[k] == EQUALS,
        forall|j: int| i <= j < k ==> p[j] != EQUALS,
    ensures
        equals_from(p, i) == k,
    decreases k - i,
{
    if i < k {
        lemma_equals_from_first(p, i + 1, k);
    }
}

proof fn lemma_decoded_pair_encoded(p: (Seq<u8>, Seq<u8>))
    ensures
        decoded_pair(encoded_pair(p)) == Some(p),
{
    let k = percent_encoded(p.0);
    let e = encoded_pair(p);
    lemma_encoded_no_separator(p.0);
    assert forall|j: int| 0 <= j < k.len() implies e[j] != EQUALS by {
        assert(e[j] == k[j]);
    }
    lemma_equals_from_first(e, 0, k.len() as int);
    assert(e.subrange(0, k.len() as int) =~= k);
    assert(e.subrange(k.len() as int + 1, e.len() as int) =~= percent_encoded(p.1));
    lemma_decode_encoded(p.0);
    lemma_decode_encoded(p.1);
}

proof fn lemma_split_encoded(ps: Seq<(Seq<u8>, Seq<u8>)>)
    requires
        ps.len() >= 1,
    ensures
        split(encoded_pairs(ps), AMPERSAND) == ps.map_values(
            |p: (Seq<u8>, Seq<u8>)| encoded_pair(p),
        ),
    decreases ps.len(),
{
    lemma_encoded_pair_plain(ps.last());
    if ps.len() == 1 {
        lemma_split_append_plain(Seq::<u8>::empty(), encoded_pair(ps[0]), AMPERSAND);
        assert(Seq::<u8>::empty() + encoded_pair(ps[0]) =~= encoded_pair(ps[0]));
        assert(split(encoded_pairs(ps), AMPERSAND) =~= ps.map_values(
            |p: (Seq<u8>, Seq<u8>)| encoded_pair(p),
        ));
    } else {
        lemma_split_encoded(ps.drop_last());
        lemma_split_join(encoded_pairs(ps.drop_last()), encoded_pair(ps.last()), AMPERSAND);
        assert(ps.map_values(|p: (Seq<u8>, Seq<u8>)| encoded_pair(p)) =~= ps.drop_last().map_values(
            |p: (Seq<u8>, Seq<u8>)| encoded_pair(p),
        ).push(encoded_pair(ps.last())));
    }
}

proof fn lemma_decoded_pieces_encoded(ps: Seq<(Seq<u8>, Seq<u8>)>)
    ensures
        decoded_pieces(ps.map_values(|p: (Seq<u8>, Seq<u8>)| encoded_pair(p))) == Some(ps),
    decreases ps.len(),
{
    let es = ps.map_values(|p: (Seq<u8>, Seq<u8>)| encoded_pair(p));
    if ps.len() > 0 {
        lemma_decoded_pieces_encoded(ps.drop_last());
        assert(es.drop_last() =~= ps.drop_last().map_values(
            |p: (Seq<u8>, Seq<u8>)| encoded_pair(p),
        ));
        lemma_encoded_pair_plain(ps.last());
        lemma_decoded_pair_encoded(ps.last());
        assert(ps.drop_last().push(ps.last()) =~= ps);
    } else {
        assert(ps =~= Seq::<(Seq<u8>, Seq<u8>)>::empty());
    }
}

/// Encoding a list of pairs and decoding the result gives back the same pairs,
/// in the same order, and so the same mapping.
pub proof fn lemma_encode_then_decode(ps: Seq<(Seq<u8>, Seq<u8>)>)
    ensures
        decoded_pairs(encoded_pairs(ps)) == Some(ps),
        decoded_query(encoded_pairs(ps)) == Some(map_of(ps)),
{
    if ps.len() == 0 {
        let pieces = split(Seq::<u8>::empty(), AMPERSAND);
        assert(pieces.drop_last() =~= Seq::<Seq<u8>>::empty());
        assert(decoded_pieces(pieces.drop_last()) == Some(Seq::<(Seq<u8>, Seq<u8>)>::empty()));
        assert(ps =~= Seq::<(Seq<u8>, Seq<u8>)>::empty());
    } else {
        lemma_split_encoded(ps);
        lemma_decoded_pieces_encoded(ps);
    }
}

/// A query string that decodes, re-encoded from its pairs, decodes to the same
/// mapping: re-encoding keeps every key and value.
pub proof fn lemma_decode_then_reencode(s: Seq<u8>)
    requires
        decoded_pairs(s) is Some,
    ensures
        decoded_query(encoded_pairs(decoded_pairs(s).unwrap())) == decoded_query(s),
{
    lemma_encode_then_decode(decoded_pairs(s).unwrap());
}

} // verus!
