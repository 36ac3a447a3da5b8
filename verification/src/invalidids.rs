//! Invalid-ID scanning: parsing textual `min-max` range tokens and counting
//! integers whose decimal representation consists of two identical halves
//! (`1212`, `123123`); an odd number of digits can never be invalid.

use vstd::prelude::*;
use vstd::string::StringSliceAdditionalSpecFns;
use crate::digits::{parses_as_u64, token_value, parse_u64, digits_of};

verus! {

/// An inclusive range of candidate IDs; well formed when `min < max`.
#[derive(Debug, PartialEq, Eq, Structural)]
pub struct IdRange {
    pub min: u64,
    pub max: u64,
}

/// Why a range token was rejected. `ParseError` carries the part of the
/// token that failed to parse as a number.
#[derive(Debug, PartialEq, Eq)]
pub enum IdRangeError {
    ParseError(String),
    UTF8Error,
    IOError,
    RangeError,
}

/// Index of the first occurrence of `c` in `s`, or `s.len()` when absent.
pub open spec fn find_char(s: Seq<char>, c: char) -> int
    decreases s.len(),
{
    if s.len() == 0 {
        0
    } else if s[0] == c {
        0
    } else {
        1 + find_char(s.drop_first(), c)
    }
}

/// `find_char` points at the first occurrence: it is in bounds, it finds
/// `c` when `c` occurs, and nothing before it is `c`.
pub proof fn lemma_find_char(s: Seq<char>, c: char)
    ensures
        0 <= find_char(s, c) <= s.len(),
        find_char(s, c) < s.len() ==> s[find_char(s, c)] == c,
        forall|j: int| 0 <= j < find_char(s, c) ==> s[j] != c,
    decreases s.len(),
{
    if s.len() > 0 && s[0] != c {
        lemma_find_char(s.drop_first(), c);
        assert forall|j: int| 0 <= j < find_char(s, c) implies s[j] != c by {
            if j > 0 {
                assert(s.drop_first()[j - 1] == s[j]);
            }
        }
    }
}

/// An index with the properties of `find_char` is `find_char`.
pub proof fn lemma_find_char_unique(s: Seq<char>, c: char, i: int)
    requires
        0 <= i <= s.len(),
        i < s.len() ==> s[i] == c,
        forall|j: int| 0 <= j < i ==> s[j] != c,
    ensures
        find_char(s, c) == i,
{
    lemma_find_char(s, c);
    let f = find_char(s, c);
    if f < i {
        assert(s[f] != c);
        assert(false);
    }
    if i < f {
        assert(s[i] != c);
        assert(false);
    }
}

/// The part of a range token before the first `-`.
pub open spec fn token_min_part(s: Seq<char>) -> Seq<char> {
    s.take(find_char(s, '-'))
}

/// The part of a range token between the first `-` and the second `-` (or
/// the end); empty when the token has no `-` at all.
pub open spec fn token_max_part(s: Seq<char>) -> Seq<char> {
    let i = find_char(s, '-');
    if i < s.len() {
        let rest = s.skip(i + 1);
        rest.take(find_char(rest, '-'))
    } else {
        Seq::empty()
    }
}

/// How a textual range token is read: `<min>-<max>`, both parts number
/// tokens (an optional `+`, then digits) whose values fit in a `u64`, with
/// `min < max`. Anything after a second `-` is ignored. A part that fails to
/// parse is reported in `ParseError`; an inverted or degenerate range in
/// `RangeError`.
pub open spec fn range_result_matches(s: Seq<char>, r: Result<IdRange, IdRangeError>) -> bool {
    let p1 = token_min_part(s);
    let p2 = token_max_part(s);
    if !parses_as_u64(p1) {
        r matches Err(IdRangeError::ParseError(m)) && m@ == p1
    } else if !parses_as_u64(p2) {
        r matches Err(IdRangeError::ParseError(m)) && m@ == p2
    } else if token_value(p1) >= token_value(p2) {
        r matches Err(IdRangeError::RangeError)
    } else {
        r matches Ok(idr) && idr.min == token_value(p1) && idr.max == token_value(p2)
    }
}

/// Index of the first `-` at or after `from`, or the length when absent.
fn find_dash_from(s: &str, from: usize) -> (i: usize)
    requires
        from <= s@.len(),
    ensures
        from <= i <= s@.len(),
        i < s@.len() ==> s@[i as int] == '-',
        forall|j: int| from <= j < i ==> s@[j] != '-',
{
    let n = s.unicode_len();
    let mut i = from;
    while i < n
        invariant
            from <= i <= n == s@.len(),
            forall|j: int| from <= j < i ==> s@[j] != '-',
        decreases n - i,
    {
        if s.get_char(i) == '-' {
            return i;
        }
        i = i + 1;
    }
    i
}

impl IdRange {
    /// Reads a range token `<min>-<max>`. Returns the range exactly when
    /// both parts are digit strings fitting in a `u64` and `min < max`.
    pub fn try_from(s: &str) -> (r: Result<IdRange, IdRangeError>)
        ensures
            range_result_matches(s@, r),
    {
        let n = s.unicode_len();
        let i = find_dash_from(s, 0);
        proof {
            lemma_find_char_unique(s@, '-', i as int);
        }
        let p1 = s.substring_char(0, i);
        assert(p1@ =~= token_min_part(s@));
        let min = match parse_u64(p1) {
            None => {
                return Err(IdRangeError::ParseError(p1.to_owned()));
            },
            Some(v) => v,
        };
        if i == n {
            assert(token_max_part(s@) =~= Seq::<char>::empty());
            return Err(IdRangeError::ParseError(String::new()));
        }
        let j = find_dash_from(s, i + 1);
        let p2 = s.substring_char(i + 1, j);
        proof {
            let rest = s@.skip(i as int + 1);
            lemma_find_char_unique(rest, '-', j as int - (i as int + 1));
            assert(p2@ =~= token_max_part(s@));
        }
        let max = match parse_u64(p2) {
            None => {
                return Err(IdRangeError::ParseError(p2.to_owned()));
            },
            Some(v) => v,
        };
        if min >= max {
            return Err(IdRangeError::RangeError);
        }
        Ok(IdRange { min, max })
    }

    /// Reads a range token from raw bytes: decoded as UTF-8, then parsed as
    /// a textual token.
    pub fn try_from_bytes(b: &[u8]) -> (r: Result<IdRange, IdRangeError>)
        ensures
            byte_range_result_matches(b@, r),
    {
        match bytes_to_str(b) {
            None => Err(IdRangeError::UTF8Error),
            Some(s) => {
                proof {
                    vstd::utf8::encode_utf8_valid_utf8(s@);
                    vstd::utf8::encode_utf8_decode_utf8(s@);
                }
                Self::try_from(s)
            },
        }
    }
}

/// How a byte token is read: decoded as UTF-8, then as a range token; bytes
/// that are not valid UTF-8 are rejected.
pub open spec fn byte_range_result_matches(t: Seq<u8>, r: Result<IdRange, IdRangeError>) -> bool {
    if vstd::utf8::valid_utf8(t) {
        range_result_matches(vstd::utf8::decode_utf8(t), r)
    } else {
        r matches Err(IdRangeError::UTF8Error)
    }
}

/// Relies on `std::str::from_utf8`: it succeeds exactly on valid UTF-8
/// input, and the string slice it returns is backed by those same bytes.
#[verifier::external_body]
fn bytes_to_str(b: &[u8]) -> (r: Option<&str>)
    ensures
        match r {
            Some(s) => s.spec_bytes() == b@,
            None => !vstd::utf8::valid_utf8(b@),
        },
{
    std::str::from_utf8(b).ok()
}

/// An ID is invalid when its decimal representation has even length and its
/// first half equals its second half digit for digit. An odd number of
/// digits can never be invalid.
pub open spec fn is_invalid_id(id: u64) -> bool {
    let ds = digits_of(id as nat);
    ds.len() % 2 == 0 && ds.subrange(0, ds.len() as int / 2) == ds.subrange(
        ds.len() as int / 2,
        ds.len() as int,
    )
}

/// An ID whose decimal representation has an odd number of digits is never
/// invalid: it cannot split into two halves at all.
pub proof fn lemma_odd_length_never_invalid(id: u64)
    requires
        digits_of(id as nat).len() % 2 == 1,
    ensures
        !is_invalid_id(id),
{
}

/// Decides whether `id`'s decimal representation is two identical halves.
pub fn naive_invalid_id(id: u64) -> (r: bool)
    ensures
        r == is_invalid_id(id),
{
    let mut rv: Vec<u8> = Vec::new();
    let mut n = id;
    proof {
        assert(digits_of(id as nat) =~= digits_of(id as nat) + rv@.reverse());
    }
    while n >= 10
        invariant
            digits_of(id as nat) == digits_of(n as nat) + rv@.reverse(),
        decreases n,
    {
        let ghost prev = rv@;
        let d = n % 10;
        rv.push(d as u8);
        n = n / 10;
        proof {
            assert(rv@.reverse() =~= seq![d as u8] + prev.reverse());
            assert(digits_of(n as nat) + rv@.reverse() =~= (digits_of(n as nat) + seq![
                d as u8,
            ]) + prev.reverse());
            assert(digits_of(n as nat) + seq![d as u8] =~= digits_of(n as nat).push(d as u8));
        }
    }
    let ghost prev = rv@;
    rv.push(n as u8);
    proof {
        assert(rv@.reverse() =~= seq![n as u8] + prev.reverse());
        assert(digits_of(n as nat) =~= seq![n as u8]);
        assert(digits_of(id as nat) =~= rv@.reverse());
    }
    let ghost ds = digits_of(id as nat);
    let len = rv.len();
    assert(ds.len() == len);
    if len % 2 != 0 {
        return false;
    }
    let half = len / 2;
    let mut i: usize = 0;
    while i < half
        invariant
            len == rv@.len() == ds.len(),
            len % 2 == 0,
            half == len / 2,
            ds == digits_of(id as nat),
            ds == rv@.reverse(),
            0 <= i <= half,
            forall|j: int| 0 <= j < i ==> rv@[j] == #[trigger] rv@[j + half],
        decreases half - i,
    {
        if rv[i] != rv[i + half] {
            proof {
                let k = len - 1 - i - half;
                assert(ds[k] == rv@[i + half]);
                assert(ds[k + half] == rv@[i as int]);
                if is_invalid_id(id) {
                    assert(ds.subrange(0, half as int)[k] == ds.subrange(
                        half as int,
                        len as int,
                    )[k]);
                    assert(false);
                }
            }
            return false;
        }
        i = i + 1;
    }
    proof {
        assert forall|k: int| 0 <= k < half implies ds.subrange(0, half as int)[k] == ds.subrange(
            half as int,
            len as int,
        )[k] by {
            let j = len - 1 - k - half;
            assert(0 <= j < half);
            assert(rv@[j] == rv@[j + half]);
            assert(ds[k] == rv@[len - 1 - k]);
            assert(ds[k + half] == rv@[len - 1 - k - half]);
        }
        assert(ds.subrange(0, half as int) =~= ds.subrange(half as int, len as int));
    }
    true
}

/// The byte value of the token separator `,`.
pub const COMMA: u8 = 44;

/// The tokens of `b` split at every `,`; adjacent commas and commas at the
/// ends contribute empty tokens.
pub open spec fn comma_tokens(b: Seq<u8>) -> Seq<Seq<u8>>
    decreases b.len(),
{
    if b.len() == 0 {
        seq![Seq::<u8>::empty()]
    } else if b[0] == COMMA {
        seq![Seq::<u8>::empty()] + comma_tokens(b.drop_first())
    } else {
        let rest = comma_tokens(b.drop_first());
        seq![seq![b[0]] + rest[0]] + rest.drop_first()
    }
}

/// The non-empty tokens of `b` split at every `,`.
pub open spec fn nonempty_tokens(b: Seq<u8>) -> Seq<Seq<u8>> {
    comma_tokens(b).filter(|t: Seq<u8>| t.len() > 0)
}

/// A comma-free byte string is one whole token.
proof fn lemma_nonempty_tokens_single(u: Seq<u8>)
    requires
        forall|j: int| 0 <= j < u.len() ==> u[j] != COMMA,
    ensures
        nonempty_tokens(u) == if u.len() > 0 {
            seq![u]
        } else {
            Seq::<Seq<u8>>::empty()
        },
    decreases u.len(),
{
    lemma_comma_tokens_nocomma(u);
    let pred = |t: Seq<u8>| t.len() > 0;
    reveal_with_fuel(Seq::filter, 3);
    assert(seq![u].drop_last() =~= Seq::<Seq<u8>>::empty());
    assert(seq![u].filter(pred) == if pred(u) {
        Seq::<Seq<u8>>::empty().push(u)
    } else {
        Seq::<Seq<u8>>::empty()
    });
    if u.len() > 0 {
        assert(Seq::<Seq<u8>>::empty().push(u) =~= seq![u]);
    }
}

/// Splitting a comma-free token off the front.
proof fn lemma_comma_tokens_nocomma(u: Seq<u8>)
    requires
        forall|j: int| 0 <= j < u.len() ==> u[j] != COMMA,
    ensures
        comma_tokens(u) == seq![u],
    decreases u.len(),
{
    if u.len() > 0 {
        assert(forall|j: int| 0 <= j < u.drop_first().len() ==> u.drop_first()[j] != COMMA);
        lemma_comma_tokens_nocomma(u.drop_first());
        let rest = comma_tokens(u.drop_first());
        assert(rest.drop_last() =~= Seq::<Seq<u8>>::empty());
        assert(seq![u[0]] + rest[0] =~= u);
        assert(rest.drop_first() =~= Seq::<Seq<u8>>::empty());
        assert(comma_tokens(u) =~= seq![u]);
    } else {
        assert(u =~= Seq::<u8>::empty());
        assert(comma_tokens(u) =~= seq![u]);
    }
}

/// The tokens of `<comma-free token>,<rest>` are the token followed by the
/// tokens of the rest.
proof fn lemma_comma_tokens_split(u: Seq<u8>, v: Seq<u8>)
    requires
        forall|j: int| 0 <= j < u.len() ==> u[j] != COMMA,
    ensures
        comma_tokens(u + seq![COMMA] + v) == seq![u] + comma_tokens(v),
    decreases u.len(),
{
    let w = u + seq![COMMA] + v;
    if u.len() == 0 {
        assert(w[0] == COMMA);
        assert(w.drop_first() =~= v);
        assert(u =~= Seq::<u8>::empty());
        assert(comma_tokens(w) =~= seq![u] + comma_tokens(v));
    } else {
        assert(w[0] == u[0] && w[0] != COMMA);
        assert(forall|j: int| 0 <= j < u.drop_first().len() ==> u.drop_first()[j] != COMMA);
        lemma_comma_tokens_split(u.drop_first(), v);
        assert(w.drop_first() =~= u.drop_first() + seq![COMMA] + v);
        let rest = comma_tokens(w.drop_first());
        assert(rest == seq![u.drop_first()] + comma_tokens(v));
        assert(rest[0] == u.drop_first());
        assert(seq![w[0]] + rest[0] =~= u);
        assert(rest.drop_first() =~= comma_tokens(v));
        assert(comma_tokens(w) =~= seq![u] + comma_tokens(v));
    }
}

/// The non-empty tokens of `<comma-free token>,<rest>`: the token when it is
/// non-empty, followed by the non-empty tokens of the rest.
proof fn lemma_nonempty_tokens_split(u: Seq<u8>, v: Seq<u8>)
    requires
        forall|j: int| 0 <= j < u.len() ==> u[j] != COMMA,
    ensures
        nonempty_tokens(u + seq![COMMA] + v) == (if u.len() > 0 {
            seq![u]
        } else {
            Seq::<Seq<u8>>::empty()
        }) + nonempty_tokens(v),
{
    lemma_comma_tokens_split(u, v);
    let pred = |t: Seq<u8>| t.len() > 0;
    Seq::filter_distributes_over_add(seq![u], comma_tokens(v), pred);
    reveal_with_fuel(Seq::filter, 3);
    assert(seq![u].drop_last() =~= Seq::<Seq<u8>>::empty());
    if u.len() > 0 {
        assert(seq![u].filter(pred) =~= seq![u]);
    } else {
        assert(seq![u].filter(pred) =~= Seq::<Seq<u8>>::empty());
    }
}

/// Splits a byte stream on `,`, skips empty tokens, and reads each remaining
/// token as a range: the `k`th result is the reading of the `k`th non-empty
/// token.
pub fn ranges_from_bytes(data: &[u8]) -> (out: Vec<Result<IdRange, IdRangeError>>)
    ensures
        out@.len() == nonempty_tokens(data@).len(),
        forall|k: int|
            0 <= k < out@.len() ==> byte_range_result_matches(
                nonempty_tokens(data@)[k],
                #[trigger] out@[k],
            ),
{
    let mut out: Vec<Result<IdRange, IdRangeError>> = Vec::new();
    let mut cur: Vec<u8> = Vec::new();
    let ghost mut done: Seq<Seq<u8>> = Seq::empty();
    let mut pos: usize = 0;
    proof {
        assert(cur@ + data@.skip(0) =~= data@);
        assert(done + nonempty_tokens(cur@ + data@.skip(0)) =~= nonempty_tokens(data@));
    }
    while pos < data.len()
        invariant
            0 <= pos <= data@.len(),
            forall|j: int| 0 <= j < cur@.len() ==> cur@[j] != COMMA,
            nonempty_tokens(data@) == done + nonempty_tokens(cur@ + data@.skip(pos as int)),
            out@.len() == done.len(),
            forall|k: int|
                0 <= k < done.len() ==> byte_range_result_matches(done[k], #[trigger] out@[k]),
        decreases data@.len() - pos,
    {
        let byte = data[pos];
        if byte == COMMA {
            let ghost tok = cur@;
            let ghost rest = data@.skip(pos as int + 1);
            proof {
                assert(cur@ + data@.skip(pos as int) =~= tok + seq![COMMA] + rest);
                lemma_nonempty_tokens_split(tok, rest);
            }
            if cur.len() > 0 {
                let r = IdRange::try_from_bytes(cur.as_slice());
                out.push(r);
                proof {
                    done = done + seq![tok];
                    assert(done.drop_last() =~= done.subrange(0, done.len() - 1));
                    assert((done.drop_last() + seq![tok]) + nonempty_tokens(rest)
                        =~= done.drop_last() + (seq![tok] + nonempty_tokens(rest)));
                }
            }
            cur = Vec::new();
            pos = pos + 1;
            proof {
                assert(cur@ + data@.skip(pos as int) =~= rest);
                if tok.len() == 0 {
                    assert(Seq::<Seq<u8>>::empty() + nonempty_tokens(rest) =~= nonempty_tokens(
                        rest,
                    ));
                }
            }
        } else {
            let ghost oldcur = cur@;
            cur.push(byte);
            pos = pos + 1;
            proof {
                assert(cur@ + data@.skip(pos as int) =~= oldcur + data@.skip(pos as int - 1));
            }
        }
    }
    proof {
        assert(cur@ + data@.skip(pos as int) =~= cur@);
        lemma_nonempty_tokens_single(cur@);
    }
    if cur.len() > 0 {
        let r = IdRange::try_from_bytes(cur.as_slice());
        out.push(r);
        proof {
            done = done + seq![cur@];
        }
    } else {
        proof {
            assert(done + Seq::<Seq<u8>>::empty() =~= done);
        }
    }
    out
}

/// The invalid IDs in `[lo, hi]`, in increasing order.
pub open spec fn invalid_ids_between(lo: int, hi: int) -> Seq<u64>
    decreases hi + 1 - lo,
{
    if lo > hi || lo < 0 || hi > u64::MAX {
        Seq::empty()
    } else if is_invalid_id(lo as u64) {
        seq![lo as u64] + invalid_ids_between(lo + 1, hi)
    } else {
        invalid_ids_between(lo + 1, hi)
    }
}

/// Extending a range on the right appends its last candidate, when invalid.
proof fn lemma_invalid_ids_between_snoc(lo: int, hi: int)
    requires
        0 <= lo <= hi <= u64::MAX,
    ensures
        invalid_ids_between(lo, hi) == invalid_ids_between(lo, hi - 1) + (if is_invalid_id(
            hi as u64,
        ) {
            seq![hi as u64]
        } else {
            Seq::<u64>::empty()
        }),
    decreases hi - lo,
{
    let tail = if is_invalid_id(hi as u64) {
        seq![hi as u64]
    } else {
        Seq::<u64>::empty()
    };
    if lo == hi {
        assert(invalid_ids_between(lo + 1, hi) =~= Seq::<u64>::empty());
        assert(invalid_ids_between(lo, hi - 1) =~= Seq::<u64>::empty());
        assert(invalid_ids_between(lo, hi) =~= tail);
        assert(invalid_ids_between(lo, hi - 1) + tail =~= tail);
    } else {
        lemma_invalid_ids_between_snoc(lo + 1, hi);
        if is_invalid_id(lo as u64) {
            assert(seq![lo as u64] + (invalid_ids_between(lo + 1, hi - 1) + tail) =~= (seq![
                lo as u64,
            ] + invalid_ids_between(lo + 1, hi - 1)) + tail);
        }
    }
}

/// Collects every invalid ID in `[range.min, range.max]`, in increasing
/// order; empty when the range is reversed.
pub fn naive_invalid_ids(range: &IdRange) -> (r: Vec<u64>)
    ensures
        r@ == invalid_ids_between(range.min as int, range.max as int),
{
    let mut invalids: Vec<u64> = Vec::new();
    if range.min > range.max {
        assert(invalids@ =~= invalid_ids_between(range.min as int, range.max as int));
        return invalids;
    }
    let mut id = range.min;
    proof {
        assert(invalids@ =~= invalid_ids_between(range.min as int, range.min as int - 1));
    }
    loop
        invariant_except_break
            range.min <= id <= range.max,
            invalids@ == invalid_ids_between(range.min as int, id as int - 1),
        ensures
            invalids@ == invalid_ids_between(range.min as int, range.max as int),
        decreases range.max - id,
    {
        if naive_invalid_id(id) {
            invalids.push(id);
        }
        proof {
            lemma_invalid_ids_between_snoc(range.min as int, id as int);
            if is_invalid_id(id) {
                assert(invalids@ =~= invalid_ids_between(range.min as int, id as int - 1) + seq![
                    id,
                ]);
            } else {
                assert(invalids@ =~= invalid_ids_between(range.min as int, id as int - 1)
                    + Seq::<u64>::empty());
            }
        }
        if id == range.max {
            break;
        }
        id = id + 1;
    }
    invalids
}

} // verus!
