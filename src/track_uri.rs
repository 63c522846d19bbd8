//! Track URIs of the form `<scheme>:track:<id>`, where `<id>` is a base-62
//! numeral of a 128-bit track identifier; canonical identifiers have 22
//! digits.
//!
//! All statements are made over the UTF-8 bytes of the URI. The separator `:`
//! is ASCII, and no byte of a multi-byte UTF-8 sequence equals it, so splitting
//! the bytes on `:` splits the text on `:`.
use vstd::prelude::*;
use vstd::string::StringSliceAdditionalSpecFns;

verus! {

/// The byte `:`.
pub const COLON: u8 = 58;

/// Number of base-62 digits in the canonical encoding of a track identifier.
pub const TRACK_ID_DIGITS: usize = 22;

/// A validated track identifier: the 128-bit number a track URI names.
#[derive(Clone, Copy, Debug, PartialEq, Eq, Structural)]
pub struct TrackId {
    pub id: u128,
}

/// The URI has the shape of a track URI, but its identifier segment is not a
/// base-62 numeral of a 128-bit number.
#[derive(Clone, Copy, Debug, PartialEq, Eq, Structural)]
pub struct MalformedTrackId;

/// The segments of `b` between the separators `:`, as `str::split(':')` gives
/// them: `n` separators give `n + 1` segments, some of which may be empty.
pub open spec fn split_colons(b: Seq<u8>) -> Seq<Seq<u8>>
    decreases b.len(),
{
    if b.len() == 0 {
        seq![Seq::empty()]
    } else {
        let init = split_colons(b.drop_last());
        if b.last() == COLON {
            init.push(Seq::empty())
        } else {
            init.update(init.len() - 1, init.last().push(b.last()))
        }
    }
}

/// The bytes of the word `track`.
pub open spec fn track_word() -> Seq<u8> {
    seq![116u8, 114u8, 97u8, 99u8, 107u8]
}

/// `0`-`9`, `a`-`z` and `A`-`Z` are the base-62 digits.
pub open spec fn is_base62_digit(c: u8) -> bool {
    (48 <= c <= 57) || (97 <= c <= 122) || (65 <= c <= 90)
}

/// The value of a base-62 digit: `0`-`9` count 0 to 9, `a`-`z` 10 to 35 and
/// `A`-`Z` 36 to 61.
pub open spec fn digit_value(c: u8) -> nat {
    if 48 <= c <= 57 {
        (c - 48) as nat
    } else if 97 <= c <= 122 {
        (c - 97 + 10) as nat
    } else if 65 <= c <= 90 {
        (c - 65 + 36) as nat
    } else {
        0
    }
}

/// The digit whose value is `d`, for `d < 62`.
pub open spec fn digit_char(d: nat) -> u8 {
    if d < 10 {
        (48 + d) as u8
    } else if d < 36 {
        (97 + d - 10) as u8
    } else {
        (65 + d - 36) as u8
    }
}

pub open spec fn is_base62_numeral(s: Seq<u8>) -> bool {
    forall|i: int| 0 <= i < s.len() ==> is_base62_digit(#[trigger] s[i])
}

/// The number that a base-62 numeral denotes, most significant digit first.
pub open spec fn base62_value(s: Seq<u8>) -> nat
    decreases s.len(),
{
    if s.len() == 0 {
        0
    } else {
        base62_value(s.drop_last()) * 62 + digit_value(s.last())
    }
}

/// The `width` lowest base-62 digits of `n`, most significant first, padded
/// with `0`.
pub open spec fn base62_encode(n: nat, width: nat) -> Seq<u8>
    decreases width,
{
    if width == 0 {
        Seq::empty()
    } else {
        base62_encode(n / 62, (width - 1) as nat).push(digit_char(n % 62))
    }
}

/// A well-formed track identifier: base-62 digits, any number of them (none
/// stands for 0), whose value fits in 128 bits.
pub open spec fn is_track_id(s: Seq<u8>) -> bool {
    &&& is_base62_numeral(s)
    &&& base62_value(s) <= u128::MAX
}

/// Whether `b` is a track URI at all: exactly three segments, of which the
/// middle one is `track`.
pub open spec fn is_track_shaped(b: Seq<u8>) -> bool {
    let segs = split_colons(b);
    segs.len() == 3 && segs[1] == track_word()
}

/// The meaning of a URI: no track reference when it is not track-shaped, the
/// track when its identifier is well formed, and an error otherwise.
pub open spec fn parse_track_uri(b: Seq<u8>) -> Result<Option<TrackId>, MalformedTrackId> {
    if !is_track_shaped(b) {
        Ok(None)
    } else if is_track_id(split_colons(b)[2]) {
        Ok(Some(TrackId { id: base62_value(split_colons(b)[2]) as u128 }))
    } else {
        Err(MalformedTrackId)
    }
}

/// The value of a numeral is at least that of each of its prefixes.
proof fn lemma_prefix_value_le(s: Seq<u8>, k: int)
    requires
        0 <= k <= s.len(),
    ensures
        base62_value(s.subrange(0, k)) <= base62_value(s),
    decreases s.len(),
{
    if k < s.len() {
        lemma_prefix_value_le(s.drop_last(), k);
        assert(s.drop_last().subrange(0, k) =~= s.subrange(0, k));
    } else {
        assert(s.subrange(0, k) =~= s);
    }
}

/// A numeral is the encoding of its own value, at its own width.
proof fn lemma_encode_value(s: Seq<u8>)
    requires
        is_base62_numeral(s),
    ensures
        base62_encode(base62_value(s), s.len()) == s,
    decreases s.len(),
{
    if s.len() > 0 {
        let t = s.drop_last();
        let c = s.last();
        assert(is_base62_digit(s[s.len() - 1]));
        assert(is_base62_numeral(t)) by {
            assert forall|i: int| 0 <= i < t.len() implies is_base62_digit(#[trigger] t[i]) by {
                assert(t[i] == s[i]);
            }
        }
        lemma_encode_value(t);
        let v = base62_value(s);
        assert(v == base62_value(t) * 62 + digit_value(c));
        assert(digit_value(c) < 62);
        vstd::arithmetic::div_mod::lemma_fundamental_div_mod_converse(
            v as int,
            62,
            base62_value(t) as int,
            digit_value(c) as int,
        );
        assert(digit_char(digit_value(c)) == c);
        assert(base62_encode(v, s.len()) =~= t.push(c));
        assert(t.push(c) =~= s);
    }
}

/// The track that a URI names encodes back to the URI's identifier segment,
/// at that segment's width; a canonical 22-digit identifier is thus the
/// canonical encoding of its track.
pub proof fn lemma_track_id_round_trip(b: Seq<u8>, t: TrackId)
    requires
        parse_track_uri(b) == Ok::<Option<TrackId>, MalformedTrackId>(Some(t)),
    ensures
        base62_encode(t.id as nat, split_colons(b)[2].len()) == split_colons(b)[2],
        split_colons(b)[2].len() == TRACK_ID_DIGITS ==> base62_encode(
            t.id as nat,
            TRACK_ID_DIGITS as nat,
        ) == split_colons(b)[2],
{
    lemma_encode_value(split_colons(b)[2]);
}

/// A URI without exactly three segments, or whose middle segment is not
/// `track`, is no track reference, and that is not an error.
pub proof fn lemma_other_shapes_are_not_tracks(b: Seq<u8>)
    requires
        split_colons(b).len() != 3 || split_colons(b)[1] != track_word(),
    ensures
        parse_track_uri(b) == Ok::<Option<TrackId>, MalformedTrackId>(None),
{
}

/// A track-shaped URI whose identifier holds a byte that is no base-62 digit
/// is a malformed identifier, told apart from a URI that is no track URI.
pub proof fn lemma_corrupt_id_is_malformed(b: Seq<u8>, i: int)
    requires
        is_track_shaped(b),
        0 <= i < split_colons(b)[2].len(),
        !is_base62_digit(split_colons(b)[2][i]),
    ensures
        parse_track_uri(b) == Err::<Option<TrackId>, MalformedTrackId>(MalformedTrackId),
{
}

/// The value of the base-62 digit `c`, if it is one.
fn base62_digit(c: u8) -> (r: Option<u8>)
    ensures
        r == (if is_base62_digit(c) {
            Some(digit_value(c) as u8)
        } else {
            None::<u8>
        }),
{
    if 48 <= c && c <= 57 {
        Some(c - 48)
    } else if 97 <= c && c <= 122 {
        Some(c - 97 + 10)
    } else if 65 <= c && c <= 90 {
        Some(c - 65 + 36)
    } else {
        None
    }
}

/// Decodes the track identifier that occupies `b[start..]`, if it is one.
pub fn decode_track_id(b: &[u8], start: usize) -> (r: Option<u128>)
    requires
        start <= b@.len(),
    ensures
        r == (if is_track_id(b@.subrange(start as int, b@.len() as int)) {
            Some(base62_value(b@.subrange(start as int, b@.len() as int)) as u128)
        } else {
            None::<u128>
        }),
{
    let ghost s = b@.subrange(start as int, b@.len() as int);
    let mut v: u128 = 0;
    let mut j: usize = start;
    while j < b.len()
        invariant
            start <= j <= b@.len(),
            s == b@.subrange(start as int, b@.len() as int),
            is_base62_numeral(s.subrange(0, j - start)),
            v == base62_value(s.subrange(0, j - start)),
        decreases b@.len() - j,
    {
        let ghost k = j - start;
        assert(s.subrange(0, k + 1).drop_last() =~= s.subrange(0, k));
        let d = match base62_digit(b[j]) {
            Some(d) => d,
            None => {
                assert(!is_base62_digit(s[k]));
                return None;
            },
        };
        let m = match v.checked_mul(62) {
            Some(m) => m,
            None => {
                proof {
                    if is_base62_numeral(s) {
                        lemma_prefix_value_le(s, k + 1);
                    }
                }
                return None;
            },
        };
        v = match m.checked_add(d as u128) {
            Some(x) => x,
            None => {
                proof {
                    if is_base62_numeral(s) {
                        lemma_prefix_value_le(s, k + 1);
                    }
                }
                return None;
            },
        };
        j = j + 1;
        proof {
            assert forall|i: int| 0 <= i < k + 1 implies is_base62_digit(
                #[trigger] s.subrange(0, k + 1)[i],
            ) by {
                if i < k {
                    assert(s.subrange(0, k + 1)[i] == s.subrange(0, k)[i]);
                }
            }
        }
    }
    assert(s.subrange(0, s.len() as int) =~= s);
    Some(v)
}

/// Parses a track URI such as `spotify:track:7lmeHLHBe4nmXzuXc0HDjk`.
///
/// `Ok(None)`: the URI is not a track URI (not three segments, or the middle
/// one is not `track`). `Err`: it is one, but its identifier is corrupt.
pub fn track_id_from_spotify_uri(uri: &str) -> (r: Result<Option<TrackId>, MalformedTrackId>)
    ensures
        r == parse_track_uri(uri.spec_bytes()),
{
    let b = uri.as_bytes();
    let ghost all = b@;
    let mut colons: usize = 0;
    let mut first: usize = 0;
    let mut second: usize = 0;
    let mut i: usize = 0;
    while i < b.len()
        invariant
            b@ == all,
            0 <= i <= all.len(),
            colons <= i,
            split_colons(all.subrange(0, i as int)).len() == colons + 1,
            colons >= 1 ==> first < i && split_colons(all.subrange(0, i as int))[1]
                == all.subrange(first + 1, if colons >= 2 {
                second as int
            } else {
                i as int
            }),
            colons >= 2 ==> first < second < i,
            colons == 2 ==> split_colons(all.subrange(0, i as int))[2] == all.subrange(
                second + 1,
                i as int,
            ),
        decreases all.len() - i,
    {
        let ghost prev = split_colons(all.subrange(0, i as int));
        proof {
            assert(all.subrange(0, i + 1).drop_last() =~= all.subrange(0, i as int));
            assert(all.subrange(0, i + 1).last() == all[i as int]);
        }
        if b[i] == COLON {
            if colons == 0 {
                first = i;
            } else if colons == 1 {
                second = i;
            }
            colons = colons + 1;
            proof {
                let cur = split_colons(all.subrange(0, i + 1));
                assert(cur == prev.push(Seq::empty()));
                if colons == 1 {
                    assert(all.subrange(first + 1, i + 1) =~= Seq::<u8>::empty());
                }
                if colons == 3 {
                    assert(cur[1] == prev[1]);
                }
                if colons == 2 {
                    assert(all.subrange(second + 1, i + 1) =~= Seq::<u8>::empty());
                    assert(cur[1] == prev[1]);
                }
            }
        } else {
            proof {
                let cur = split_colons(all.subrange(0, i + 1));
                assert(cur == prev.update(prev.len() - 1, prev.last().push(all[i as int])));
                if colons == 1 {
                    assert(all.subrange(first + 1, i + 1) =~= all.subrange(
                        first + 1,
                        i as int,
                    ).push(all[i as int]));
                }
                if colons == 2 {
                    assert(all.subrange(second + 1, i + 1) =~= all.subrange(
                        second + 1,
                        i as int,
                    ).push(all[i as int]));
                }
            }
        }
        i = i + 1;
    }
    proof {
        assert(all.subrange(0, all.len() as int) =~= all);
    }
    if colons != 2 {
        return Ok(None);
    }
    let is_track = second - first == 6 && b[first + 1] == 116 && b[first + 2] == 114 && b[
        first + 3] == 97 && b[first + 4] == 99 && b[first + 5] == 107;
    proof {
        let mid = split_colons(all)[1];
        if is_track {
            assert(mid =~= track_word());
        } else if mid == track_word() {
            assert(mid.len() == 5);
            assert(mid[0] == 116 && mid[1] == 114 && mid[2] == 97 && mid[3] == 99 && mid[4]
                == 107);
        }
    }
    if !is_track {
        return Ok(None);
    }
    match decode_track_id(b, second + 1) {
        Some(id) => Ok(Some(TrackId { id })),
        None => Err(MalformedTrackId),
    }
}

} // verus!
