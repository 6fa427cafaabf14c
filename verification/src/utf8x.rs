//! Verified UTF-8 boundary scanning: finding the longest valid prefix of a
//! byte stream and classifying what dangles behind it, so that chunk cuts
//! never land inside a character.
use vstd::prelude::*;
use vstd::utf8::*;

verus! {

/// True when the bytes are a (possibly empty) proper prefix of the UTF-8
/// encoding of a single scalar: what may legitimately dangle at the end of a
/// read when a character straddles the read boundary.
pub open spec fn can_extend(s: Seq<u8>) -> bool {
    if s.len() == 0 {
        true
    } else if s.len() == 1 {
        0xc2 <= s[0] && s[0] <= 0xf4
    } else if s.len() == 2 {
        (0xe0 <= s[0] && s[0] <= 0xef && second_byte_ok_3(s[0], s[1])) || (0xf0 <= s[0] && s[0]
            <= 0xf4 && second_byte_ok_4(s[0], s[1]))
    } else if s.len() == 3 {
        0xf0 <= s[0] && s[0] <= 0xf4 && second_byte_ok_4(s[0], s[1]) && is_continuation_byte(s[2])
    } else {
        false
    }
}

/// True when `b1` may follow `b0` in a three-byte encoding without producing
/// an overlong encoding or a surrogate.
pub open spec fn second_byte_ok_3(b0: u8, b1: u8) -> bool {
    if b0 == 0xe0 {
        0xa0 <= b1 && b1 <= 0xbf
    } else if b0 == 0xed {
        0x80 <= b1 && b1 <= 0x9f
    } else {
        is_continuation_byte(b1)
    }
}

/// True when `b1` may follow `b0` in a four-byte encoding without leaving the
/// Unicode scalar range or producing an overlong encoding.
pub open spec fn second_byte_ok_4(b0: u8, b1: u8) -> bool {
    if b0 == 0xf0 {
        0x90 <= b1 && b1 <= 0xbf
    } else if b0 == 0xf4 {
        0x80 <= b1 && b1 <= 0x8f
    } else {
        is_continuation_byte(b1)
    }
}

/// Where a byte stream splits into its longest valid UTF-8 prefix and a
/// dangling incomplete character: `Some(p)` puts the boundary at `p` with an
/// extendable remainder, `None` means the stream is invalid however it would
/// be extended.
pub open spec fn split_point(s: Seq<u8>) -> Option<int>
    decreases s.len(),
{
    if can_extend(s) {
        Some(0)
    } else if s.len() > 0 && s[0] < 0x80 {
        match split_point(s.skip(1)) {
            Some(p) => Some(1 + p),
            None => None,
        }
    } else if valid_first_scalar(s) {
        match split_point(pop_first_scalar(s)) {
            Some(p) => Some(length_of_first_scalar(s) + p),
            None => None,
        }
    } else {
        None
    }
}

/// A nonempty dangling character prefix is not itself valid UTF-8.
pub proof fn lemma_can_extend_not_valid(s: Seq<u8>)
    requires
        can_extend(s),
        s.len() > 0,
    ensures
        !valid_utf8(s),
{
    if valid_utf8(s) {
        assert(valid_first_scalar(s));
    }
}

/// A valid UTF-8 stream splits at its own end, with nothing dangling.
pub proof fn lemma_split_point_of_valid(s: Seq<u8>)
    requires
        valid_utf8(s),
    ensures
        split_point(s) == Some(s.len() as int),
    decreases s.len(),
{
    if s.len() == 0 {
    } else {
        if can_extend(s) {
            lemma_can_extend_not_valid(s);
        }
        assert(valid_first_scalar(s));
        if s[0] < 0x80 {
            assert(length_of_first_scalar(s) == 1);
            assert(pop_first_scalar(s) =~= s.skip(1));
            lemma_split_point_of_valid(s.skip(1));
        } else {
            lemma_split_point_of_valid(pop_first_scalar(s));
        }
    }
}

/// What a split point yields: a valid prefix and an extendable remainder.
pub proof fn lemma_split_point_some(s: Seq<u8>, p: int)
    requires
        split_point(s) == Some(p),
    ensures
        0 <= p <= s.len(),
        valid_utf8(s.take(p)),
        can_extend(s.skip(p)),
    decreases s.len(),
{
    broadcast use vstd::utf8::group_utf8_lib;

    if can_extend(s) {
        assert(s.take(0) =~= Seq::<u8>::empty());
        assert(s.skip(0) =~= s);
    } else if s.len() > 0 && s[0] < 0x80 {
        let q = (p - 1) as int;
        lemma_split_point_some(s.skip(1), q);
        assert(valid_first_scalar(s.take(p))) by {
            assert(s.take(p)[0] == s[0]);
        }
        assert(pop_first_scalar(s.take(p)) =~= s.skip(1).take(q));
        assert(s.skip(p) =~= s.skip(1).skip(q));
    } else {
        assert(valid_first_scalar(s));
        let k = length_of_first_scalar(s);
        let q = (p - k) as int;
        lemma_split_point_some(pop_first_scalar(s), q);
        assert(valid_utf8(s.take(p))) by {
            assert(valid_utf8(s.take(k))) by {
                reveal_with_fuel(valid_utf8, 2);
                assert(s.take(k) =~= take_first_scalar(s));
                assert(valid_first_scalar(s.take(k))) by {
                    assert(s.take(k)[0] == s[0]);
                    if s.len() >= 2 && k >= 2 {
                        assert(s.take(k)[1] == s[1]);
                    }
                    if s.len() >= 3 && k >= 3 {
                        assert(s.take(k)[2] == s[2]);
                    }
                    if s.len() >= 4 && k >= 4 {
                        assert(s.take(k)[3] == s[3]);
                    }
                }
                assert(pop_first_scalar(s.take(k)) =~= Seq::<u8>::empty());
            }
            assert(valid_utf8(pop_first_scalar(s).take(q)));
            valid_utf8_concat(s.take(k), pop_first_scalar(s).take(q));
            assert(s.take(k) + pop_first_scalar(s).take(q) =~= s.take(p));
        }
        assert(s.skip(p) =~= pop_first_scalar(s).skip(q));
    }
}

/// Whether the at most three bytes of `s` from `i` on form a dangling
/// character prefix.
fn can_extend_exec(s: &[u8], i: usize) -> (r: bool)
    requires
        i <= s@.len(),
        s@.len() - i <= 3,
    ensures
        r == can_extend(s@.skip(i as int)),
{
    let rem = s.len() - i;
    let t = Ghost(s@.skip(i as int));
    if rem == 0 {
        true
    } else {
        let b0 = s[i];
        assert(t@[0] == s@[i as int]);
        if rem == 1 {
            0xc2 <= b0 && b0 <= 0xf4
        } else {
            let b1 = s[i + 1];
            assert(t@[1] == s@[i as int + 1]);
            let ok3 = if b0 == 0xe0 {
                0xa0 <= b1 && b1 <= 0xbf
            } else if b0 == 0xed {
                0x80 <= b1 && b1 <= 0x9f
            } else {
                0x80 <= b1 && b1 <= 0xbf
            };
            let ok4 = if b0 == 0xf0 {
                0x90 <= b1 && b1 <= 0xbf
            } else if b0 == 0xf4 {
                0x80 <= b1 && b1 <= 0x8f
            } else {
                0x80 <= b1 && b1 <= 0xbf
            };
            if rem == 2 {
                (0xe0 <= b0 && b0 <= 0xef && ok3) || (0xf0 <= b0 && b0 <= 0xf4 && ok4)
            } else {
                let b2 = s[i + 2];
                assert(t@[2] == s@[i as int + 2]);
                0xf0 <= b0 && b0 <= 0xf4 && ok4 && 0x80 <= b2 && b2 <= 0xbf
            }
        }
    }
}

/// Scans a byte stream for its longest valid UTF-8 prefix. Returns the
/// boundary and `true` when the remainder is only a dangling character
/// prefix, or the position of the offending byte and `false` when the stream
/// is invalid beyond repair.
pub fn utf8_split_point(s: &[u8]) -> (r: (usize, bool))
    ensures
        split_point(s@) == if r.1 {
            Some(r.0 as int)
        } else {
            None::<int>
        },
        r.0 <= s@.len(),
{
    let len = s.len();
    let mut i: usize = 0;
    proof {
        assert(s@.skip(0) =~= s@);
    }
    loop
        invariant
            i <= len,
            len == s@.len(),
            split_point(s@) == match split_point(s@.skip(i as int)) {
                Some(p) => Some(i + p),
                None => None::<int>,
            },
        decreases len - i,
    {
        let ghost t = s@.skip(i as int);
        let rem = len - i;
        if rem <= 3 {
            if can_extend_exec(s, i) {
                return (i, true);
            }
            if rem == 0 {
                assert(can_extend(t));
                return (i, true);
            }
        }
        assert(t.len() == rem && rem > 0);
        assert(!can_extend(t)) by {
            if rem > 3 {
            }
        }
        let b0 = s[i];
        assert(t[0] == s@[i as int]);
        if b0 < 0x80 {
            proof {
                assert(t.skip(1) =~= s@.skip(i + 1));
            }
            i = i + 1;
        } else {
            // decide the advertised width from the leading byte
            let w: usize = if 0xc0 <= b0 && b0 <= 0xdf {
                2
            } else if 0xe0 <= b0 && b0 <= 0xef {
                3
            } else if 0xf0 <= b0 && b0 <= 0xf7 {
                4
            } else {
                // a stray continuation byte or an impossible leading byte
                assert(!valid_first_scalar(t));
                return (i, false);
            };
            if w > len - i {
                assert(!valid_first_scalar(t));
                return (i, false);
            }
            let b1 = s[i + 1];
            assert(t[1] == s@[i as int + 1]);
            if !(0x80 <= b1 && b1 <= 0xbf) {
                assert(!valid_first_scalar(t));
                return (i, false);
            }
            if w == 2 {
                let cp: u32 = (((b0 & 0x1f) as u32) << 6) | ((b1 & 0x3f) as u32);
                assert(cp == codepoint_width_2(t[0], t[1]));
                if !(cp >= 0x80) {
                    assert(!valid_first_scalar(t));
                    return (i, false);
                }
                assert(cp <= 0x7ff) by (bit_vector)
                    requires
                        cp == ((((b0 & 0x1f) as u32) << 6) | ((b1 & 0x3f) as u32)),
                ;
                assert(valid_first_scalar(t));
                assert(length_of_first_scalar(t) == 2);
                proof {
                    assert(pop_first_scalar(t) =~= s@.skip(i + 2));
                }
                i = i + 2;
            } else {
                let b2 = s[i + 2];
                assert(t[2] == s@[i as int + 2]);
                if !(0x80 <= b2 && b2 <= 0xbf) {
                    assert(!valid_first_scalar(t));
                    return (i, false);
                }
                if w == 3 {
                    let cp: u32 = (((b0 & 0x0f) as u32) << 12) | (((b1 & 0x3f) as u32) << 6) | ((b2
                        & 0x3f) as u32);
                    assert(cp == codepoint_width_3(t[0], t[1], t[2]));
                    if !(cp >= 0x800 && !(0xd800 <= cp && cp <= 0xdfff)) {
                        assert(!valid_first_scalar(t));
                        return (i, false);
                    }
                    assert(valid_first_scalar(t));
                    assert(length_of_first_scalar(t) == 3);
                    proof {
                        assert(pop_first_scalar(t) =~= s@.skip(i + 3));
                    }
                    i = i + 3;
                } else {
                    let b3 = s[i + 3];
                    assert(t[3] == s@[i as int + 3]);
                    if !(0x80 <= b3 && b3 <= 0xbf) {
                        assert(!valid_first_scalar(t));
                        return (i, false);
                    }
                    let cp: u32 = (((b0 & 0x07) as u32) << 18) | (((b1 & 0x3f) as u32) << 12) | (((
                    b2 & 0x3f) as u32) << 6) | ((b3 & 0x3f) as u32);
                    assert(cp == codepoint_width_4(t[0], t[1], t[2], t[3]));
                    if !(cp >= 0x10000 && cp <= 0x10ffff) {
                        assert(!valid_first_scalar(t));
                        return (i, false);
                    }
                    assert(valid_first_scalar(t));
                    assert(length_of_first_scalar(t) == 4);
                    proof {
                        assert(pop_first_scalar(t) =~= s@.skip(i + 4));
                    }
                    i = i + 4;
                }
            }
        }
    }
}

/// Whether the bytes form a valid UTF-8 encoding.
pub fn utf8_is_valid(s: &[u8]) -> (r: bool)
    ensures
        r == valid_utf8(s@),
{
    let (p, ok) = utf8_split_point(s);
    proof {
        if valid_utf8(s@) {
            lemma_split_point_of_valid(s@);
        }
        if ok {
            lemma_split_point_some(s@, p as int);
            if p == s@.len() {
                assert(s@.take(p as int) =~= s@);
            } else {
                assert(s@.skip(p as int).len() > 0);
                lemma_can_extend_not_valid(s@.skip(p as int));
            }
        }
    }
    ok && p == s.len()
}

} // verus!
