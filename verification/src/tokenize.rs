//! The tokenizer: splits placeholder-escaped text into atomic tokens with a
//! fixed lexical grammar, first matching alternative wins. Runs of digits;
//! runs of word characters; HTML-style named entities; a whole base64 escape
//! span; a whole space-run escape span; each single-byte control escape; a
//! single space; any other single non-word, non-space character. Whitespace
//! other than a space matches no alternative and yields no token.
use crate::codec::{byte_is_b64_span, is_b64_span_byte};
use crate::numfmt::{byte_is_digit, is_digit};
use crate::{B64_PREFIX, B64_SUFFIX, SPACE_ESCAPE};
use vstd::prelude::*;
use vstd::utf8::{encode_utf8, is_ascii_chars_encode_utf8};

verus! {

/// True for the word characters: digits, letters, and the underscore.
pub open spec fn is_word_byte(b: u8) -> bool {
    is_digit(b) || (65 <= b && b <= 90) || (97 <= b && b <= 122) || b == 95
}

/// True for ASCII whitespace.
pub open spec fn is_ws_byte(b: u8) -> bool {
    b == 9 || b == 10 || b == 11 || b == 12 || b == 13 || b == 32
}

/// True for a lowercase letter, the interior of a named entity.
pub open spec fn is_lower_byte(b: u8) -> bool {
    97 <= b && b <= 122
}

/// How many leading bytes of the sequence satisfy the predicate.
pub open spec fn leading_count(s: Seq<u8>, p: spec_fn(u8) -> bool) -> nat
    decreases s.len(),
{
    if s.len() > 0 && p(s[0]) {
        1 + leading_count(s.skip(1), p)
    } else {
        0
    }
}

/// The leading run is exactly the satisfying bytes before the first other
/// byte.
pub proof fn lemma_leading_count_facts(s: Seq<u8>, p: spec_fn(u8) -> bool)
    ensures
        leading_count(s, p) <= s.len(),
        forall|i: int| 0 <= i < leading_count(s, p) ==> p(#[trigger] s[i]),
        leading_count(s, p) < s.len() ==> !p(s[leading_count(s, p) as int]),
    decreases s.len(),
{
    if s.len() > 0 && p(s[0]) {
        lemma_leading_count_facts(s.skip(1), p);
        assert forall|i: int| 0 <= i < leading_count(s, p) implies p(#[trigger] s[i]) by {
            if i > 0 {
                assert(s.skip(1)[i - 1] == s[i]);
            }
        }
        if leading_count(s, p) < s.len() {
            assert(s.skip(1)[leading_count(s, p) - 1] == s[leading_count(s, p) as int]);
        }
    }
}

/// A scanned stretch pins the leading count down.
pub proof fn lemma_leading_count_determined(s: Seq<u8>, p: spec_fn(u8) -> bool, n: int)
    requires
        0 <= n <= s.len(),
        forall|i: int| 0 <= i < n ==> p(#[trigger] s[i]),
        n == s.len() || !p(s[n]),
    ensures
        leading_count(s, p) == n,
    decreases n,
{
    if n == 0 {
        if s.len() > 0 {
            assert(!p(s[0]));
        }
    } else {
        assert(p(s[0]));
        assert forall|i: int| 0 <= i < n - 1 implies p(#[trigger] s.skip(1)[i]) by {
            assert(s.skip(1)[i] == s[i + 1]);
        }
        if n - 1 < s.skip(1).len() {
            assert(s.skip(1)[n - 1] == s[n]);
        }
        lemma_leading_count_determined(s.skip(1), p, n - 1);
    }
}

/// The ordered token grammar over escaped text bytes.
pub open spec fn tokenize_spec(s: Seq<u8>) -> Seq<Seq<u8>>
    decreases s.len(),
{
    if s.len() == 0 {
        Seq::empty()
    } else {
        let b = s[0];
        if is_digit(b) {
            let k = vstd::math::min(
                leading_count(s, |x: u8| is_digit(x)) as int,
                s.len() as int,
            );
            seq![s.take(k)] + tokenize_spec(s.skip(k))
        } else if is_word_byte(b) {
            let k = vstd::math::min(
                leading_count(s, |x: u8| is_word_byte(x)) as int,
                s.len() as int,
            );
            seq![s.take(k)] + tokenize_spec(s.skip(k))
        } else if b == 38 {
            let lr = leading_count(s.skip(1), |x: u8| is_lower_byte(x)) as int;
            if lr >= 1 && 1 + lr < s.len() && s[1 + lr] == 59 {
                seq![s.take(2 + lr)] + tokenize_spec(s.skip(2 + lr))
            } else {
                seq![s.take(1)] + tokenize_spec(s.skip(1))
            }
        } else if b == B64_PREFIX {
            let m = leading_count(s.skip(1), |x: u8| is_b64_span_byte(x)) as int;
            if m >= 1 && 1 + m < s.len() && s[1 + m] == B64_SUFFIX {
                seq![s.take(2 + m)] + tokenize_spec(s.skip(2 + m))
            } else {
                seq![s.take(1)] + tokenize_spec(s.skip(1))
            }
        } else if b == SPACE_ESCAPE {
            let d = leading_count(s.skip(1), |x: u8| is_digit(x)) as int;
            if d >= 1 && 1 + d < s.len() && s[1 + d] == SPACE_ESCAPE {
                seq![s.take(2 + d)] + tokenize_spec(s.skip(2 + d))
            } else {
                seq![s.take(1)] + tokenize_spec(s.skip(1))
            }
        } else if b == 32 {
            seq![s.take(1)] + tokenize_spec(s.skip(1))
        } else if is_ws_byte(b) {
            tokenize_spec(s.skip(1))
        } else {
            seq![s.take(1)] + tokenize_spec(s.skip(1))
        }
    }
}

/// The concatenation of a sequence of byte sequences.
pub open spec fn concat_all(ts: Seq<Seq<u8>>) -> Seq<u8>
    decreases ts.len(),
{
    if ts.len() == 0 {
        Seq::empty()
    } else {
        ts[0] + concat_all(ts.drop_first())
    }
}

/// Concatenation peels its first piece.
pub proof fn lemma_concat_all_cons(t: Seq<u8>, rest: Seq<Seq<u8>>)
    ensures
        concat_all(seq![t] + rest) == t + concat_all(rest),
{
    let ts = seq![t] + rest;
    assert(ts[0] == t);
    assert(ts.drop_first() =~= rest);
}

/// Every token the grammar yields is nonempty.
pub proof fn lemma_tokenize_nonempty(s: Seq<u8>)
    ensures
        forall|i: int|
            0 <= i < tokenize_spec(s).len() ==> #[trigger] tokenize_spec(s)[i].len() >= 1,
    decreases s.len(),
{
    if s.len() == 0 {
    } else {
        let ts = tokenize_spec(s);
        let b = s[0];
        if is_digit(b) {
            lemma_leading_count_facts(s, |x: u8| is_digit(x));
            let k = vstd::math::min(leading_count(s, |x: u8| is_digit(x)) as int, s.len() as int);
            lemma_tokenize_nonempty(s.skip(k));
            assert forall|i: int| 0 <= i < ts.len() implies #[trigger] ts[i].len() >= 1 by {
                if i > 0 {
                    assert(ts[i] == tokenize_spec(s.skip(k))[i - 1]);
                }
            }
        } else if is_word_byte(b) {
            lemma_leading_count_facts(s, |x: u8| is_word_byte(x));
            let k = vstd::math::min(
                leading_count(s, |x: u8| is_word_byte(x)) as int,
                s.len() as int,
            );
            lemma_tokenize_nonempty(s.skip(k));
            assert forall|i: int| 0 <= i < ts.len() implies #[trigger] ts[i].len() >= 1 by {
                if i > 0 {
                    assert(ts[i] == tokenize_spec(s.skip(k))[i - 1]);
                }
            }
        } else if is_ws_byte(b) && b != 32 {
            lemma_tokenize_nonempty(s.skip(1));
            assert(ts == tokenize_spec(s.skip(1)));
        } else {
            let k: int = if b == 38 {
                let lr = leading_count(s.skip(1), |x: u8| is_lower_byte(x)) as int;
                if lr >= 1 && 1 + lr < s.len() && s[1 + lr] == 59 {
                    2 + lr
                } else {
                    1
                }
            } else if b == B64_PREFIX {
                let m = leading_count(s.skip(1), |x: u8| is_b64_span_byte(x)) as int;
                if m >= 1 && 1 + m < s.len() && s[1 + m] == B64_SUFFIX {
                    2 + m
                } else {
                    1
                }
            } else if b == SPACE_ESCAPE {
                let d = leading_count(s.skip(1), |x: u8| is_digit(x)) as int;
                if d >= 1 && 1 + d < s.len() && s[1 + d] == SPACE_ESCAPE {
                    2 + d
                } else {
                    1
                }
            } else {
                1
            };
            lemma_tokenize_nonempty(s.skip(k));
            assert(ts == seq![s.take(k)] + tokenize_spec(s.skip(k)));
            assert forall|i: int| 0 <= i < ts.len() implies #[trigger] ts[i].len() >= 1 by {
                if i > 0 {
                    assert(ts[i] == tokenize_spec(s.skip(k))[i - 1]);
                } else {
                    assert(ts[0] == s.take(k));
                }
            }
        }
    }
}

/// Every byte of every token is a byte of the input.
pub proof fn lemma_tokenize_bytes_from(s: Seq<u8>)
    ensures
        forall|i: int, j: int|
            0 <= i < tokenize_spec(s).len() && 0 <= j < tokenize_spec(s)[i].len() ==> exists|x: int|
                0 <= x < s.len() && #[trigger] tokenize_spec(s)[i][j] == s[x],
    decreases s.len(),
{
    if s.len() == 0 {
    } else {
        let ts = tokenize_spec(s);
        let b = s[0];
        let k: int = if is_digit(b) {
            vstd::math::min(leading_count(s, |x: u8| is_digit(x)) as int, s.len() as int)
        } else if is_word_byte(b) {
            vstd::math::min(leading_count(s, |x: u8| is_word_byte(x)) as int, s.len() as int)
        } else if b == 38 {
            let lr = leading_count(s.skip(1), |x: u8| is_lower_byte(x)) as int;
            if lr >= 1 && 1 + lr < s.len() && s[1 + lr] == 59 {
                2 + lr
            } else {
                1
            }
        } else if b == B64_PREFIX {
            let m = leading_count(s.skip(1), |x: u8| is_b64_span_byte(x)) as int;
            if m >= 1 && 1 + m < s.len() && s[1 + m] == B64_SUFFIX {
                2 + m
            } else {
                1
            }
        } else if b == SPACE_ESCAPE {
            let d = leading_count(s.skip(1), |x: u8| is_digit(x)) as int;
            if d >= 1 && 1 + d < s.len() && s[1 + d] == SPACE_ESCAPE {
                2 + d
            } else {
                1
            }
        } else {
            1
        };
        lemma_tokenize_bytes_from(s.skip(k));
        lemma_tokenize_bytes_from(s.skip(1));
        assert forall|i: int, j: int|
            0 <= i < ts.len() && 0 <= j < ts[i].len() implies exists|x: int|
            0 <= x < s.len() && #[trigger] ts[i][j] == s[x] by {
            if is_ws_byte(b) && b != 32 {
                assert(ts == tokenize_spec(s.skip(1)));
                let x0 = choose|x: int|
                    0 <= x < s.skip(1).len() && tokenize_spec(s.skip(1))[i][j] == s.skip(1)[x];
                assert(ts[i][j] == s[x0 + 1]);
            } else {
                assert(ts == seq![s.take(k)] + tokenize_spec(s.skip(k)));
                if i == 0 {
                    assert(ts[0] == s.take(k));
                    assert(ts[0][j] == s[j]);
                } else {
                    assert(ts[i] == tokenize_spec(s.skip(k))[i - 1]);
                    let x0 = choose|x: int|
                        0 <= x < s.skip(k).len() && tokenize_spec(s.skip(k))[i - 1][j] == s.skip(
                            k,
                        )[x];
                    assert(ts[i][j] == s[x0 + k]);
                }
            }
        }
    }
}

/// Whether a byte is a word character.
fn byte_is_word(b: u8) -> (r: bool)
    ensures
        r == is_word_byte(b),
{
    byte_is_digit(b) || (65 <= b && b <= 90) || (97 <= b && b <= 122) || b == 95
}

/// Splits escaped text bytes into the grammar's tokens.
pub fn tokenize_bytes(s: &[u8]) -> (r: Vec<Vec<u8>>)
    ensures
        r@.len() == tokenize_spec(s@).len(),
        forall|i: int| 0 <= i < r@.len() ==> #[trigger] r@[i]@ == tokenize_spec(s@)[i],
{
    let mut r: Vec<Vec<u8>> = Vec::new();
    let ghost mut done: Seq<Seq<u8>> = Seq::empty();
    let mut i: usize = 0;
    let len = s.len();
    proof {
        assert(s@.skip(0) =~= s@);
        assert(done + tokenize_spec(s@) =~= tokenize_spec(s@));
    }
    while i < len
        invariant
            i <= len,
            len == s@.len(),
            r@.len() == done.len(),
            forall|x: int| 0 <= x < done.len() ==> #[trigger] r@[x]@ == done[x],
            tokenize_spec(s@) == done + tokenize_spec(s@.skip(i as int)),
        decreases len - i,
    {
        let ghost t = s@.skip(i as int);
        let ghost d0 = done;
        assert(t[0] == s@[i as int]);
        let b = s[i];
        // find the end of this token, or none for skipped whitespace
        let mut tok_end: usize = i + 1;
        let mut emit: bool = true;
        if byte_is_digit(b) {
            let mut j = i + 1;
            while j < len && byte_is_digit(s[j])
                invariant
                    i < j <= len,
                    len == s@.len(),
                    forall|x: int| i <= x < j ==> is_digit(#[trigger] s@[x]),
                decreases len - j,
            {
                j = j + 1;
            }
            proof {
                assert forall|x: int| 0 <= x < j - i implies (|y: u8| is_digit(y))(
                    #[trigger] t[x],
                ) by {
                    assert(t[x] == s@[i + x]);
                }
                if j < len {
                    assert(t[j - i] == s@[j as int]);
                }
                lemma_leading_count_determined(t, |y: u8| is_digit(y), j - i);
            }
            tok_end = j;
        } else if byte_is_word(b) {
            let mut j = i + 1;
            while j < len && byte_is_word(s[j])
                invariant
                    i < j <= len,
                    len == s@.len(),
                    forall|x: int| i <= x < j ==> is_word_byte(#[trigger] s@[x]),
                decreases len - j,
            {
                j = j + 1;
            }
            proof {
                assert forall|x: int| 0 <= x < j - i implies (|y: u8| is_word_byte(y))(
                    #[trigger] t[x],
                ) by {
                    assert(t[x] == s@[i + x]);
                }
                if j < len {
                    assert(t[j - i] == s@[j as int]);
                }
                lemma_leading_count_determined(t, |y: u8| is_word_byte(y), j - i);
            }
            tok_end = j;
        } else if b == 38 {
            let mut j = i + 1;
            while j < len && 97 <= s[j] && s[j] <= 122
                invariant
                    i < j <= len,
                    len == s@.len(),
                    forall|x: int| i + 1 <= x < j ==> is_lower_byte(#[trigger] s@[x]),
                decreases len - j,
            {
                j = j + 1;
            }
            proof {
                assert forall|x: int| 0 <= x < j - i - 1 implies (|y: u8| is_lower_byte(y))(
                    #[trigger] t.skip(1)[x],
                ) by {
                    assert(t.skip(1)[x] == s@[i + 1 + x]);
                }
                if j < len {
                    assert(t.skip(1)[j - i - 1] == s@[j as int]);
                }
                lemma_leading_count_determined(t.skip(1), |y: u8| is_lower_byte(y), j - i - 1);
                if j < len {
                    assert(t[1 + (j - i - 1)] == s@[j as int]);
                }
            }
            if j > i + 1 && j < len && s[j] == 59 {
                tok_end = j + 1;
            }
        } else if b == B64_PREFIX {
            let mut j = i + 1;
            while j < len && byte_is_b64_span(s[j])
                invariant
                    i < j <= len,
                    len == s@.len(),
                    forall|x: int| i + 1 <= x < j ==> is_b64_span_byte(#[trigger] s@[x]),
                decreases len - j,
            {
                j = j + 1;
            }
            proof {
                assert forall|x: int| 0 <= x < j - i - 1 implies (|y: u8| is_b64_span_byte(y))(
                    #[trigger] t.skip(1)[x],
                ) by {
                    assert(t.skip(1)[x] == s@[i + 1 + x]);
                }
                if j < len {
                    assert(t.skip(1)[j - i - 1] == s@[j as int]);
                }
                lemma_leading_count_determined(t.skip(1), |y: u8| is_b64_span_byte(y), j - i - 1);
                if j < len {
                    assert(t[1 + (j - i - 1)] == s@[j as int]);
                }
            }
            if j > i + 1 && j < len && s[j] == B64_SUFFIX {
                tok_end = j + 1;
            }
        } else if b == SPACE_ESCAPE {
            let mut j = i + 1;
            while j < len && byte_is_digit(s[j])
                invariant
                    i < j <= len,
                    len == s@.len(),
                    forall|x: int| i + 1 <= x < j ==> is_digit(#[trigger] s@[x]),
                decreases len - j,
            {
                j = j + 1;
            }
            proof {
                assert forall|x: int| 0 <= x < j - i - 1 implies (|y: u8| is_digit(y))(
                    #[trigger] t.skip(1)[x],
                ) by {
                    assert(t.skip(1)[x] == s@[i + 1 + x]);
                }
                if j < len {
                    assert(t.skip(1)[j - i - 1] == s@[j as int]);
                }
                lemma_leading_count_determined(t.skip(1), |y: u8| is_digit(y), j - i - 1);
                if j < len {
                    assert(t[1 + (j - i - 1)] == s@[j as int]);
                }
            }
            if j > i + 1 && j < len && s[j] == SPACE_ESCAPE {
                tok_end = j + 1;
            }
        } else if b == 9 || b == 10 || b == 11 || b == 12 || b == 13 {
            emit = false;
        }
        if emit {
            let tok = vstd::slice::slice_to_vec(vstd::slice::slice_subrange(s, i, tok_end));
            r.push(tok);
            proof {
                let k = tok_end - i;
                assert(t.take(k as int) =~= s@.subrange(i as int, tok_end as int));
                assert(tokenize_spec(t) == seq![t.take(k as int)] + tokenize_spec(
                    t.skip(k as int),
                ));
                done = done.push(t.take(k as int));
                assert(d0 + (seq![t.take(k as int)] + tokenize_spec(t.skip(k as int))) =~= done
                    + tokenize_spec(t.skip(k as int)));
                assert(t.skip(k as int) =~= s@.skip(i + k));
            }
        } else {
            proof {
                assert(tokenize_spec(t) == tokenize_spec(t.skip(1)));
                assert(t.skip(1) =~= s@.skip(i + 1));
            }
        }
        i = tok_end;
    }
    proof {
        assert(s@.skip(len as int) =~= Seq::<u8>::empty());
        assert(done + tokenize_spec(s@.skip(len as int)) =~= done);
    }
    r
}

/// Splits ASCII text into the tokens of the grammar, as owned strings.
pub fn tokenize_text(text: &str) -> (r: Vec<String>)
    requires
        text.is_ascii(),
    ensures
        r@.len() == tokenize_spec(encode_utf8(text@)).len(),
        forall|i: int|
            0 <= i < r@.len() ==> encode_utf8(#[trigger] r@[i]@) == tokenize_spec(
                encode_utf8(text@),
            )[i],
{
    broadcast use vstd::utf8::group_utf8_lib;

    let bytes = vstd::string::StrSliceExecFns::as_bytes_vec(text);
    proof {
        is_ascii_chars_encode_utf8(text@);
        assert forall|x: int| 0 <= x < bytes@.len() implies #[trigger] bytes@[x] < 0x80 by {
            assert(bytes@[x] == text@[x] as u8);
            assert(text@[x] <= '\u{7f}');
        }
        lemma_tokenize_bytes_from(bytes@);
    }
    let toks = tokenize_bytes(bytes.as_slice());
    let mut r: Vec<String> = Vec::new();
    let n = toks.len();
    for ti in 0..n
        invariant
            n == toks@.len(),
            toks@.len() == tokenize_spec(bytes@).len(),
            forall|i: int| 0 <= i < toks@.len() ==> #[trigger] toks@[i]@ == tokenize_spec(bytes@)[i],
            forall|i: int, j: int|
                0 <= i < tokenize_spec(bytes@).len() && 0 <= j < tokenize_spec(bytes@)[i].len()
                    ==> exists|x: int|
                    0 <= x < bytes@.len() && #[trigger] tokenize_spec(bytes@)[i][j] == bytes@[x],
            forall|x: int| 0 <= x < bytes@.len() ==> #[trigger] bytes@[x] < 0x80,
            bytes@ == encode_utf8(text@),
            r@.len() == ti,
            forall|i: int|
                0 <= i < ti ==> encode_utf8(#[trigger] r@[i]@) == tokenize_spec(bytes@)[i],
    {
        let tok = vstd::slice::slice_to_vec(toks[ti].as_slice());
        proof {
            assert(tok@ == tokenize_spec(bytes@)[ti as int]);
            assert forall|j: int| 0 <= j < tok@.len() implies #[trigger] tok@[j] < 0x80 by {
                let x = choose|x: int|
                    0 <= x < bytes@.len() && tokenize_spec(bytes@)[ti as int][j] == bytes@[x];
                assert(tok@[j] == bytes@[x]);
            }
            crate::roundtrip::lemma_ascii_valid(tok@);
        }
        let ghost tokv = tok@;
        match crate::strings::string_from_utf8(tok) {
            Some(st) => {
                proof {
                    vstd::utf8::decode_utf8_encode_utf8(tokv);
                    assert(encode_utf8(st@) == tokv);
                }
                r.push(st);
            },
            None => {
                proof {
                    assert(false);
                }
            },
        }
    }
    r
}

/// On text without tabs, newlines, carriage returns, or the vertical
/// whitespace bytes, the tokens concatenate back to the text itself.
pub proof fn lemma_tokenize_concat(s: Seq<u8>)
    requires
        forall|i: int| 0 <= i < s.len() ==> !(is_ws_byte(#[trigger] s[i]) && s[i] != 32),
    ensures
        concat_all(tokenize_spec(s)) == s,
    decreases s.len(),
{
    if s.len() == 0 {
    } else {
        let ts = tokenize_spec(s);
        let b = s[0];
        let k: int = if is_digit(b) {
            vstd::math::min(leading_count(s, |x: u8| is_digit(x)) as int, s.len() as int)
        } else if is_word_byte(b) {
            vstd::math::min(leading_count(s, |x: u8| is_word_byte(x)) as int, s.len() as int)
        } else if b == 38 {
            let lr = leading_count(s.skip(1), |x: u8| is_lower_byte(x)) as int;
            if lr >= 1 && 1 + lr < s.len() && s[1 + lr] == 59 {
                2 + lr
            } else {
                1
            }
        } else if b == B64_PREFIX {
            let m = leading_count(s.skip(1), |x: u8| is_b64_span_byte(x)) as int;
            if m >= 1 && 1 + m < s.len() && s[1 + m] == B64_SUFFIX {
                2 + m
            } else {
                1
            }
        } else if b == SPACE_ESCAPE {
            let d = leading_count(s.skip(1), |x: u8| is_digit(x)) as int;
            if d >= 1 && 1 + d < s.len() && s[1 + d] == SPACE_ESCAPE {
                2 + d
            } else {
                1
            }
        } else {
            1
        };
        assert(!(is_ws_byte(b) && b != 32));
        assert(1 <= k <= s.len()) by {
            if is_digit(b) {
                lemma_leading_count_facts(s, |x: u8| is_digit(x));
            } else if is_word_byte(b) {
                lemma_leading_count_facts(s, |x: u8| is_word_byte(x));
            }
        }
        assert forall|i: int| 0 <= i < s.skip(k).len() implies !(is_ws_byte(#[trigger] s.skip(k)[i])
            && s.skip(k)[i] != 32) by {
            assert(s.skip(k)[i] == s[i + k]);
        }
        lemma_tokenize_concat(s.skip(k));
        assert(ts == seq![s.take(k)] + tokenize_spec(s.skip(k)));
        lemma_concat_all_cons(s.take(k), tokenize_spec(s.skip(k)));
        assert(s.take(k) + s.skip(k) =~= s);
    }
}

} // verus!
