//! The placeholder codec: reversible substitution of characters that are
//! unsafe for tokenization and indexing — non-ASCII characters, newlines,
//! tabs, and runs of two or more spaces — by printable escape sequences over
//! five reserved control bytes, and the reverse substitution.
use crate::b64::{b64_decode, b64_decode_exec, b64_encode, b64_encode_exec, is_b64_alpha, PAD_BYTE};
use crate::numfmt::{byte_is_digit, dec_digits, digits_val, format_usize, is_digit, parse_usize};
use crate::{B64_PREFIX, B64_SUFFIX, NEWLINE_ESCAPE, SPACE_ESCAPE, TAB_ESCAPE};
use vstd::prelude::*;
use vstd::string::StrSliceExecFns;
use vstd::utf8::*;

verus! {

/// Line-ending normalization: `\r\n` and lone `\r` both become `\n`.
pub open spec fn norm_newlines(s: Seq<u8>) -> Seq<u8>
    decreases s.len(),
{
    if s.len() == 0 {
        Seq::empty()
    } else if s[0] == 13 {
        if s.len() >= 2 && s[1] == 10 {
            seq![10u8] + norm_newlines(s.skip(2))
        } else {
            seq![10u8] + norm_newlines(s.skip(1))
        }
    } else {
        seq![s[0]] + norm_newlines(s.skip(1))
    }
}

/// Each non-ASCII character's UTF-8 bytes become a base64 span bracketed by
/// the reserved prefix and suffix bytes; ASCII bytes pass through. A byte
/// that does not open a valid character passes through as well, though on
/// valid UTF-8 input that case never arises.
pub open spec fn escape_non_ascii(s: Seq<u8>) -> Seq<u8>
    decreases s.len(),
{
    if s.len() == 0 {
        Seq::empty()
    } else if s[0] < 0x80 {
        seq![s[0]] + escape_non_ascii(s.skip(1))
    } else if valid_first_scalar(s) {
        seq![B64_PREFIX] + b64_encode(take_first_scalar(s)) + seq![B64_SUFFIX] + escape_non_ascii(
            pop_first_scalar(s),
        )
    } else {
        seq![s[0]] + escape_non_ascii(s.skip(1))
    }
}

/// The newline and tab substitution for one byte.
pub open spec fn escape_nl_tab_byte(b: u8) -> u8 {
    if b == 10 {
        NEWLINE_ESCAPE
    } else if b == 9 {
        TAB_ESCAPE
    } else {
        b
    }
}

/// Newlines and tabs become their reserved escape bytes.
pub open spec fn escape_nl_tab(s: Seq<u8>) -> Seq<u8> {
    s.map_values(|b: u8| escape_nl_tab_byte(b))
}

/// `k` literal space bytes.
pub open spec fn repeat_spaces(k: nat) -> Seq<u8> {
    Seq::new(k, |i| 32u8)
}

/// The escaped form of a run of `k` spaces: the reserved space escape, the
/// decimal run length, and the escape again.
pub open spec fn space_run_escaped(k: nat) -> Seq<u8> {
    seq![SPACE_ESCAPE] + dec_digits(k) + seq![SPACE_ESCAPE]
}

/// Runs of two or more spaces are escaped with their length, except runs
/// immediately followed by an ASCII digit, which stay literal; single spaces
/// stay literal.
pub open spec fn escape_spaces(s: Seq<u8>) -> Seq<u8>
    decreases s.len(), 0int,
{
    if s.len() == 0 {
        Seq::empty()
    } else if s[0] == 32 {
        escape_space_run(s.skip(1), 1)
    } else {
        seq![s[0]] + escape_spaces(s.skip(1))
    }
}

/// Continues a space run already `k` long: extends it over further spaces,
/// then decides between a literal single space, literal spaces before a
/// digit, and the escaped form.
pub open spec fn escape_space_run(s: Seq<u8>, k: nat) -> Seq<u8>
    decreases s.len(), 1int,
{
    if s.len() > 0 && s[0] == 32 {
        escape_space_run(s.skip(1), k + 1)
    } else {
        (if k == 1 {
            seq![32u8]
        } else if s.len() > 0 && is_digit(s[0]) {
            repeat_spaces(k)
        } else {
            space_run_escaped(k)
        }) + escape_spaces(s)
    }
}

/// The whole forward transform: normalize line endings, escape non-ASCII
/// characters, escape newlines and tabs, escape space runs.
pub open spec fn replace_spec(s: Seq<u8>) -> Seq<u8> {
    escape_spaces(escape_nl_tab(escape_non_ascii(norm_newlines(s))))
}

/// The UTF-8 bytes of the Unicode replacement character.
pub open spec fn fffd_bytes() -> Seq<u8> {
    seq![0xefu8, 0xbfu8, 0xbdu8]
}

/// True when the byte may stand in the interior of a base64 span: an
/// alphabet symbol or the padding byte.
pub open spec fn is_b64_span_byte(b: u8) -> bool {
    is_b64_alpha(b) || b == PAD_BYTE
}

/// Re-pads a base64 span to a multiple of four symbols.
pub open spec fn pad_b64(acc: Seq<u8>) -> Seq<u8> {
    acc + Seq::new(((4 - acc.len() % 4) % 4) as nat, |i| PAD_BYTE)
}

/// What a base64 span restores to: the decoded bytes when they decode and
/// form valid UTF-8, the replacement character otherwise.
pub open spec fn decoded_span(acc: Seq<u8>) -> Seq<u8> {
    match b64_decode(pad_b64(acc)) {
        Some(bs) => if valid_utf8(bs) {
            bs
        } else {
            fffd_bytes()
        },
        None => fffd_bytes(),
    }
}

/// Undoes the non-ASCII escapes: every span `prefix symbols suffix` is
/// decoded; a prefix byte that opens no such span stays literal.
pub open spec fn restore_b64(s: Seq<u8>) -> Seq<u8>
    decreases s.len(), 0int,
{
    if s.len() == 0 {
        Seq::empty()
    } else if s[0] == B64_PREFIX {
        restore_b64_span(s.skip(1), Seq::empty())
    } else {
        seq![s[0]] + restore_b64(s.skip(1))
    }
}

/// Scans the interior of a possible base64 span, `acc` holding the symbols
/// read so far after the opening prefix byte.
pub open spec fn restore_b64_span(s: Seq<u8>, acc: Seq<u8>) -> Seq<u8>
    decreases s.len(), 1int,
{
    if s.len() > 0 && is_b64_span_byte(s[0]) {
        restore_b64_span(s.skip(1), acc.push(s[0]))
    } else if s.len() > 0 && s[0] == B64_SUFFIX && acc.len() > 0 {
        decoded_span(acc) + restore_b64(s.skip(1))
    } else {
        seq![B64_PREFIX] + acc + restore_b64(s)
    }
}

/// The space count a digit sequence denotes, zero when it cannot be held in
/// a machine integer.
pub open spec fn space_count(ds: Seq<u8>) -> nat {
    if digits_val(ds) <= usize::MAX {
        digits_val(ds)
    } else {
        0
    }
}

/// Undoes the space-run escapes: every span `escape digits escape` becomes
/// that many literal spaces; an escape byte that opens no such span stays
/// literal.
pub open spec fn restore_spaces(s: Seq<u8>) -> Seq<u8>
    decreases s.len(), 0int,
{
    if s.len() == 0 {
        Seq::empty()
    } else if s[0] == SPACE_ESCAPE {
        restore_space_span(s.skip(1), Seq::empty())
    } else {
        seq![s[0]] + restore_spaces(s.skip(1))
    }
}

/// Scans the digits of a possible space-run span, `ds` holding the digits
/// read so far after the opening escape byte.
pub open spec fn restore_space_span(s: Seq<u8>, ds: Seq<u8>) -> Seq<u8>
    decreases s.len(), 1int,
{
    if s.len() > 0 && is_digit(s[0]) {
        restore_space_span(s.skip(1), ds.push(s[0]))
    } else if s.len() > 0 && s[0] == SPACE_ESCAPE && ds.len() > 0 {
        repeat_spaces(space_count(ds)) + restore_spaces(s.skip(1))
    } else {
        seq![SPACE_ESCAPE] + ds + restore_spaces(s)
    }
}

/// The newline and tab restoration for one byte.
pub open spec fn restore_nl_tab_byte(b: u8) -> u8 {
    if b == NEWLINE_ESCAPE {
        10
    } else if b == TAB_ESCAPE {
        9
    } else {
        b
    }
}

/// The escape bytes for newline and tab become the characters themselves.
pub open spec fn restore_nl_tab(s: Seq<u8>) -> Seq<u8> {
    s.map_values(|b: u8| restore_nl_tab_byte(b))
}

/// The whole reverse transform: undo the base64 escapes, then the space-run
/// escapes, then the newline and tab escapes.
pub open spec fn restore_spec(s: Seq<u8>) -> Seq<u8> {
    restore_nl_tab(restore_spaces(restore_b64(s)))
}

/// Normalizes line endings.
pub fn norm_exec(s: &[u8]) -> (r: Vec<u8>)
    ensures
        r@ == norm_newlines(s@),
{
    let mut out: Vec<u8> = Vec::new();
    let mut i: usize = 0;
    let len = s.len();
    proof {
        assert(s@.skip(0) =~= s@);
    }
    while i < len
        invariant
            i <= len,
            len == s@.len(),
            norm_newlines(s@) == out@ + norm_newlines(s@.skip(i as int)),
        decreases len - i,
    {
        let ghost t = s@.skip(i as int);
        let ghost o = out@;
        assert(t[0] == s@[i as int]);
        if s[i] == 13 {
            out.push(10);
            if i + 1 < len && s[i + 1] == 10 {
                assert(t[1] == s@[i as int + 1]);
                proof {
                    assert(t.skip(2) =~= s@.skip(i + 2));
                    assert(o + (seq![10u8] + norm_newlines(t.skip(2))) =~= out@ + norm_newlines(
                        t.skip(2),
                    ));
                }
                i = i + 2;
            } else {
                proof {
                    assert(t.skip(1) =~= s@.skip(i + 1));
                    assert(o + (seq![10u8] + norm_newlines(t.skip(1))) =~= out@ + norm_newlines(
                        t.skip(1),
                    ));
                }
                i = i + 1;
            }
        } else {
            out.push(s[i]);
            proof {
                assert(t.skip(1) =~= s@.skip(i + 1));
                assert(o + (seq![t[0]] + norm_newlines(t.skip(1))) =~= out@ + norm_newlines(
                    t.skip(1),
                ));
            }
            i = i + 1;
        }
    }
    proof {
        assert(s@.skip(len as int) =~= Seq::<u8>::empty());
        assert(out@ =~= out@ + norm_newlines(s@.skip(len as int)));
    }
    out
}

/// Escapes every non-ASCII character as a bracketed base64 span.
pub fn escape_non_ascii_exec(s: &[u8]) -> (r: Vec<u8>)
    requires
        valid_utf8(s@),
    ensures
        r@ == escape_non_ascii(s@),
{
    let mut out: Vec<u8> = Vec::new();
    let mut i: usize = 0;
    let len = s.len();
    proof {
        assert(s@.skip(0) =~= s@);
    }
    while i < len
        invariant
            i <= len,
            len == s@.len(),
            valid_utf8(s@.skip(i as int)),
            escape_non_ascii(s@) == out@ + escape_non_ascii(s@.skip(i as int)),
        decreases len - i,
    {
        let ghost t = s@.skip(i as int);
        let ghost o = out@;
        assert(t[0] == s@[i as int]);
        assert(valid_first_scalar(t));
        let b = s[i];
        if b < 0x80 {
            out.push(b);
            proof {
                assert(length_of_first_scalar(t) == 1);
                assert(t.skip(1) =~= pop_first_scalar(t));
                assert(t.skip(1) =~= s@.skip(i + 1));
                assert(o + (seq![t[0]] + escape_non_ascii(t.skip(1))) =~= out@ + escape_non_ascii(
                    t.skip(1),
                ));
            }
            i = i + 1;
        } else {
            let k: usize = if b <= 0xdf {
                2
            } else if b <= 0xef {
                3
            } else {
                4
            };
            assert(k == length_of_first_scalar(t));
            assert(i + k <= len);
            proof {
                assert(take_first_scalar(t) =~= s@.subrange(i as int, i + k));
                assert(pop_first_scalar(t) =~= s@.skip(i + k));
            }
            let piece = vstd::slice::slice_subrange(s, i, i + k);
            let mut enc = b64_encode_exec(piece);
            let ghost encv = enc@;
            out.push(B64_PREFIX);
            out.append(&mut enc);
            out.push(B64_SUFFIX);
            proof {
                assert(out@ =~= o + seq![B64_PREFIX] + encv + seq![B64_SUFFIX]);
                assert(o + (seq![B64_PREFIX] + b64_encode(take_first_scalar(t)) + seq![B64_SUFFIX]
                    + escape_non_ascii(pop_first_scalar(t))) =~= out@ + escape_non_ascii(
                    s@.skip(i + k),
                ));
            }
            i = i + k;
        }
    }
    proof {
        assert(s@.skip(len as int) =~= Seq::<u8>::empty());
        assert(out@ =~= out@ + escape_non_ascii(s@.skip(len as int)));
    }
    out
}

/// Replaces newlines and tabs by their escape bytes.
pub fn escape_nl_tab_exec(s: &[u8]) -> (r: Vec<u8>)
    ensures
        r@ == escape_nl_tab(s@),
{
    let mut out: Vec<u8> = Vec::new();
    let len = s.len();
    for i in 0..len
        invariant
            len == s@.len(),
            out@.len() == i,
            forall|j: int| 0 <= j < i ==> out@[j] == escape_nl_tab_byte(s@[j]),
    {
        let b = s[i];
        if b == 10 {
            out.push(NEWLINE_ESCAPE);
        } else if b == 9 {
            out.push(TAB_ESCAPE);
        } else {
            out.push(b);
        }
    }
    proof {
        assert(out@ =~= escape_nl_tab(s@));
    }
    out
}

/// Escapes runs of two or more spaces not followed by a digit.
pub fn escape_spaces_exec(s: &[u8]) -> (r: Vec<u8>)
    ensures
        r@ == escape_spaces(s@),
{
    let mut out: Vec<u8> = Vec::new();
    let mut i: usize = 0;
    let len = s.len();
    proof {
        assert(s@.skip(0) =~= s@);
    }
    while i < len
        invariant
            i <= len,
            len == s@.len(),
            escape_spaces(s@) == out@ + escape_spaces(s@.skip(i as int)),
        decreases len - i,
    {
        let ghost t = s@.skip(i as int);
        let ghost o = out@;
        assert(t[0] == s@[i as int]);
        let b = s[i];
        if b != 32 {
            out.push(b);
            proof {
                assert(t.skip(1) =~= s@.skip(i + 1));
                assert(o + (seq![t[0]] + escape_spaces(t.skip(1))) =~= out@ + escape_spaces(
                    t.skip(1),
                ));
            }
            i = i + 1;
        } else {
            let mut j = i + 1;
            proof {
                assert(t.skip(1) =~= s@.skip(i + 1));
            }
            while j < len && s[j] == 32
                invariant
                    i < j <= len,
                    len == s@.len(),
                    escape_spaces(s@.skip(i as int)) == escape_space_run(
                        s@.skip(j as int),
                        (j - i) as nat,
                    ),
                decreases len - j,
            {
                proof {
                    assert(s@.skip(j as int)[0] == s@[j as int]);
                    assert(s@.skip(j as int).skip(1) =~= s@.skip(j + 1));
                }
                j = j + 1;
            }
            let k = j - i;
            let ghost u = s@.skip(j as int);
            proof {
                if j < len {
                    assert(u[0] == s@[j as int]);
                }
                assert(!(u.len() > 0 && u[0] == 32));
            }
            if k == 1 {
                out.push(32);
                proof {
                    assert(o + (seq![32u8] + escape_spaces(u)) =~= out@ + escape_spaces(u));
                }
            } else if j < len && byte_is_digit(s[j]) {
                let mut c: usize = 0;
                while c < k
                    invariant
                        c <= k,
                        out@ == o + repeat_spaces(c as nat),
                    decreases k - c,
                {
                    out.push(32);
                    proof {
                        assert(o + repeat_spaces((c + 1) as nat) =~= (o + repeat_spaces(
                            c as nat,
                        )).push(32));
                    }
                    c = c + 1;
                }
                proof {
                    assert(o + (repeat_spaces(k as nat) + escape_spaces(u)) =~= out@
                        + escape_spaces(u));
                }
            } else {
                out.push(SPACE_ESCAPE);
                let mut d = format_usize(k);
                let ghost dv = d@;
                out.append(&mut d);
                out.push(SPACE_ESCAPE);
                proof {
                    assert(out@ =~= o + seq![SPACE_ESCAPE] + dv + seq![SPACE_ESCAPE]);
                    assert(o + (space_run_escaped(k as nat) + escape_spaces(u)) =~= out@
                        + escape_spaces(u));
                }
            }
            i = j;
        }
    }
    proof {
        assert(s@.skip(len as int) =~= Seq::<u8>::empty());
        assert(out@ =~= out@ + escape_spaces(s@.skip(len as int)));
    }
    out
}

/// Whether a byte may stand in the interior of a base64 span.
pub fn byte_is_b64_span(b: u8) -> (r: bool)
    ensures
        r == is_b64_span_byte(b),
{
    (65 <= b && b <= 90) || (97 <= b && b <= 122) || (48 <= b && b <= 57) || b == 43 || b == 47 || b
        == PAD_BYTE
}

/// Pushes the replacement character's bytes.
fn push_fffd(out: &mut Vec<u8>)
    ensures
        final(out)@ == old(out)@ + fffd_bytes(),
{
    let ghost o = out@;
    out.push(0xef);
    out.push(0xbf);
    out.push(0xbd);
    proof {
        assert(out@ =~= o + fffd_bytes());
    }
}

/// Undoes the base64 escapes.
pub fn restore_b64_exec(s: &[u8]) -> (r: Vec<u8>)
    ensures
        r@ == restore_b64(s@),
{
    let mut out: Vec<u8> = Vec::new();
    let mut i: usize = 0;
    let len = s.len();
    proof {
        assert(s@.skip(0) =~= s@);
    }
    while i < len
        invariant
            i <= len,
            len == s@.len(),
            restore_b64(s@) == out@ + restore_b64(s@.skip(i as int)),
        decreases len - i,
    {
        let ghost t = s@.skip(i as int);
        let ghost o = out@;
        assert(t[0] == s@[i as int]);
        let b = s[i];
        if b != B64_PREFIX {
            out.push(b);
            proof {
                assert(t.skip(1) =~= s@.skip(i + 1));
                assert(o + (seq![t[0]] + restore_b64(t.skip(1))) =~= out@ + restore_b64(t.skip(1)));
            }
            i = i + 1;
        } else {
            let mut j = i + 1;
            proof {
                assert(t.skip(1) =~= s@.skip(i + 1));
                assert(s@.subrange(i + 1, i + 1) =~= Seq::<u8>::empty());
            }
            while j < len && byte_is_b64_span(s[j])
                invariant
                    i + 1 <= j <= len,
                    len == s@.len(),
                    restore_b64(s@.skip(i as int)) == restore_b64_span(
                        s@.skip(j as int),
                        s@.subrange(i + 1, j as int),
                    ),
                decreases len - j,
            {
                proof {
                    assert(s@.skip(j as int)[0] == s@[j as int]);
                    assert(s@.skip(j as int).skip(1) =~= s@.skip(j + 1));
                    assert(s@.subrange(i + 1, j as int).push(s@[j as int]) =~= s@.subrange(
                        i + 1,
                        j + 1,
                    ));
                }
                j = j + 1;
            }
            let ghost u = s@.skip(j as int);
            let ghost acc = s@.subrange(i + 1, j as int);
            proof {
                if j < len {
                    assert(u[0] == s@[j as int]);
                }
                assert(!(u.len() > 0 && is_b64_span_byte(u[0])));
            }
            if j < len && s[j] == B64_SUFFIX && j > i + 1 {
                // a complete span: re-pad and decode it
                let span = vstd::slice::slice_subrange(s, i + 1, j);
                let mut padded = vstd::slice::slice_to_vec(span);
                let padn = (4 - padded.len() % 4) % 4;
                let ghost p0 = padded@;
                let mut c: usize = 0;
                while c < padn
                    invariant
                        c <= padn,
                        padded@ == p0 + Seq::new(c as nat, |x| PAD_BYTE),
                    decreases padn - c,
                {
                    padded.push(PAD_BYTE);
                    proof {
                        assert(p0 + Seq::new((c + 1) as nat, |x| PAD_BYTE) =~= (p0 + Seq::new(
                            c as nat,
                            |x| PAD_BYTE,
                        )).push(PAD_BYTE));
                    }
                    c = c + 1;
                }
                proof {
                    assert(padded@ =~= pad_b64(acc));
                }
                match b64_decode_exec(padded.as_slice()) {
                    Some(mut bs) => {
                        if crate::utf8x::utf8_is_valid(bs.as_slice()) {
                            let ghost bv = bs@;
                            out.append(&mut bs);
                            proof {
                                assert(out@ =~= o + bv);
                            }
                        } else {
                            push_fffd(&mut out);
                        }
                    },
                    None => {
                        push_fffd(&mut out);
                    },
                }
                proof {
                    assert(u.skip(1) =~= s@.skip(j + 1));
                    assert(o + (decoded_span(acc) + restore_b64(u.skip(1))) =~= out@ + restore_b64(
                        u.skip(1),
                    ));
                }
                i = j + 1;
            } else {
                // no span: the prefix byte and the symbols stay literal
                out.push(B64_PREFIX);
                let span = vstd::slice::slice_subrange(s, i + 1, j);
                let mut accv = vstd::slice::slice_to_vec(span);
                out.append(&mut accv);
                proof {
                    assert(out@ =~= o + seq![B64_PREFIX] + acc);
                    assert(o + (seq![B64_PREFIX] + acc + restore_b64(u)) =~= out@ + restore_b64(u));
                }
                i = j;
            }
        }
    }
    proof {
        assert(s@.skip(len as int) =~= Seq::<u8>::empty());
        assert(out@ =~= out@ + restore_b64(s@.skip(len as int)));
    }
    out
}

/// Undoes the space-run escapes.
pub fn restore_spaces_exec(s: &[u8]) -> (r: Vec<u8>)
    ensures
        r@ == restore_spaces(s@),
{
    let mut out: Vec<u8> = Vec::new();
    let mut i: usize = 0;
    let len = s.len();
    proof {
        assert(s@.skip(0) =~= s@);
    }
    while i < len
        invariant
            i <= len,
            len == s@.len(),
            restore_spaces(s@) == out@ + restore_spaces(s@.skip(i as int)),
        decreases len - i,
    {
        let ghost t = s@.skip(i as int);
        let ghost o = out@;
        assert(t[0] == s@[i as int]);
        let b = s[i];
        if b != SPACE_ESCAPE {
            out.push(b);
            proof {
                assert(t.skip(1) =~= s@.skip(i + 1));
                assert(o + (seq![t[0]] + restore_spaces(t.skip(1))) =~= out@ + restore_spaces(
                    t.skip(1),
                ));
            }
            i = i + 1;
        } else {
            let mut j = i + 1;
            proof {
                assert(t.skip(1) =~= s@.skip(i + 1));
                assert(s@.subrange(i + 1, i + 1) =~= Seq::<u8>::empty());
            }
            while j < len && byte_is_digit(s[j])
                invariant
                    i + 1 <= j <= len,
                    len == s@.len(),
                    forall|x: int| i + 1 <= x < j ==> is_digit(#[trigger] s@[x]),
                    restore_spaces(s@.skip(i as int)) == restore_space_span(
                        s@.skip(j as int),
                        s@.subrange(i + 1, j as int),
                    ),
                decreases len - j,
            {
                proof {
                    assert(s@.skip(j as int)[0] == s@[j as int]);
                    assert(s@.skip(j as int).skip(1) =~= s@.skip(j + 1));
                    assert(s@.subrange(i + 1, j as int).push(s@[j as int]) =~= s@.subrange(
                        i + 1,
                        j + 1,
                    ));
                }
                j = j + 1;
            }
            let ghost u = s@.skip(j as int);
            let ghost ds = s@.subrange(i + 1, j as int);
            proof {
                if j < len {
                    assert(u[0] == s@[j as int]);
                }
                assert(!(u.len() > 0 && is_digit(u[0])));
            }
            if j < len && s[j] == SPACE_ESCAPE && j > i + 1 {
                // a complete span: that many literal spaces
                let span = vstd::slice::slice_subrange(s, i + 1, j);
                proof {
                    assert(ds.len() > 0);
                    assert(forall|x: int|
                        0 <= x < ds.len() ==> is_digit(#[trigger] ds[x]) && ds[x] == s@[i + 1 + x]);
                }
                let n = match parse_usize(span) {
                    Some(v) => v,
                    None => 0,
                };
                assert(n == space_count(ds));
                let mut c: usize = 0;
                while c < n
                    invariant
                        c <= n,
                        out@ == o + repeat_spaces(c as nat),
                    decreases n - c,
                {
                    out.push(32);
                    proof {
                        assert(o + repeat_spaces((c + 1) as nat) =~= (o + repeat_spaces(
                            c as nat,
                        )).push(32));
                    }
                    c = c + 1;
                }
                proof {
                    assert(u.skip(1) =~= s@.skip(j + 1));
                    assert(o + (repeat_spaces(space_count(ds)) + restore_spaces(u.skip(1))) =~= out@
                        + restore_spaces(u.skip(1)));
                }
                i = j + 1;
            } else {
                // no span: the escape byte and the digits stay literal
                out.push(SPACE_ESCAPE);
                let span = vstd::slice::slice_subrange(s, i + 1, j);
                let mut dsv = vstd::slice::slice_to_vec(span);
                out.append(&mut dsv);
                proof {
                    assert(out@ =~= o + seq![SPACE_ESCAPE] + ds);
                    assert(o + (seq![SPACE_ESCAPE] + ds + restore_spaces(u)) =~= out@
                        + restore_spaces(u));
                }
                i = j;
            }
        }
    }
    proof {
        assert(s@.skip(len as int) =~= Seq::<u8>::empty());
        assert(out@ =~= out@ + restore_spaces(s@.skip(len as int)));
    }
    out
}

/// Restores newlines and tabs from their escape bytes.
pub fn restore_nl_tab_exec(s: &[u8]) -> (r: Vec<u8>)
    ensures
        r@ == restore_nl_tab(s@),
{
    let mut out: Vec<u8> = Vec::new();
    let len = s.len();
    for i in 0..len
        invariant
            len == s@.len(),
            out@.len() == i,
            forall|j: int| 0 <= j < i ==> out@[j] == restore_nl_tab_byte(s@[j]),
    {
        let b = s[i];
        if b == NEWLINE_ESCAPE {
            out.push(10);
        } else if b == TAB_ESCAPE {
            out.push(9);
        } else {
            out.push(b);
        }
    }
    proof {
        assert(out@ =~= restore_nl_tab(s@));
    }
    out
}

/// The forward transform on raw bytes.
pub fn replace_bytes(s: &[u8]) -> (r: Vec<u8>)
    requires
        valid_utf8(s@),
    ensures
        r@ == replace_spec(s@),
{
    let n = norm_exec(s);
    proof {
        crate::roundtrip::lemma_norm_preserves_utf8(s@);
    }
    let e = escape_non_ascii_exec(n.as_slice());
    let nl = escape_nl_tab_exec(e.as_slice());
    escape_spaces_exec(nl.as_slice())
}

/// The reverse transform on raw bytes.
pub fn restore_bytes(s: &[u8]) -> (r: Vec<u8>)
    ensures
        r@ == restore_spec(s@),
{
    let b = restore_b64_exec(s);
    let sp = restore_spaces_exec(b.as_slice());
    restore_nl_tab_exec(sp.as_slice())
}

/// Replaces non-ASCII characters, newlines, tabs, and runs of two or more
/// spaces not followed by a digit with placeholder escape sequences, after
/// normalizing line endings. The result is pure ASCII.
pub fn replace_special_chars(input: &str) -> (r: String)
    ensures
        encode_utf8(r@) == replace_spec(encode_utf8(input@)),
{
    broadcast use vstd::utf8::group_utf8_lib;

    let bytes = input.as_bytes_vec();
    let out = replace_bytes(bytes.as_slice());
    proof {
        crate::roundtrip::lemma_replace_ascii(encode_utf8(input@));
        crate::roundtrip::lemma_ascii_valid(out@);
    }
    match crate::strings::string_from_utf8(out) {
        Some(s) => s,
        None => vstd::pervasive::unreached(),
    }
}

/// Restores the placeholder escapes back into their original characters:
/// base64 spans first, then space runs, then newlines and tabs.
pub fn restore_special_chars(input: &str) -> (r: String)
    ensures
        encode_utf8(r@) == restore_spec(encode_utf8(input@)),
{
    broadcast use vstd::utf8::group_utf8_lib;

    let bytes = input.as_bytes_vec();
    let out = restore_bytes(bytes.as_slice());
    proof {
        crate::roundtrip::lemma_restore_valid(encode_utf8(input@));
    }
    match crate::strings::string_from_utf8(out) {
        Some(s) => s,
        None => vstd::pervasive::unreached(),
    }
}

} // verus!
