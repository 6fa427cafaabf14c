//! Proofs that the reverse transform undoes the forward transform: the
//! stage-by-stage inverse and commutation lemmas, and the codec round trip.
use crate::b64::{b64_decode, b64_encode, is_b64_alpha, lemma_b64_decode_encode,
    lemma_b64_encode_alpha, lemma_b64_encode_len, PAD_BYTE};
use crate::codec::{decoded_span, escape_nl_tab, escape_nl_tab_byte, escape_non_ascii,
    escape_space_run, escape_spaces, fffd_bytes, is_b64_span_byte, norm_newlines, pad_b64,
    repeat_spaces, replace_spec, restore_b64, restore_b64_span, restore_nl_tab,
    restore_nl_tab_byte, restore_space_span, restore_spaces, restore_spec, space_count,
    space_run_escaped};
use crate::numfmt::{dec_digits, digits_val, is_digit, lemma_dec_digits};
use crate::{is_reserved_byte, B64_PREFIX, B64_SUFFIX, NEWLINE_ESCAPE, SPACE_ESCAPE, TAB_ESCAPE};
use vstd::prelude::*;
use vstd::utf8::*;

verus! {

/// True when no byte of the sequence is one of the five reserved escape
/// bytes.
pub open spec fn no_reserved(s: Seq<u8>) -> bool {
    forall|i: int| 0 <= i < s.len() ==> !is_reserved_byte(#[trigger] s[i])
}

/// True when no byte of the sequence is a carriage return.
pub open spec fn no_cr(s: Seq<u8>) -> bool {
    forall|i: int| 0 <= i < s.len() ==> #[trigger] s[i] != 13
}

/// A single ASCII byte is valid UTF-8 on its own.
proof fn lemma_single_ascii_valid(b: u8)
    requires
        b < 0x80,
    ensures
        valid_utf8(seq![b]),
{
    reveal_with_fuel(valid_utf8, 2);
    let s = seq![b];
    assert(valid_first_scalar(s));
    assert(length_of_first_scalar(s) == 1);
    assert(pop_first_scalar(s) =~= Seq::<u8>::empty());
}

/// Normalization copies a non-ASCII character's bytes unchanged.
proof fn lemma_norm_scalar_step(s: Seq<u8>)
    requires
        s.len() > 0,
        valid_first_scalar(s),
        s[0] >= 0x80,
    ensures
        norm_newlines(s) == take_first_scalar(s) + norm_newlines(pop_first_scalar(s)),
{
    reveal_with_fuel(norm_newlines, 5);
    let k = length_of_first_scalar(s);
    assert(k >= 2);
    assert(is_continuation_byte(s[1]));
    assert(s[1] >= 0x80);
    assert(s.skip(1)[0] == s[1]);
    if k == 2 {
        assert(s.skip(1).skip(1) =~= s.skip(2));
        assert(norm_newlines(s) =~= seq![s[0]] + (seq![s[1]] + norm_newlines(s.skip(2))));
        assert(seq![s[0]] + (seq![s[1]] + norm_newlines(s.skip(2))) =~= take_first_scalar(s)
            + norm_newlines(pop_first_scalar(s))) by {
            assert(take_first_scalar(s) =~= seq![s[0], s[1]]);
            assert(pop_first_scalar(s) =~= s.skip(2));
        }
    } else if k == 3 {
        assert(is_continuation_byte(s[2]));
        assert(s.skip(1).skip(1) =~= s.skip(2));
        assert(s.skip(2)[0] == s[2]);
        assert(s.skip(2).skip(1) =~= s.skip(3));
        assert(norm_newlines(s) =~= seq![s[0]] + (seq![s[1]] + (seq![s[2]] + norm_newlines(
            s.skip(3),
        ))));
        assert(seq![s[0]] + (seq![s[1]] + (seq![s[2]] + norm_newlines(s.skip(3)))) =~=
        take_first_scalar(s) + norm_newlines(pop_first_scalar(s))) by {
            assert(take_first_scalar(s) =~= seq![s[0], s[1], s[2]]);
            assert(pop_first_scalar(s) =~= s.skip(3));
        }
    } else {
        assert(is_continuation_byte(s[2]));
        assert(is_continuation_byte(s[3]));
        assert(s.skip(1).skip(1) =~= s.skip(2));
        assert(s.skip(2)[0] == s[2]);
        assert(s.skip(2).skip(1) =~= s.skip(3));
        assert(s.skip(3)[0] == s[3]);
        assert(s.skip(3).skip(1) =~= s.skip(4));
        assert(norm_newlines(s) =~= seq![s[0]] + (seq![s[1]] + (seq![s[2]] + (seq![s[3]]
            + norm_newlines(s.skip(4))))));
        assert(seq![s[0]] + (seq![s[1]] + (seq![s[2]] + (seq![s[3]] + norm_newlines(s.skip(4)))))
            =~= take_first_scalar(s) + norm_newlines(pop_first_scalar(s))) by {
            assert(take_first_scalar(s) =~= seq![s[0], s[1], s[2], s[3]]);
            assert(pop_first_scalar(s) =~= s.skip(4));
        }
    }
}

/// Normalizing line endings keeps a stream valid UTF-8.
pub proof fn lemma_norm_preserves_utf8(s: Seq<u8>)
    requires
        valid_utf8(s),
    ensures
        valid_utf8(norm_newlines(s)),
    decreases s.len(),
{
    if s.len() == 0 {
    } else {
        assert(valid_first_scalar(s));
        if s[0] < 0x80 {
            assert(length_of_first_scalar(s) == 1);
            assert(pop_first_scalar(s) =~= s.skip(1));
            assert(valid_utf8(s.skip(1)));
            if s[0] == 13 && s.len() >= 2 && s[1] == 10 {
                assert(s.skip(1)[0] == s[1]);
                assert(valid_first_scalar(s.skip(1)));
                assert(length_of_first_scalar(s.skip(1)) == 1);
                assert(pop_first_scalar(s.skip(1)) =~= s.skip(2));
                assert(valid_utf8(s.skip(2)));
                lemma_norm_preserves_utf8(s.skip(2));
                lemma_single_ascii_valid(10);
                valid_utf8_concat(seq![10u8], norm_newlines(s.skip(2)));
            } else {
                lemma_norm_preserves_utf8(s.skip(1));
                let b = if s[0] == 13 {
                    10u8
                } else {
                    s[0]
                };
                lemma_single_ascii_valid(b);
                valid_utf8_concat(seq![b], norm_newlines(s.skip(1)));
            }
        } else {
            lemma_norm_scalar_step(s);
            lemma_norm_preserves_utf8(pop_first_scalar(s));
            assert(valid_utf8(take_first_scalar(s))) by {
                reveal_with_fuel(valid_utf8, 2);
                let k = length_of_first_scalar(s);
                assert(take_first_scalar(s)[0] == s[0]);
                if k >= 2 {
                    assert(take_first_scalar(s)[1] == s[1]);
                }
                if k >= 3 {
                    assert(take_first_scalar(s)[2] == s[2]);
                }
                if k >= 4 {
                    assert(take_first_scalar(s)[3] == s[3]);
                }
                assert(valid_first_scalar(take_first_scalar(s)));
                assert(pop_first_scalar(take_first_scalar(s)) =~= Seq::<u8>::empty());
            }
            valid_utf8_concat(take_first_scalar(s), norm_newlines(pop_first_scalar(s)));
        }
    }
}

/// An interior base64 span byte lies in the printable range.
proof fn lemma_span_byte_range(b: u8)
    requires
        is_b64_span_byte(b),
    ensures
        43 <= b <= 122,
{
}

/// Bytes without the base64 prefix pass the base64 restore stage literally.
proof fn lemma_restore_b64_peel(a: Seq<u8>, b: Seq<u8>)
    requires
        forall|i: int| 0 <= i < a.len() ==> #[trigger] a[i] != B64_PREFIX,
    ensures
        restore_b64(a + b) == a + restore_b64(b),
    decreases a.len(),
{
    if a.len() == 0 {
        assert(a + b =~= b);
        assert(a + restore_b64(b) =~= restore_b64(b));
    } else {
        assert((a + b)[0] == a[0]);
        assert((a + b).skip(1) =~= a.skip(1) + b);
        assert forall|i: int| 0 <= i < a.skip(1).len() implies #[trigger] a.skip(1)[i]
            != B64_PREFIX by {
            assert(a.skip(1)[i] == a[i + 1]);
        }
        lemma_restore_b64_peel(a.skip(1), b);
        assert(restore_b64(a + b) == seq![a[0]] + (a.skip(1) + restore_b64(b)));
        assert(seq![a[0]] + (a.skip(1) + restore_b64(b)) =~= a + restore_b64(b));
    }
}

/// Bytes without the space escape pass the space restore stage literally.
proof fn lemma_restore_spaces_peel(a: Seq<u8>, b: Seq<u8>)
    requires
        forall|i: int| 0 <= i < a.len() ==> #[trigger] a[i] != SPACE_ESCAPE,
    ensures
        restore_spaces(a + b) == a + restore_spaces(b),
    decreases a.len(),
{
    if a.len() == 0 {
        assert(a + b =~= b);
        assert(a + restore_spaces(b) =~= restore_spaces(b));
    } else {
        assert((a + b)[0] == a[0]);
        assert((a + b).skip(1) =~= a.skip(1) + b);
        assert forall|i: int| 0 <= i < a.skip(1).len() implies #[trigger] a.skip(1)[i]
            != SPACE_ESCAPE by {
            assert(a.skip(1)[i] == a[i + 1]);
        }
        lemma_restore_spaces_peel(a.skip(1), b);
        assert(restore_spaces(a + b) == seq![a[0]] + (a.skip(1) + restore_spaces(b)));
        assert(seq![a[0]] + (a.skip(1) + restore_spaces(b)) =~= a + restore_spaces(b));
    }
}

/// Bytes without a space pass the space escape stage literally.
proof fn lemma_escape_spaces_peel(a: Seq<u8>, b: Seq<u8>)
    requires
        forall|i: int| 0 <= i < a.len() ==> #[trigger] a[i] != 32,
    ensures
        escape_spaces(a + b) == a + escape_spaces(b),
    decreases a.len(),
{
    if a.len() == 0 {
        assert(a + b =~= b);
        assert(a + escape_spaces(b) =~= escape_spaces(b));
    } else {
        assert((a + b)[0] == a[0]);
        assert((a + b).skip(1) =~= a.skip(1) + b);
        assert forall|i: int| 0 <= i < a.skip(1).len() implies #[trigger] a.skip(1)[i] != 32 by {
            assert(a.skip(1)[i] == a[i + 1]);
        }
        lemma_escape_spaces_peel(a.skip(1), b);
        assert(escape_spaces(a + b) == seq![a[0]] + (a.skip(1) + escape_spaces(b)));
        assert(seq![a[0]] + (a.skip(1) + escape_spaces(b)) =~= a + escape_spaces(b));
    }
}

/// The span scanner consumes exactly the interior symbols up to the closing
/// suffix byte.
proof fn lemma_restore_b64_span_scan(enc: Seq<u8>, acc: Seq<u8>, rest: Seq<u8>)
    requires
        forall|i: int| 0 <= i < enc.len() ==> is_b64_span_byte(#[trigger] enc[i]),
        acc.len() + enc.len() > 0,
    ensures
        restore_b64_span(enc + seq![B64_SUFFIX] + rest, acc) == decoded_span(acc + enc)
            + restore_b64(rest),
    decreases enc.len(),
{
    let s = enc + seq![B64_SUFFIX] + rest;
    if enc.len() == 0 {
        assert(s[0] == B64_SUFFIX);
        assert(!is_b64_span_byte(B64_SUFFIX));
        assert(s.skip(1) =~= rest);
        assert(acc + enc =~= acc);
    } else {
        assert(s[0] == enc[0]);
        assert(is_b64_span_byte(s[0]));
        assert(s[0] != B64_SUFFIX) by {
            lemma_span_byte_range(enc[0]);
        }
        assert(s.skip(1) =~= enc.skip(1) + seq![B64_SUFFIX] + rest);
        assert forall|i: int| 0 <= i < enc.skip(1).len() implies is_b64_span_byte(
            #[trigger] enc.skip(1)[i],
        ) by {
            assert(enc.skip(1)[i] == enc[i + 1]);
        }
        lemma_restore_b64_span_scan(enc.skip(1), acc.push(enc[0]), rest);
        assert(acc.push(enc[0]) + enc.skip(1) =~= acc + enc);
    }
}

/// A complete base64 span restores to its decoded bytes, whatever follows.
proof fn lemma_restore_b64_span_full(enc: Seq<u8>, rest: Seq<u8>)
    requires
        enc.len() > 0,
        forall|i: int| 0 <= i < enc.len() ==> is_b64_span_byte(#[trigger] enc[i]),
    ensures
        restore_b64(seq![B64_PREFIX] + enc + seq![B64_SUFFIX] + rest) == decoded_span(enc)
            + restore_b64(rest),
{
    let s = seq![B64_PREFIX] + enc + seq![B64_SUFFIX] + rest;
    assert(s[0] == B64_PREFIX);
    assert(s.skip(1) =~= enc + seq![B64_SUFFIX] + rest);
    lemma_restore_b64_span_scan(enc, Seq::empty(), rest);
    assert(Seq::<u8>::empty() + enc =~= enc);
}

/// The digit scanner consumes exactly the digits up to the closing escape
/// byte.
proof fn lemma_restore_space_span_scan(ds2: Seq<u8>, acc: Seq<u8>, rest: Seq<u8>)
    requires
        forall|i: int| 0 <= i < ds2.len() ==> is_digit(#[trigger] ds2[i]),
        acc.len() + ds2.len() > 0,
    ensures
        restore_space_span(ds2 + seq![SPACE_ESCAPE] + rest, acc) == repeat_spaces(
            space_count(acc + ds2),
        ) + restore_spaces(rest),
    decreases ds2.len(),
{
    let s = ds2 + seq![SPACE_ESCAPE] + rest;
    if ds2.len() == 0 {
        assert(s[0] == SPACE_ESCAPE);
        assert(!is_digit(SPACE_ESCAPE));
        assert(s.skip(1) =~= rest);
        assert(acc + ds2 =~= acc);
    } else {
        assert(s[0] == ds2[0]);
        assert(is_digit(s[0]));
        assert(s.skip(1) =~= ds2.skip(1) + seq![SPACE_ESCAPE] + rest);
        assert forall|i: int| 0 <= i < ds2.skip(1).len() implies is_digit(
            #[trigger] ds2.skip(1)[i],
        ) by {
            assert(ds2.skip(1)[i] == ds2[i + 1]);
        }
        lemma_restore_space_span_scan(ds2.skip(1), acc.push(ds2[0]), rest);
        assert(acc.push(ds2[0]) + ds2.skip(1) =~= acc + ds2);
    }
}

/// A complete space-run span restores to its spaces, whatever follows.
proof fn lemma_restore_space_span_full(ds: Seq<u8>, rest: Seq<u8>)
    requires
        ds.len() > 0,
        forall|i: int| 0 <= i < ds.len() ==> is_digit(#[trigger] ds[i]),
    ensures
        restore_spaces(seq![SPACE_ESCAPE] + ds + seq![SPACE_ESCAPE] + rest) == repeat_spaces(
            space_count(ds),
        ) + restore_spaces(rest),
{
    let s = seq![SPACE_ESCAPE] + ds + seq![SPACE_ESCAPE] + rest;
    assert(s[0] == SPACE_ESCAPE);
    assert(s.skip(1) =~= ds + seq![SPACE_ESCAPE] + rest);
    lemma_restore_space_span_scan(ds, Seq::empty(), rest);
    assert(Seq::<u8>::empty() + ds =~= ds);
}

/// The newline and tab restore stage distributes over concatenation.
proof fn lemma_restore_nl_tab_concat(a: Seq<u8>, b: Seq<u8>)
    ensures
        restore_nl_tab(a + b) == restore_nl_tab(a) + restore_nl_tab(b),
{
    assert(restore_nl_tab(a + b) =~= restore_nl_tab(a) + restore_nl_tab(b));
}

/// Bytes that are no newline or tab escape pass the restore stage literally.
proof fn lemma_restore_nl_tab_id(a: Seq<u8>)
    requires
        forall|i: int| 0 <= i < a.len() ==> #[trigger] a[i] != NEWLINE_ESCAPE && a[i] != TAB_ESCAPE,
    ensures
        restore_nl_tab(a) == a,
{
    assert(restore_nl_tab(a) =~= a);
}

/// The newline and tab escape stage distributes over concatenation.
proof fn lemma_escape_nl_tab_concat(a: Seq<u8>, b: Seq<u8>)
    ensures
        escape_nl_tab(a + b) == escape_nl_tab(a) + escape_nl_tab(b),
{
    assert(escape_nl_tab(a + b) =~= escape_nl_tab(a) + escape_nl_tab(b));
}

/// Bytes that are no newline or tab pass the escape stage literally.
proof fn lemma_escape_nl_tab_id(a: Seq<u8>)
    requires
        forall|i: int| 0 <= i < a.len() ==> #[trigger] a[i] != 10 && a[i] != 9,
    ensures
        escape_nl_tab(a) == a,
{
    assert(escape_nl_tab(a) =~= a);
}

/// The number of leading space bytes.
pub open spec fn space_run_len(s: Seq<u8>) -> nat
    decreases s.len(),
{
    if s.len() > 0 && s[0] == 32 {
        1 + space_run_len(s.skip(1))
    } else {
        0
    }
}

/// The leading space run is exactly the spaces before the first non-space.
proof fn lemma_space_run_len_facts(s: Seq<u8>)
    ensures
        space_run_len(s) <= s.len(),
        forall|i: int| 0 <= i < space_run_len(s) ==> #[trigger] s[i] == 32,
        space_run_len(s) < s.len() ==> s[space_run_len(s) as int] != 32,
    decreases s.len(),
{
    if s.len() > 0 && s[0] == 32 {
        lemma_space_run_len_facts(s.skip(1));
        assert forall|i: int| 0 <= i < space_run_len(s) implies #[trigger] s[i] == 32 by {
            if i > 0 {
                assert(s.skip(1)[i - 1] == s[i]);
            }
        }
        if space_run_len(s) < s.len() {
            assert(s.skip(1)[space_run_len(s) - 1] == s[space_run_len(s) as int]);
        }
    }
}

/// The leading space run of spaces followed by a non-space remainder.
proof fn lemma_space_run_len_repeat(k: nat, t: Seq<u8>)
    requires
        t.len() == 0 || t[0] != 32,
    ensures
        space_run_len(repeat_spaces(k) + t) == k,
    decreases k,
{
    if k == 0 {
        assert(repeat_spaces(0) + t =~= t);
    } else {
        let s = repeat_spaces(k) + t;
        assert(s[0] == 32);
        assert(s.skip(1) =~= repeat_spaces((k - 1) as nat) + t);
        lemma_space_run_len_repeat((k - 1) as nat, t);
    }
}

/// What a space run turns into, depending on its length and what follows.
pub open spec fn run_decision(k: nat, t: Seq<u8>) -> Seq<u8> {
    if k == 1 {
        seq![32u8]
    } else if t.len() > 0 && is_digit(t[0]) {
        repeat_spaces(k)
    } else {
        space_run_escaped(k)
    }
}

/// The run scanner extends over the remaining spaces and then decides.
proof fn lemma_escape_space_run_scan(s: Seq<u8>, k0: nat)
    requires
        k0 >= 1,
    ensures
        escape_space_run(s, k0) == run_decision(
            (k0 + space_run_len(s)) as nat,
            s.skip(space_run_len(s) as int),
        ) + escape_spaces(s.skip(space_run_len(s) as int)),
    decreases s.len(),
{
    if s.len() > 0 && s[0] == 32 {
        lemma_escape_space_run_scan(s.skip(1), k0 + 1);
        let m1 = space_run_len(s.skip(1));
        lemma_space_run_len_facts(s.skip(1));
        assert(space_run_len(s) == 1 + m1);
        assert(s.skip(1).skip(m1 as int) =~= s.skip(space_run_len(s) as int));
    } else {
        assert(s.skip(0) =~= s);
    }
}

/// The space escape stage handles a leading run as one unit.
proof fn lemma_escape_spaces_run(s: Seq<u8>)
    requires
        s.len() > 0,
        s[0] == 32,
    ensures
        escape_spaces(s) == run_decision(space_run_len(s), s.skip(space_run_len(s) as int))
            + escape_spaces(s.skip(space_run_len(s) as int)),
{
    lemma_escape_space_run_scan(s.skip(1), 1);
    let m1 = space_run_len(s.skip(1));
    lemma_space_run_len_facts(s.skip(1));
    assert(space_run_len(s) == 1 + m1);
    assert(s.skip(1).skip(m1 as int) =~= s.skip(space_run_len(s) as int));
}

/// The first two forward stages turn a leading space run into the same run.
proof fn lemma_forward_spaces_prefix(u: Seq<u8>)
    requires
        valid_utf8(u),
    ensures
        valid_utf8(u.skip(space_run_len(u) as int)),
        escape_nl_tab(escape_non_ascii(u)) == repeat_spaces(space_run_len(u)) + escape_nl_tab(
            escape_non_ascii(u.skip(space_run_len(u) as int)),
        ),
    decreases u.len(),
{
    let k = space_run_len(u);
    if k == 0 {
        assert(u.skip(0) =~= u);
        assert(repeat_spaces(0) + escape_nl_tab(escape_non_ascii(u)) =~= escape_nl_tab(
            escape_non_ascii(u),
        ));
    } else {
        assert(u[0] == 32);
        assert(valid_first_scalar(u));
        assert(length_of_first_scalar(u) == 1);
        assert(pop_first_scalar(u) =~= u.skip(1));
        assert(valid_utf8(u.skip(1)));
        lemma_forward_spaces_prefix(u.skip(1));
        let k1 = space_run_len(u.skip(1));
        lemma_space_run_len_facts(u.skip(1));
        assert(k == 1 + k1);
        assert(u.skip(1).skip(k1 as int) =~= u.skip(k as int));
        assert(escape_non_ascii(u) == seq![32u8] + escape_non_ascii(u.skip(1)));
        lemma_escape_nl_tab_concat(seq![32u8], escape_non_ascii(u.skip(1)));
        assert(escape_nl_tab(seq![32u8]) =~= seq![32u8]);
        assert(seq![32u8] + (repeat_spaces(k1) + escape_nl_tab(
            escape_non_ascii(u.skip(k as int)),
        )) =~= repeat_spaces(k) + escape_nl_tab(escape_non_ascii(u.skip(k as int))));
    }
}

/// The head of the escaped form mirrors the head of the text: empty together,
/// a space exactly for a space, a digit exactly for a digit.
proof fn lemma_forward_head(w: Seq<u8>)
    requires
        valid_utf8(w),
    ensures
        escape_nl_tab(escape_non_ascii(w)).len() > 0 <==> w.len() > 0,
        w.len() > 0 ==> ((escape_nl_tab(escape_non_ascii(w))[0] == 32) <==> (w[0] == 32)),
        w.len() > 0 ==> (is_digit(escape_nl_tab(escape_non_ascii(w))[0]) <==> is_digit(w[0])),
{
    let zw = escape_nl_tab(escape_non_ascii(w));
    if w.len() == 0 {
        assert(escape_non_ascii(w) =~= Seq::<u8>::empty());
        assert(zw.len() == 0);
    } else {
        assert(valid_first_scalar(w));
        if w[0] < 0x80 {
            assert(escape_non_ascii(w) == seq![w[0]] + escape_non_ascii(w.skip(1)));
            assert(escape_non_ascii(w)[0] == w[0]);
            assert(zw[0] == escape_nl_tab_byte(w[0]));
        } else {
            let enc = b64_encode(take_first_scalar(w));
            assert(escape_non_ascii(w) == seq![B64_PREFIX] + enc + seq![B64_SUFFIX]
                + escape_non_ascii(pop_first_scalar(w)));
            assert(escape_non_ascii(w)[0] == B64_PREFIX);
            assert(zw[0] == escape_nl_tab_byte(B64_PREFIX));
        }
    }
}

/// The bytes of one character's valid encoding are themselves valid UTF-8.
proof fn lemma_take_first_scalar_valid(s: Seq<u8>)
    requires
        s.len() > 0,
        valid_first_scalar(s),
    ensures
        valid_utf8(take_first_scalar(s)),
{
    reveal_with_fuel(valid_utf8, 2);
    let k = length_of_first_scalar(s);
    assert(take_first_scalar(s)[0] == s[0]);
    if k >= 2 {
        assert(take_first_scalar(s)[1] == s[1]);
    }
    if k >= 3 {
        assert(take_first_scalar(s)[2] == s[2]);
    }
    if k >= 4 {
        assert(take_first_scalar(s)[3] == s[3]);
    }
    assert(valid_first_scalar(take_first_scalar(s)));
    assert(pop_first_scalar(take_first_scalar(s)) =~= Seq::<u8>::empty());
}

/// The reverse transform undoes the three escape stages on any text free of
/// the reserved escape bytes and of carriage returns.
pub proof fn lemma_codec_inverse(u: Seq<u8>)
    requires
        valid_utf8(u),
        no_reserved(u),
        no_cr(u),
        u.len() <= usize::MAX,
    ensures
        restore_spec(escape_spaces(escape_nl_tab(escape_non_ascii(u)))) == u,
    decreases u.len(),
{
    let z = escape_nl_tab(escape_non_ascii(u));
    if u.len() == 0 {
        assert(escape_non_ascii(u) =~= Seq::<u8>::empty());
        assert(z =~= Seq::<u8>::empty());
        assert(escape_spaces(z) =~= Seq::<u8>::empty());
        assert(restore_b64(escape_spaces(z)) =~= Seq::<u8>::empty());
        assert(restore_spaces(restore_b64(escape_spaces(z))) =~= Seq::<u8>::empty());
        assert(restore_spec(escape_spaces(z)) =~= u);
    } else if u[0] == 32 {
        let k = space_run_len(u);
        lemma_space_run_len_facts(u);
        assert(k >= 1);
        let w = u.skip(k as int);
        lemma_forward_spaces_prefix(u);
        let zw = escape_nl_tab(escape_non_ascii(w));
        assert(z == repeat_spaces(k) + zw);
        lemma_forward_head(w);
        assert(zw.len() == 0 || zw[0] != 32);
        lemma_space_run_len_repeat(k, zw);
        assert(space_run_len(z) == k);
        assert(z.len() > 0 && z[0] == 32) by {
            assert(z[0] == (repeat_spaces(k) + zw)[0]);
        }
        lemma_escape_spaces_run(z);
        assert(z.skip(k as int) =~= zw);
        assert(escape_spaces(z) == run_decision(k, zw) + escape_spaces(zw));
        assert forall|i: int| 0 <= i < w.len() implies !is_reserved_byte(#[trigger] w[i]) && w[i]
            != 13 by {
            assert(w[i] == u[k + i]);
        }
        lemma_codec_inverse(w);
        let sw = escape_spaces(zw);
        assert(u =~= repeat_spaces(k) + w);
        if k == 1 {
            assert(run_decision(k, zw) == seq![32u8]);
            lemma_restore_b64_peel(seq![32u8], sw);
            lemma_restore_spaces_peel(seq![32u8], restore_b64(sw));
            lemma_restore_nl_tab_concat(seq![32u8], restore_spaces(restore_b64(sw)));
            lemma_restore_nl_tab_id(seq![32u8]);
            assert(restore_spec(escape_spaces(z)) == seq![32u8] + w);
            assert(u =~= seq![32u8] + w);
        } else if zw.len() > 0 && is_digit(zw[0]) {
            assert(run_decision(k, zw) == repeat_spaces(k));
            assert forall|i: int| 0 <= i < repeat_spaces(k).len() implies #[trigger] repeat_spaces(
                k,
            )[i] != B64_PREFIX by {}
            lemma_restore_b64_peel(repeat_spaces(k), sw);
            assert forall|i: int| 0 <= i < repeat_spaces(k).len() implies #[trigger] repeat_spaces(
                k,
            )[i] != SPACE_ESCAPE by {}
            lemma_restore_spaces_peel(repeat_spaces(k), restore_b64(sw));
            lemma_restore_nl_tab_concat(repeat_spaces(k), restore_spaces(restore_b64(sw)));
            lemma_restore_nl_tab_id(repeat_spaces(k));
            assert(restore_spec(escape_spaces(z)) == repeat_spaces(k) + w);
        } else {
            assert(run_decision(k, zw) == space_run_escaped(k));
            let ds = dec_digits(k);
            lemma_dec_digits(k);
            let seg = seq![SPACE_ESCAPE] + ds + seq![SPACE_ESCAPE];
            assert(space_run_escaped(k) == seg);
            assert forall|i: int| 0 <= i < seg.len() implies #[trigger] seg[i] != B64_PREFIX by {
                if 1 <= i < 1 + ds.len() {
                    assert(seg[i] == ds[i - 1]);
                    assert(is_digit(ds[i - 1]));
                }
            }
            lemma_restore_b64_peel(seg, sw);
            lemma_restore_space_span_full(ds, restore_b64(sw));
            assert(seg + restore_b64(sw) =~= seq![SPACE_ESCAPE] + ds + seq![SPACE_ESCAPE]
                + restore_b64(sw));
            assert(space_count(ds) == k);
            lemma_restore_nl_tab_concat(repeat_spaces(k), restore_spaces(restore_b64(sw)));
            lemma_restore_nl_tab_id(repeat_spaces(k));
            assert(restore_spec(escape_spaces(z)) == repeat_spaces(k) + w);
        }
    } else if u[0] < 0x80 {
        let c = u[0];
        assert(!is_reserved_byte(c) && c != 13 && c != 32);
        assert(valid_first_scalar(u));
        assert(length_of_first_scalar(u) == 1);
        assert(pop_first_scalar(u) =~= u.skip(1));
        assert(escape_non_ascii(u) == seq![c] + escape_non_ascii(u.skip(1)));
        lemma_escape_nl_tab_concat(seq![c], escape_non_ascii(u.skip(1)));
        let d = escape_nl_tab_byte(c);
        assert(escape_nl_tab(seq![c]) =~= seq![d]);
        let zr = escape_nl_tab(escape_non_ascii(u.skip(1)));
        assert(z == seq![d] + zr);
        assert(d != 32 && d != B64_PREFIX && d != SPACE_ESCAPE);
        assert((seq![d] + zr)[0] == d);
        assert((seq![d] + zr).skip(1) =~= zr);
        assert(escape_spaces(z) == seq![d] + escape_spaces(zr));
        assert forall|i: int| 0 <= i < u.skip(1).len() implies !is_reserved_byte(
            #[trigger] u.skip(1)[i],
        ) && u.skip(1)[i] != 13 by {
            assert(u.skip(1)[i] == u[i + 1]);
        }
        lemma_codec_inverse(u.skip(1));
        lemma_restore_b64_peel(seq![d], escape_spaces(zr));
        lemma_restore_spaces_peel(seq![d], restore_b64(escape_spaces(zr)));
        lemma_restore_nl_tab_concat(seq![d], restore_spaces(restore_b64(escape_spaces(zr))));
        assert(restore_nl_tab(seq![d]) =~= seq![c]);
        assert(restore_spec(escape_spaces(z)) == seq![c] + u.skip(1));
        assert(u =~= seq![c] + u.skip(1));
    } else {
        assert(valid_first_scalar(u));
        let fs = take_first_scalar(u);
        let rest = pop_first_scalar(u);
        let enc = b64_encode(fs);
        let k = length_of_first_scalar(u);
        assert(fs.len() == k && k >= 2);
        lemma_b64_encode_len(fs);
        lemma_b64_encode_alpha(fs);
        assert(enc.len() >= 4);
        assert(escape_non_ascii(u) == seq![B64_PREFIX] + enc + seq![B64_SUFFIX] + escape_non_ascii(
            rest,
        ));
        let seg = seq![B64_PREFIX] + enc + seq![B64_SUFFIX];
        assert(escape_non_ascii(u) =~= seg + escape_non_ascii(rest));
        lemma_escape_nl_tab_concat(seg, escape_non_ascii(rest));
        assert forall|i: int| 0 <= i < seg.len() implies #[trigger] seg[i] != 10 && seg[i] != 9
            && seg[i] != 32 by {
            if 1 <= i < 1 + enc.len() {
                assert(seg[i] == enc[i - 1]);
                if is_b64_alpha(enc[i - 1]) {
                    lemma_span_byte_range(enc[i - 1]);
                }
            }
        }
        lemma_escape_nl_tab_id(seg);
        let zr = escape_nl_tab(escape_non_ascii(rest));
        assert(z == seg + zr);
        lemma_escape_spaces_peel(seg, zr);
        assert(escape_spaces(z) == seg + escape_spaces(zr));
        assert forall|i: int| 0 <= i < enc.len() implies is_b64_span_byte(#[trigger] enc[i]) by {}
        lemma_restore_b64_span_full(enc, escape_spaces(zr));
        assert(seg + escape_spaces(zr) =~= seq![B64_PREFIX] + enc + seq![B64_SUFFIX]
            + escape_spaces(zr));
        assert(decoded_span(enc) == fs) by {
            assert(pad_b64(enc) =~= enc);
            lemma_b64_decode_encode(fs);
            lemma_take_first_scalar_valid(u);
        }
        assert(restore_b64(escape_spaces(z)) == fs + restore_b64(escape_spaces(zr)));
        assert forall|i: int| 0 <= i < fs.len() implies #[trigger] fs[i] >= 0x80 by {
            assert(fs[i] == u[i]);
            if i == 0 {
            } else if i == 1 {
                assert(is_continuation_byte(u[1]));
            } else if i == 2 {
                assert(is_continuation_byte(u[2]));
            } else {
                assert(is_continuation_byte(u[3]));
            }
        }
        lemma_restore_spaces_peel(fs, restore_b64(escape_spaces(zr)));
        lemma_restore_nl_tab_concat(fs, restore_spaces(restore_b64(escape_spaces(zr))));
        lemma_restore_nl_tab_id(fs);
        assert forall|i: int| 0 <= i < rest.len() implies !is_reserved_byte(#[trigger] rest[i])
            && rest[i] != 13 by {
            assert(rest[i] == u[k + i]);
        }
        lemma_codec_inverse(rest);
        assert(restore_spec(escape_spaces(z)) == fs + rest);
        assert(u =~= fs + rest);
    }
}

/// Normalization never lengthens the text, leaves no carriage return behind,
/// introduces no reserved byte, and is the identity on text without carriage
/// returns.
pub proof fn lemma_norm_facts(s: Seq<u8>)
    ensures
        norm_newlines(s).len() <= s.len(),
        no_cr(norm_newlines(s)),
        no_reserved(s) ==> no_reserved(norm_newlines(s)),
        no_cr(s) ==> norm_newlines(s) == s,
    decreases s.len(),
{
    if s.len() == 0 {
    } else {
        let n = norm_newlines(s);
        let (x, tail): (u8, Seq<u8>) = if s[0] == 13 {
            if s.len() >= 2 && s[1] == 10 {
                (10u8, s.skip(2))
            } else {
                (10u8, s.skip(1))
            }
        } else {
            (s[0], s.skip(1))
        };
        lemma_norm_facts(tail);
        assert(n == seq![x] + norm_newlines(tail));
        assert forall|i: int| 0 <= i < n.len() implies #[trigger] n[i] != 13 by {
            if i > 0 {
                assert(n[i] == norm_newlines(tail)[i - 1]);
            }
        }
        if no_reserved(s) {
            assert forall|i: int| 0 <= i < tail.len() implies !is_reserved_byte(
                #[trigger] tail[i],
            ) by {
                assert(tail[i] == s[s.len() - tail.len() + i]);
            }
            assert forall|i: int| 0 <= i < n.len() implies !is_reserved_byte(#[trigger] n[i]) by {
                if i > 0 {
                    assert(n[i] == norm_newlines(tail)[i - 1]);
                } else {
                    assert(n[0] == x);
                    assert(!is_reserved_byte(10u8) && !is_reserved_byte(s[0]));
                }
            }
        }
        if no_cr(s) {
            assert(s[0] != 13);
            assert forall|i: int| 0 <= i < tail.len() implies #[trigger] tail[i] != 13 by {
                assert(tail[i] == s[i + 1]);
            }
            assert(n =~= seq![s[0]] + s.skip(1));
            assert(n =~= s);
        }
    }
}

/// True when every byte is ASCII.
pub open spec fn all_ascii(s: Seq<u8>) -> bool {
    forall|i: int| 0 <= i < s.len() ==> #[trigger] s[i] < 0x80
}

/// ASCII bytes are valid UTF-8.
pub proof fn lemma_ascii_valid(s: Seq<u8>)
    requires
        all_ascii(s),
    ensures
        valid_utf8(s),
{
    assert(partial_valid_utf8(s, 0)) by {
        assert(s.subrange(0, 0) =~= Seq::<u8>::empty());
    }
    assert forall|i: int| 0 <= 0 <= i < s.len() <= s.len() implies #[trigger] is_leading_byte_width_1(
        s[i],
    ) by {
        assert(s[i] < 0x80);
    }
    partial_valid_utf8_extend_ascii_block(s, 0, s.len() as int);
    assert(s.subrange(0, s.len() as int) =~= s);
}

/// Escaping non-ASCII characters leaves only ASCII bytes.
proof fn lemma_escape_non_ascii_ascii(s: Seq<u8>)
    requires
        valid_utf8(s),
    ensures
        all_ascii(escape_non_ascii(s)),
    decreases s.len(),
{
    if s.len() == 0 {
    } else {
        assert(valid_first_scalar(s));
        if s[0] < 0x80 {
            assert(length_of_first_scalar(s) == 1);
            assert(pop_first_scalar(s) =~= s.skip(1));
            lemma_escape_non_ascii_ascii(s.skip(1));
            let e = escape_non_ascii(s);
            assert forall|i: int| 0 <= i < e.len() implies #[trigger] e[i] < 0x80 by {
                if i > 0 {
                    assert(e[i] == escape_non_ascii(s.skip(1))[i - 1]);
                }
            }
        } else {
            lemma_escape_non_ascii_ascii(pop_first_scalar(s));
            let enc = b64_encode(take_first_scalar(s));
            lemma_b64_encode_alpha(take_first_scalar(s));
            let e = escape_non_ascii(s);
            assert(e == seq![B64_PREFIX] + enc + seq![B64_SUFFIX] + escape_non_ascii(
                pop_first_scalar(s),
            ));
            assert forall|i: int| 0 <= i < e.len() implies #[trigger] e[i] < 0x80 by {
                if 1 <= i < 1 + enc.len() {
                    assert(e[i] == enc[i - 1]);
                    if is_b64_alpha(enc[i - 1]) {
                        lemma_span_byte_range(enc[i - 1]);
                    }
                } else if i >= 2 + enc.len() {
                    assert(e[i] == escape_non_ascii(pop_first_scalar(s))[i - 2 - enc.len()]);
                }
            }
        }
    }
}

/// The newline and tab escapes keep the text ASCII.
proof fn lemma_escape_nl_tab_ascii(s: Seq<u8>)
    requires
        all_ascii(s),
    ensures
        all_ascii(escape_nl_tab(s)),
{
    assert forall|i: int| 0 <= i < escape_nl_tab(s).len() implies #[trigger] escape_nl_tab(s)[i]
        < 0x80 by {
        assert(escape_nl_tab(s)[i] == escape_nl_tab_byte(s[i]));
    }
}

/// The space-run escapes keep the text ASCII.
proof fn lemma_escape_spaces_ascii(s: Seq<u8>)
    requires
        all_ascii(s),
    ensures
        all_ascii(escape_spaces(s)),
    decreases s.len(), 0int,
{
    if s.len() == 0 {
    } else if s[0] == 32 {
        assert forall|i: int| 0 <= i < s.skip(1).len() implies #[trigger] s.skip(1)[i] < 0x80 by {
            assert(s.skip(1)[i] == s[i + 1]);
        }
        lemma_escape_space_run_ascii(s.skip(1), 1);
    } else {
        assert forall|i: int| 0 <= i < s.skip(1).len() implies #[trigger] s.skip(1)[i] < 0x80 by {
            assert(s.skip(1)[i] == s[i + 1]);
        }
        lemma_escape_spaces_ascii(s.skip(1));
        let e = escape_spaces(s);
        assert forall|i: int| 0 <= i < e.len() implies #[trigger] e[i] < 0x80 by {
            if i > 0 {
                assert(e[i] == escape_spaces(s.skip(1))[i - 1]);
            }
        }
    }
}

/// The run scanner keeps the text ASCII.
proof fn lemma_escape_space_run_ascii(s: Seq<u8>, k: nat)
    requires
        all_ascii(s),
    ensures
        all_ascii(escape_space_run(s, k)),
    decreases s.len(), 1int,
{
    if s.len() > 0 && s[0] == 32 {
        assert forall|i: int| 0 <= i < s.skip(1).len() implies #[trigger] s.skip(1)[i] < 0x80 by {
            assert(s.skip(1)[i] == s[i + 1]);
        }
        lemma_escape_space_run_ascii(s.skip(1), k + 1);
    } else {
        lemma_escape_spaces_ascii(s);
        let head: Seq<u8> = if k == 1 {
            seq![32u8]
        } else if s.len() > 0 && is_digit(s[0]) {
            repeat_spaces(k)
        } else {
            space_run_escaped(k)
        };
        lemma_dec_digits(k);
        assert forall|i: int| 0 <= i < head.len() implies #[trigger] head[i] < 0x80 by {
            if k != 1 && !(s.len() > 0 && is_digit(s[0])) {
                if 1 <= i < 1 + dec_digits(k).len() {
                    assert(head[i] == dec_digits(k)[i - 1]);
                    assert(is_digit(dec_digits(k)[i - 1]));
                }
            }
        }
        let e = escape_space_run(s, k);
        assert(e == head + escape_spaces(s));
        assert forall|i: int| 0 <= i < e.len() implies #[trigger] e[i] < 0x80 by {
            if i >= head.len() {
                assert(e[i] == escape_spaces(s)[i - head.len()]);
            }
        }
    }
}

/// Every byte the non-ASCII escape stage emits is a marker, a base64
/// symbol, or a byte of its input.
proof fn lemma_escape_non_ascii_bytes(s: Seq<u8>)
    ensures
        forall|i: int|
            0 <= i < escape_non_ascii(s).len() ==> #[trigger] escape_non_ascii(s)[i] == B64_PREFIX
                || escape_non_ascii(s)[i] == B64_SUFFIX || is_b64_span_byte(escape_non_ascii(s)[i])
                || exists|x: int| 0 <= x < s.len() && escape_non_ascii(s)[i] == s[x],
    decreases s.len(),
{
    if s.len() == 0 {
    } else {
        let e = escape_non_ascii(s);
        if s[0] < 0x80 || !valid_first_scalar(s) {
            lemma_escape_non_ascii_bytes(s.skip(1));
            assert forall|i: int|
                0 <= i < e.len() implies #[trigger] e[i] == B64_PREFIX || e[i] == B64_SUFFIX
                || is_b64_span_byte(e[i]) || exists|x: int| 0 <= x < s.len() && e[i] == s[x] by {
                if i == 0 {
                    assert(e[0] == s[0]);
                } else {
                    let e1 = escape_non_ascii(s.skip(1));
                    assert(e[i] == e1[i - 1]);
                    if !(e1[i - 1] == B64_PREFIX || e1[i - 1] == B64_SUFFIX || is_b64_span_byte(
                        e1[i - 1],
                    )) {
                        let x = choose|x: int| 0 <= x < s.skip(1).len() && e1[i - 1] == s.skip(1)[x];
                        assert(e[i] == s[x + 1]);
                    }
                }
            }
        } else {
            let enc = b64_encode(take_first_scalar(s));
            lemma_b64_encode_alpha(take_first_scalar(s));
            let k = length_of_first_scalar(s);
            lemma_escape_non_ascii_bytes(pop_first_scalar(s));
            assert(e == seq![B64_PREFIX] + enc + seq![B64_SUFFIX] + escape_non_ascii(
                pop_first_scalar(s),
            ));
            assert forall|i: int|
                0 <= i < e.len() implies #[trigger] e[i] == B64_PREFIX || e[i] == B64_SUFFIX
                || is_b64_span_byte(e[i]) || exists|x: int| 0 <= x < s.len() && e[i] == s[x] by {
                if 1 <= i < 1 + enc.len() {
                    assert(e[i] == enc[i - 1]);
                } else if i >= 2 + enc.len() {
                    let e1 = escape_non_ascii(pop_first_scalar(s));
                    assert(e[i] == e1[i - 2 - enc.len()]);
                    if !(e1[i - 2 - enc.len()] == B64_PREFIX || e1[i - 2 - enc.len()]
                        == B64_SUFFIX || is_b64_span_byte(e1[i - 2 - enc.len()])) {
                        let x = choose|x: int|
                            0 <= x < pop_first_scalar(s).len() && e1[i - 2 - enc.len()]
                                == pop_first_scalar(s)[x];
                        assert(e[i] == s[x + k]);
                    }
                }
            }
        }
    }
}

/// Every byte the space escape stage emits is a space, a digit, the space
/// escape, or a byte of its input.
proof fn lemma_escape_spaces_bytes(s: Seq<u8>)
    ensures
        forall|i: int|
            0 <= i < escape_spaces(s).len() ==> #[trigger] escape_spaces(s)[i] == SPACE_ESCAPE
                || escape_spaces(s)[i] == 32 || is_digit(escape_spaces(s)[i]) || exists|x: int|
                0 <= x < s.len() && escape_spaces(s)[i] == s[x],
    decreases s.len(), 0int,
{
    if s.len() == 0 {
    } else if s[0] == 32 {
        lemma_escape_space_run_bytes(s.skip(1), 1);
        let e = escape_spaces(s);
        let e1 = escape_space_run(s.skip(1), 1);
        assert forall|i: int|
            0 <= i < e.len() implies #[trigger] e[i] == SPACE_ESCAPE || e[i] == 32 || is_digit(
            e[i],
        ) || exists|x: int| 0 <= x < s.len() && e[i] == s[x] by {
            assert(e[i] == e1[i]);
            if !(e1[i] == SPACE_ESCAPE || e1[i] == 32 || is_digit(e1[i])) {
                let x = choose|x: int| 0 <= x < s.skip(1).len() && e1[i] == s.skip(1)[x];
                assert(e[i] == s[x + 1]);
            }
        }
    } else {
        lemma_escape_spaces_bytes(s.skip(1));
        let e = escape_spaces(s);
        let e1 = escape_spaces(s.skip(1));
        assert forall|i: int|
            0 <= i < e.len() implies #[trigger] e[i] == SPACE_ESCAPE || e[i] == 32 || is_digit(
            e[i],
        ) || exists|x: int| 0 <= x < s.len() && e[i] == s[x] by {
            if i == 0 {
                assert(e[0] == s[0]);
            } else {
                assert(e[i] == e1[i - 1]);
                if !(e1[i - 1] == SPACE_ESCAPE || e1[i - 1] == 32 || is_digit(e1[i - 1])) {
                    let x = choose|x: int| 0 <= x < s.skip(1).len() && e1[i - 1] == s.skip(1)[x];
                    assert(e[i] == s[x + 1]);
                }
            }
        }
    }
}

/// The run scanner's byte classes, continuing `lemma_escape_spaces_bytes`.
proof fn lemma_escape_space_run_bytes(s: Seq<u8>, k: nat)
    ensures
        forall|i: int|
            0 <= i < escape_space_run(s, k).len() ==> #[trigger] escape_space_run(s, k)[i]
                == SPACE_ESCAPE || escape_space_run(s, k)[i] == 32 || is_digit(
                escape_space_run(s, k)[i],
            ) || exists|x: int| 0 <= x < s.len() && escape_space_run(s, k)[i] == s[x],
    decreases s.len(), 1int,
{
    let e = escape_space_run(s, k);
    if s.len() > 0 && s[0] == 32 {
        lemma_escape_space_run_bytes(s.skip(1), k + 1);
        let e1 = escape_space_run(s.skip(1), k + 1);
        assert forall|i: int|
            0 <= i < e.len() implies #[trigger] e[i] == SPACE_ESCAPE || e[i] == 32 || is_digit(
            e[i],
        ) || exists|x: int| 0 <= x < s.len() && e[i] == s[x] by {
            assert(e[i] == e1[i]);
            if !(e1[i] == SPACE_ESCAPE || e1[i] == 32 || is_digit(e1[i])) {
                let x = choose|x: int| 0 <= x < s.skip(1).len() && e1[i] == s.skip(1)[x];
                assert(e[i] == s[x + 1]);
            }
        }
    } else {
        lemma_escape_spaces_bytes(s);
        lemma_dec_digits(k);
        let head: Seq<u8> = if k == 1 {
            seq![32u8]
        } else if s.len() > 0 && is_digit(s[0]) {
            repeat_spaces(k)
        } else {
            space_run_escaped(k)
        };
        assert(e == head + escape_spaces(s));
        assert forall|i: int|
            0 <= i < e.len() implies #[trigger] e[i] == SPACE_ESCAPE || e[i] == 32 || is_digit(
            e[i],
        ) || exists|x: int| 0 <= x < s.len() && e[i] == s[x] by {
            if i < head.len() {
                assert(e[i] == head[i]);
                if k != 1 && !(s.len() > 0 && is_digit(s[0])) && 1 <= i < 1 + dec_digits(k).len() {
                    assert(head[i] == dec_digits(k)[i - 1]);
                }
            } else {
                assert(e[i] == escape_spaces(s)[i - head.len()]);
            }
        }
    }
}

/// Every byte the normalization emits is a newline or a byte of its input.
proof fn lemma_norm_bytes(s: Seq<u8>)
    ensures
        forall|i: int|
            0 <= i < norm_newlines(s).len() ==> #[trigger] norm_newlines(s)[i] == 10 || exists|
                x: int,
            | 0 <= x < s.len() && norm_newlines(s)[i] == s[x],
    decreases s.len(),
{
    if s.len() == 0 {
    } else {
        let n = norm_newlines(s);
        let tail: Seq<u8> = if s[0] == 13 && s.len() >= 2 && s[1] == 10 {
            s.skip(2)
        } else {
            s.skip(1)
        };
        let off = s.len() - tail.len();
        lemma_norm_bytes(tail);
        assert forall|i: int|
            0 <= i < n.len() implies #[trigger] n[i] == 10 || exists|x: int|
            0 <= x < s.len() && n[i] == s[x] by {
            if i == 0 {
                if s[0] != 13 {
                    assert(n[0] == s[0]);
                }
            } else {
                assert(n[i] == norm_newlines(tail)[i - 1]);
                if norm_newlines(tail)[i - 1] != 10 {
                    let x = choose|x: int| 0 <= x < tail.len() && norm_newlines(tail)[i - 1]
                        == tail[x];
                    assert(n[i] == s[x + off]);
                }
            }
        }
    }
}

/// No byte of the forward transform's output is whitespace other than a
/// space, provided the input holds no vertical tab or form feed: the output
/// and its tokens fit on one line of an artifact file, and the tokenizer
/// skips nothing.
pub proof fn lemma_replace_line_safe(s: Seq<u8>)
    requires
        valid_utf8(s),
    ensures
        forall|i: int|
            0 <= i < replace_spec(s).len() ==> #[trigger] replace_spec(s)[i] != 9 && replace_spec(
                s,
            )[i] != 10 && replace_spec(s)[i] != 13,
        (forall|i: int| 0 <= i < s.len() ==> #[trigger] s[i] != 11 && s[i] != 12) ==> forall|i: int|
            0 <= i < replace_spec(s).len() ==> #[trigger] replace_spec(s)[i] != 11 && replace_spec(
                s,
            )[i] != 12,
{
    let clean = forall|i: int| 0 <= i < s.len() ==> #[trigger] s[i] != 11 && s[i] != 12;
    let n = norm_newlines(s);
    let e = escape_non_ascii(n);
    let z = escape_nl_tab(e);
    lemma_norm_facts(s);
    lemma_norm_bytes(s);
    lemma_escape_non_ascii_bytes(n);
    lemma_escape_spaces_bytes(z);
    assert forall|i: int|
        0 <= i < replace_spec(s).len() implies #[trigger] replace_spec(s)[i] != 9 && replace_spec(
        s,
    )[i] != 10 && replace_spec(s)[i] != 13 && (clean ==> replace_spec(s)[i] != 11 && replace_spec(
        s,
    )[i] != 12) by {
        let b = replace_spec(s)[i];
        if !(b == SPACE_ESCAPE || b == 32 || is_digit(b)) {
            let x = choose|x: int| 0 <= x < z.len() && replace_spec(s)[i] == z[x];
            assert(z[x] == escape_nl_tab_byte(e[x]));
            if !(e[x] == 10 || e[x] == 9) {
                assert(b == e[x]);
                if !(e[x] == B64_PREFIX || e[x] == B64_SUFFIX || is_b64_span_byte(e[x])) {
                    let y = choose|y: int| 0 <= y < n.len() && e[x] == n[y];
                    assert(n[y] != 13);
                    if n[y] == 10 {
                        assert(z[x] == NEWLINE_ESCAPE);
                    } else if clean {
                        let w = choose|w: int| 0 <= w < s.len() && n[y] == s[w];
                        assert(s[w] != 11 && s[w] != 12);
                    }
                } else {
                    if is_b64_span_byte(e[x]) {
                        lemma_span_byte_range(e[x]);
                    }
                }
            }
        }
    }
}

/// The forward transform of valid UTF-8 text is pure ASCII.
pub proof fn lemma_replace_ascii(s: Seq<u8>)
    requires
        valid_utf8(s),
    ensures
        all_ascii(replace_spec(s)),
{
    lemma_norm_preserves_utf8(s);
    lemma_escape_non_ascii_ascii(norm_newlines(s));
    lemma_escape_nl_tab_ascii(escape_non_ascii(norm_newlines(s)));
    lemma_escape_spaces_ascii(escape_nl_tab(escape_non_ascii(norm_newlines(s))));
}

/// Round trip through the placeholder codec: restoring a replaced text gives
/// back the text with its line endings normalized. Holds for every valid
/// UTF-8 text that contains none of the five reserved escape bytes.
pub proof fn lemma_codec_round_trip_normalized(s: Seq<u8>)
    requires
        valid_utf8(s),
        no_reserved(s),
        s.len() <= usize::MAX,
    ensures
        restore_spec(replace_spec(s)) == norm_newlines(s),
{
    let n = norm_newlines(s);
    lemma_norm_preserves_utf8(s);
    lemma_norm_facts(s);
    lemma_codec_inverse(n);
}

/// Round trip through the placeholder codec: on text with no reserved escape
/// byte and no carriage return, restore after replace is the identity.
pub proof fn lemma_codec_round_trip(s: Seq<u8>)
    requires
        valid_utf8(s),
        no_reserved(s),
        no_cr(s),
        s.len() <= usize::MAX,
    ensures
        restore_spec(replace_spec(s)) == s,
{
    lemma_codec_round_trip_normalized(s);
    lemma_norm_facts(s);
}

/// Any single non-ASCII character survives the codec unchanged.
pub proof fn lemma_nonascii_char_round_trip(c: char)
    requires
        c as u32 > 0x7f,
    ensures
        restore_spec(replace_spec(encode_utf8(seq![c]))) == encode_utf8(seq![c]),
{
    broadcast use vstd::utf8::group_utf8_lib;

    let s = encode_utf8(seq![c]);
    assert(valid_utf8(s));
    encode_utf8_first_scalar(seq![c]);
    assert(seq![c].drop_first() =~= Seq::<char>::empty());
    assert(encode_utf8(Seq::<char>::empty()) =~= Seq::<u8>::empty());
    assert(s =~= encode_scalar(c as u32));
    assert forall|i: int| 0 <= i < s.len() implies #[trigger] s[i] >= 0x80 by {
        char_is_scalar(c);
        assert(!has_width_1_encoding(c as u32));
    }
    assert(no_reserved(s));
    assert(no_cr(s));
    assert(s.len() <= 4);
    lemma_codec_round_trip(s);
}

/// The replacement character's bytes are valid UTF-8.
proof fn lemma_fffd_valid()
    ensures
        valid_utf8(fffd_bytes()),
{
    reveal_with_fuel(valid_utf8, 2);
    let s = fffd_bytes();
    assert(s[0] == 0xef && s[1] == 0xbf && s[2] == 0xbd);
    assert(is_leading_byte_width_3(0xef));
    assert(is_continuation_byte(0xbf) && is_continuation_byte(0xbd));
    assert(((((0xefu8 & 0x0f) as u32) << 12) | (((0xbfu8 & 0x3f) as u32) << 6) | ((0xbdu8
        & 0x3f) as u32)) == 0xfffd) by (bit_vector);
    assert(codepoint_width_3(0xef, 0xbf, 0xbd) == 0xfffd);
    assert(valid_first_scalar(s));
    assert(length_of_first_scalar(s) == 3);
    assert(pop_first_scalar(s) =~= Seq::<u8>::empty());
}

/// The base64 restore stage copies a non-ASCII character's bytes unchanged.
proof fn lemma_restore_b64_scalar_step(s: Seq<u8>)
    requires
        s.len() > 0,
        valid_first_scalar(s),
        s[0] >= 0x80,
    ensures
        restore_b64(s) == take_first_scalar(s) + restore_b64(pop_first_scalar(s)),
{
    reveal_with_fuel(restore_b64, 5);
    let k = length_of_first_scalar(s);
    assert(k >= 2);
    assert(is_continuation_byte(s[1]));
    assert(s.skip(1)[0] == s[1]);
    if k == 2 {
        assert(s.skip(1).skip(1) =~= s.skip(2));
        assert(restore_b64(s) =~= seq![s[0]] + (seq![s[1]] + restore_b64(s.skip(2))));
        assert(seq![s[0]] + (seq![s[1]] + restore_b64(s.skip(2))) =~= take_first_scalar(s)
            + restore_b64(pop_first_scalar(s))) by {
            assert(take_first_scalar(s) =~= seq![s[0], s[1]]);
            assert(pop_first_scalar(s) =~= s.skip(2));
        }
    } else if k == 3 {
        assert(is_continuation_byte(s[2]));
        assert(s.skip(1).skip(1) =~= s.skip(2));
        assert(s.skip(2)[0] == s[2]);
        assert(s.skip(2).skip(1) =~= s.skip(3));
        assert(restore_b64(s) =~= seq![s[0]] + (seq![s[1]] + (seq![s[2]] + restore_b64(
            s.skip(3),
        ))));
        assert(seq![s[0]] + (seq![s[1]] + (seq![s[2]] + restore_b64(s.skip(3)))) =~=
        take_first_scalar(s) + restore_b64(pop_first_scalar(s))) by {
            assert(take_first_scalar(s) =~= seq![s[0], s[1], s[2]]);
            assert(pop_first_scalar(s) =~= s.skip(3));
        }
    } else {
        assert(is_continuation_byte(s[2]));
        assert(is_continuation_byte(s[3]));
        assert(s.skip(1).skip(1) =~= s.skip(2));
        assert(s.skip(2)[0] == s[2]);
        assert(s.skip(2).skip(1) =~= s.skip(3));
        assert(s.skip(3)[0] == s[3]);
        assert(s.skip(3).skip(1) =~= s.skip(4));
        assert(restore_b64(s) =~= seq![s[0]] + (seq![s[1]] + (seq![s[2]] + (seq![s[3]]
            + restore_b64(s.skip(4))))));
        assert(seq![s[0]] + (seq![s[1]] + (seq![s[2]] + (seq![s[3]] + restore_b64(s.skip(4)))))
            =~= take_first_scalar(s) + restore_b64(pop_first_scalar(s))) by {
            assert(take_first_scalar(s) =~= seq![s[0], s[1], s[2], s[3]]);
            assert(pop_first_scalar(s) =~= s.skip(4));
        }
    }
}

/// The space restore stage copies a non-ASCII character's bytes unchanged.
proof fn lemma_restore_spaces_scalar_step(s: Seq<u8>)
    requires
        s.len() > 0,
        valid_first_scalar(s),
        s[0] >= 0x80,
    ensures
        restore_spaces(s) == take_first_scalar(s) + restore_spaces(pop_first_scalar(s)),
{
    reveal_with_fuel(restore_spaces, 5);
    let k = length_of_first_scalar(s);
    assert(k >= 2);
    assert(is_continuation_byte(s[1]));
    assert(s.skip(1)[0] == s[1]);
    if k == 2 {
        assert(s.skip(1).skip(1) =~= s.skip(2));
        assert(restore_spaces(s) =~= seq![s[0]] + (seq![s[1]] + restore_spaces(s.skip(2))));
        assert(seq![s[0]] + (seq![s[1]] + restore_spaces(s.skip(2))) =~= take_first_scalar(s)
            + restore_spaces(pop_first_scalar(s))) by {
            assert(take_first_scalar(s) =~= seq![s[0], s[1]]);
            assert(pop_first_scalar(s) =~= s.skip(2));
        }
    } else if k == 3 {
        assert(is_continuation_byte(s[2]));
        assert(s.skip(1).skip(1) =~= s.skip(2));
        assert(s.skip(2)[0] == s[2]);
        assert(s.skip(2).skip(1) =~= s.skip(3));
        assert(restore_spaces(s) =~= seq![s[0]] + (seq![s[1]] + (seq![s[2]] + restore_spaces(
            s.skip(3),
        ))));
        assert(seq![s[0]] + (seq![s[1]] + (seq![s[2]] + restore_spaces(s.skip(3)))) =~=
        take_first_scalar(s) + restore_spaces(pop_first_scalar(s))) by {
            assert(take_first_scalar(s) =~= seq![s[0], s[1], s[2]]);
            assert(pop_first_scalar(s) =~= s.skip(3));
        }
    } else {
        assert(is_continuation_byte(s[2]));
        assert(is_continuation_byte(s[3]));
        assert(s.skip(1).skip(1) =~= s.skip(2));
        assert(s.skip(2)[0] == s[2]);
        assert(s.skip(2).skip(1) =~= s.skip(3));
        assert(s.skip(3)[0] == s[3]);
        assert(s.skip(3).skip(1) =~= s.skip(4));
        assert(restore_spaces(s) =~= seq![s[0]] + (seq![s[1]] + (seq![s[2]] + (seq![s[3]]
            + restore_spaces(s.skip(4))))));
        assert(seq![s[0]] + (seq![s[1]] + (seq![s[2]] + (seq![s[3]] + restore_spaces(s.skip(4)))))
            =~= take_first_scalar(s) + restore_spaces(pop_first_scalar(s))) by {
            assert(take_first_scalar(s) =~= seq![s[0], s[1], s[2], s[3]]);
            assert(pop_first_scalar(s) =~= s.skip(4));
        }
    }
}

/// Undoing the base64 escapes keeps valid UTF-8 valid.
proof fn lemma_restore_b64_valid(s: Seq<u8>)
    requires
        valid_utf8(s),
    ensures
        valid_utf8(restore_b64(s)),
    decreases s.len(), 0int,
{
    broadcast use vstd::utf8::group_utf8_lib;

    if s.len() == 0 {
        assert(restore_b64(s) =~= Seq::<u8>::empty());
    } else {
        assert(valid_first_scalar(s));
        if s[0] < 0x80 {
            assert(length_of_first_scalar(s) == 1);
            assert(pop_first_scalar(s) =~= s.skip(1));
            assert(valid_utf8(s.skip(1)));
            if s[0] == B64_PREFIX {
                lemma_restore_b64_span_valid(s.skip(1), Seq::empty());
            } else {
                lemma_restore_b64_valid(s.skip(1));
                lemma_single_ascii_valid(s[0]);
                valid_utf8_concat(seq![s[0]], restore_b64(s.skip(1)));
            }
        } else {
            lemma_restore_b64_scalar_step(s);
            lemma_restore_b64_valid(pop_first_scalar(s));
            lemma_take_first_scalar_valid(s);
            valid_utf8_concat(take_first_scalar(s), restore_b64(pop_first_scalar(s)));
        }
    }
}

/// The span scanner yields valid UTF-8 from valid UTF-8.
proof fn lemma_restore_b64_span_valid(t: Seq<u8>, acc: Seq<u8>)
    requires
        valid_utf8(t),
        all_ascii(acc),
    ensures
        valid_utf8(restore_b64_span(t, acc)),
    decreases t.len(), 1int,
{
    broadcast use vstd::utf8::group_utf8_lib;

    if t.len() > 0 && is_b64_span_byte(t[0]) {
        lemma_span_byte_range(t[0]);
        assert(valid_first_scalar(t));
        assert(length_of_first_scalar(t) == 1);
        assert(pop_first_scalar(t) =~= t.skip(1));
        assert forall|i: int| 0 <= i < acc.push(t[0]).len() implies #[trigger] acc.push(
            t[0],
        )[i] < 0x80 by {
            if i < acc.len() {
                assert(acc.push(t[0])[i] == acc[i]);
            }
        }
        lemma_restore_b64_span_valid(t.skip(1), acc.push(t[0]));
    } else if t.len() > 0 && t[0] == B64_SUFFIX && acc.len() > 0 {
        assert(valid_first_scalar(t));
        assert(length_of_first_scalar(t) == 1);
        assert(pop_first_scalar(t) =~= t.skip(1));
        lemma_restore_b64_valid(t.skip(1));
        assert(valid_utf8(decoded_span(acc))) by {
            lemma_fffd_valid();
        }
        valid_utf8_concat(decoded_span(acc), restore_b64(t.skip(1)));
    } else {
        lemma_restore_b64_valid(t);
        assert(all_ascii(seq![B64_PREFIX] + acc)) by {
            assert forall|i: int| 0 <= i < (seq![B64_PREFIX] + acc).len() implies #[trigger] (
            seq![B64_PREFIX] + acc)[i] < 0x80 by {
                if i > 0 {
                    assert((seq![B64_PREFIX] + acc)[i] == acc[i - 1]);
                }
            }
        }
        lemma_ascii_valid(seq![B64_PREFIX] + acc);
        valid_utf8_concat(seq![B64_PREFIX] + acc, restore_b64(t));
        assert(seq![B64_PREFIX] + acc + restore_b64(t) =~= (seq![B64_PREFIX] + acc) + restore_b64(
            t,
        ));
    }
}

/// Undoing the space-run escapes keeps valid UTF-8 valid.
proof fn lemma_restore_spaces_valid(s: Seq<u8>)
    requires
        valid_utf8(s),
    ensures
        valid_utf8(restore_spaces(s)),
    decreases s.len(), 0int,
{
    broadcast use vstd::utf8::group_utf8_lib;

    if s.len() == 0 {
        assert(restore_spaces(s) =~= Seq::<u8>::empty());
    } else {
        assert(valid_first_scalar(s));
        if s[0] < 0x80 {
            assert(length_of_first_scalar(s) == 1);
            assert(pop_first_scalar(s) =~= s.skip(1));
            assert(valid_utf8(s.skip(1)));
            if s[0] == SPACE_ESCAPE {
                lemma_restore_space_span_valid(s.skip(1), Seq::empty());
            } else {
                lemma_restore_spaces_valid(s.skip(1));
                lemma_single_ascii_valid(s[0]);
                valid_utf8_concat(seq![s[0]], restore_spaces(s.skip(1)));
            }
        } else {
            lemma_restore_spaces_scalar_step(s);
            lemma_restore_spaces_valid(pop_first_scalar(s));
            lemma_take_first_scalar_valid(s);
            valid_utf8_concat(take_first_scalar(s), restore_spaces(pop_first_scalar(s)));
        }
    }
}

/// The digit scanner yields valid UTF-8 from valid UTF-8.
proof fn lemma_restore_space_span_valid(t: Seq<u8>, ds: Seq<u8>)
    requires
        valid_utf8(t),
        all_ascii(ds),
    ensures
        valid_utf8(restore_space_span(t, ds)),
    decreases t.len(), 1int,
{
    broadcast use vstd::utf8::group_utf8_lib;

    if t.len() > 0 && is_digit(t[0]) {
        assert(valid_first_scalar(t));
        assert(length_of_first_scalar(t) == 1);
        assert(pop_first_scalar(t) =~= t.skip(1));
        assert forall|i: int| 0 <= i < ds.push(t[0]).len() implies #[trigger] ds.push(
            t[0],
        )[i] < 0x80 by {
            if i < ds.len() {
                assert(ds.push(t[0])[i] == ds[i]);
            }
        }
        lemma_restore_space_span_valid(t.skip(1), ds.push(t[0]));
    } else if t.len() > 0 && t[0] == SPACE_ESCAPE && ds.len() > 0 {
        assert(valid_first_scalar(t));
        assert(length_of_first_scalar(t) == 1);
        assert(pop_first_scalar(t) =~= t.skip(1));
        lemma_restore_spaces_valid(t.skip(1));
        assert(all_ascii(repeat_spaces(space_count(ds))));
        lemma_ascii_valid(repeat_spaces(space_count(ds)));
        valid_utf8_concat(repeat_spaces(space_count(ds)), restore_spaces(t.skip(1)));
    } else {
        lemma_restore_spaces_valid(t);
        assert(all_ascii(seq![SPACE_ESCAPE] + ds)) by {
            assert forall|i: int| 0 <= i < (seq![SPACE_ESCAPE] + ds).len() implies #[trigger] (
            seq![SPACE_ESCAPE] + ds)[i] < 0x80 by {
                if i > 0 {
                    assert((seq![SPACE_ESCAPE] + ds)[i] == ds[i - 1]);
                }
            }
        }
        lemma_ascii_valid(seq![SPACE_ESCAPE] + ds);
        valid_utf8_concat(seq![SPACE_ESCAPE] + ds, restore_spaces(t));
        assert(seq![SPACE_ESCAPE] + ds + restore_spaces(t) =~= (seq![SPACE_ESCAPE] + ds)
            + restore_spaces(t));
    }
}

/// Restoring newlines and tabs keeps valid UTF-8 valid.
proof fn lemma_restore_nl_tab_valid(s: Seq<u8>)
    requires
        valid_utf8(s),
    ensures
        valid_utf8(restore_nl_tab(s)),
    decreases s.len(),
{
    broadcast use vstd::utf8::group_utf8_lib;

    if s.len() == 0 {
        assert(restore_nl_tab(s) =~= Seq::<u8>::empty());
    } else {
        assert(valid_first_scalar(s));
        let k = length_of_first_scalar(s);
        lemma_restore_nl_tab_valid(pop_first_scalar(s));
        if s[0] < 0x80 {
            assert(k == 1);
            assert(pop_first_scalar(s) =~= s.skip(1));
            let b = restore_nl_tab_byte(s[0]);
            assert(b < 0x80);
            lemma_single_ascii_valid(b);
            valid_utf8_concat(seq![b], restore_nl_tab(s.skip(1)));
            assert(restore_nl_tab(s) =~= seq![b] + restore_nl_tab(s.skip(1)));
        } else {
            lemma_take_first_scalar_valid(s);
            valid_utf8_concat(take_first_scalar(s), restore_nl_tab(pop_first_scalar(s)));
            assert(restore_nl_tab(s) =~= take_first_scalar(s) + restore_nl_tab(
                pop_first_scalar(s),
            )) by {
                assert forall|i: int|
                    0 <= i < s.len() implies #[trigger] restore_nl_tab(s)[i] == (
                take_first_scalar(s) + restore_nl_tab(pop_first_scalar(s)))[i] by {
                    if i < k {
                        assert(restore_nl_tab(s)[i] == restore_nl_tab_byte(s[i]));
                        if i >= 1 {
                            assert(is_continuation_byte(s[i]));
                        }
                        assert(s[i] >= 0x80);
                    } else {
                        assert(restore_nl_tab(s)[i] == restore_nl_tab_byte(s[i]));
                        assert(restore_nl_tab(pop_first_scalar(s))[i - k] == restore_nl_tab_byte(
                            pop_first_scalar(s)[i - k],
                        ));
                        assert(pop_first_scalar(s)[i - k] == s[i]);
                    }
                }
            }
        }
    }
}

/// The whole reverse transform keeps valid UTF-8 valid: restored bytes are
/// always text again.
pub proof fn lemma_restore_valid(s: Seq<u8>)
    requires
        valid_utf8(s),
    ensures
        valid_utf8(restore_spec(s)),
{
    lemma_restore_b64_valid(s);
    lemma_restore_spaces_valid(restore_b64(s));
    lemma_restore_nl_tab_valid(restore_spaces(restore_b64(s)));
}

} // verus!
