//! Decimal rendering and parsing of chunk indices and space-run lengths.
use vstd::prelude::*;

verus! {

/// True when the byte is an ASCII decimal digit.
pub open spec fn is_digit(b: u8) -> bool {
    48 <= b && b <= 57
}

/// Whether a byte is an ASCII decimal digit.
pub fn byte_is_digit(b: u8) -> (r: bool)
    ensures
        r == is_digit(b),
{
    48 <= b && b <= 57
}

/// True when every byte of the sequence is an ASCII decimal digit.
pub open spec fn all_digits(s: Seq<u8>) -> bool {
    forall|i: int| 0 <= i < s.len() ==> is_digit(#[trigger] s[i])
}

/// The decimal digit bytes of a natural number, most significant first, with
/// no leading zero except for the number zero itself.
pub open spec fn dec_digits(n: nat) -> Seq<u8>
    decreases n,
{
    if n < 10 {
        seq![(48 + n) as u8]
    } else {
        dec_digits(n / 10).push((48 + n % 10) as u8)
    }
}

/// The natural number a digit sequence denotes, read most significant first.
pub open spec fn digits_val(s: Seq<u8>) -> nat
    decreases s.len(),
{
    if s.len() == 0 {
        0
    } else {
        digits_val(s.drop_last()) * 10 + (if is_digit(s.last()) {
            (s.last() - 48) as nat
        } else {
            0
        })
    }
}

/// The decimal rendering of a number consists of digits, is nonempty, and
/// denotes the number itself.
pub proof fn lemma_dec_digits(n: nat)
    ensures
        all_digits(dec_digits(n)),
        dec_digits(n).len() >= 1,
        digits_val(dec_digits(n)) == n,
    decreases n,
{
    if n < 10 {
        assert(digits_val(dec_digits(n).drop_last()) == 0) by {
            assert(dec_digits(n).drop_last() =~= Seq::<u8>::empty());
        }
    } else {
        lemma_dec_digits(n / 10);
        let d = dec_digits(n);
        assert(d.drop_last() =~= dec_digits(n / 10));
        assert(digits_val(d) == (n / 10) * 10 + n % 10);
        assert((n / 10) * 10 + n % 10 == n) by (nonlinear_arith);
        assert forall|i: int| 0 <= i < d.len() implies is_digit(#[trigger] d[i]) by {
            if i < d.len() - 1 {
                assert(d[i] == dec_digits(n / 10)[i]);
            }
        }
    }
}

/// A digit sequence denotes at least what any of its prefixes denotes.
pub proof fn lemma_digits_val_prefix_le(s: Seq<u8>, i: int)
    requires
        0 <= i <= s.len(),
    ensures
        digits_val(s.take(i)) <= digits_val(s),
    decreases s.len(),
{
    if i < s.len() {
        assert(s.take(i) =~= s.drop_last().take(i));
        lemma_digits_val_prefix_le(s.drop_last(), i);
        let x = digits_val(s.drop_last());
        assert(x <= x * 10) by (nonlinear_arith)
            requires
                x >= 0,
        ;
        assert(digits_val(s) >= x * 10);
    } else {
        assert(s.take(i) =~= s);
    }
}

/// The decimal digit bytes of a machine integer, most significant first.
pub fn format_usize(n: usize) -> (r: Vec<u8>)
    ensures
        r@ == dec_digits(n as nat),
{
    let mut tmp: Vec<u8> = Vec::new();
    let mut m = n;
    loop
        invariant_except_break
            dec_digits(n as nat) == dec_digits(m as nat) + tmp@.reverse(),
        ensures
            dec_digits(n as nat) == tmp@.reverse(),
        decreases m,
    {
        let ghost prev = tmp@;
        let d: u8 = 48 + (m % 10) as u8;
        tmp.push(d);
        let next = m / 10;
        proof {
            assert(tmp@.reverse() =~= seq![d] + prev.reverse());
            if next == 0 {
                assert(dec_digits(m as nat) =~= seq![d]);
                assert(dec_digits(m as nat) + prev.reverse() =~= tmp@.reverse());
            } else {
                assert(dec_digits(m as nat) == dec_digits(next as nat).push(d));
                assert(dec_digits(next as nat) + tmp@.reverse() =~= dec_digits(next as nat).push(d)
                    + prev.reverse());
            }
        }
        m = next;
        if m == 0 {
            break ;
        }
    }
    let mut r: Vec<u8> = Vec::new();
    let len = tmp.len();
    for i in 0..len
        invariant
            len == tmp.len(),
            r@ =~= tmp@.reverse().take(i as int),
    {
        r.push(tmp[len - 1 - i]);
        proof {
            assert(r@ =~= tmp@.reverse().take(i + 1));
        }
    }
    proof {
        assert(r@ =~= tmp@.reverse());
    }
    r
}

/// Parses a byte sequence as an unsigned decimal number: `Some` exactly when
/// the sequence is nonempty, all digits, and the value fits in `usize`.
pub fn parse_usize(s: &[u8]) -> (r: Option<usize>)
    ensures
        r is Some <==> s@.len() > 0 && all_digits(s@) && digits_val(s@) <= usize::MAX,
        r matches Some(v) ==> v == digits_val(s@),
{
    if s.len() == 0 {
        return None;
    }
    let mut acc: usize = 0;
    let len = s.len();
    for i in 0..len
        invariant
            len == s@.len(),
            all_digits(s@.take(i as int)),
            acc == digits_val(s@.take(i as int)),
            digits_val(s@.take(i as int)) <= usize::MAX,
    {
        let b = s[i];
        if !byte_is_digit(b) {
            assert(!all_digits(s@));
            return None;
        }
        proof {
            assert(s@.take(i + 1).drop_last() =~= s@.take(i as int));
            assert(s@.take(i + 1).last() == s@[i as int]);
        }
        let step = match acc.checked_mul(10) {
            Some(t) => t.checked_add((b - 48) as usize),
            None => None,
        };
        match step {
            Some(v) => {
                acc = v;
            },
            None => {
                proof {
                    assert(digits_val(s@.take(i + 1)) > usize::MAX);
                    lemma_digits_val_prefix_le(s@, i + 1);
                }
                return None;
            },
        }
    }
    proof {
        assert(s@.take(len as int) =~= s@);
    }
    Some(acc)
}

} // verus!
