//! The chunk pipeline: per chunk, the forward codec, the tokenizer and the
//! dictionary produce three artifacts — the dictionary file, its sorted
//! copy, and the index stream — and the decoder turns the artifacts back
//! into the chunk's text. The dictionary merger folds many dictionary files
//! into one deduplicated token list.
use crate::dictionary::{dict_of, lemma_dict_of_facts, Dictionary};
use crate::numfmt::{all_digits, dec_digits, digits_val, format_usize, is_digit, lemma_dec_digits,
    parse_usize};
use crate::tokenize::{concat_all, is_ws_byte, leading_count, lemma_leading_count_determined,
    tokenize_spec};
use vstd::multiset::Multiset;
use vstd::prelude::*;

verus! {

/// A line's content with one trailing carriage return removed.
pub open spec fn strip_cr(l: Seq<u8>) -> Seq<u8> {
    if l.len() > 0 && l.last() == 13 {
        l.drop_last()
    } else {
        l
    }
}

/// The lines of a file: split at newline bytes, each line stripped of one
/// trailing carriage return, with no empty line after a final newline.
pub open spec fn split_lines(s: Seq<u8>) -> Seq<Seq<u8>>
    decreases s.len(),
{
    if s.len() == 0 {
        Seq::empty()
    } else {
        let k = vstd::math::min(leading_count(s, |b: u8| b != 10) as int, s.len() as int);
        if k == s.len() {
            seq![strip_cr(s.take(k))]
        } else {
            seq![strip_cr(s.take(k))] + split_lines(s.skip(k + 1))
        }
    }
}

/// Lines joined by a newline after each, the dictionary file format.
pub open spec fn join_lines(ls: Seq<Seq<u8>>) -> Seq<u8>
    decreases ls.len(),
{
    if ls.len() == 0 {
        Seq::empty()
    } else {
        ls[0] + seq![10u8] + join_lines(ls.drop_first())
    }
}

/// The whitespace-separated words of a file.
pub open spec fn split_words(s: Seq<u8>) -> Seq<Seq<u8>>
    decreases s.len(),
{
    if s.len() == 0 {
        Seq::empty()
    } else if is_ws_byte(s[0]) {
        split_words(s.skip(1))
    } else {
        let k = vstd::math::min(leading_count(s, |b: u8| !is_ws_byte(b)) as int, s.len() as int);
        seq![s.take(k)] + split_words(s.skip(k))
    }
}

/// The position of the first occurrence of a token in a list.
pub open spec fn first_index<T>(d: Seq<Seq<T>>, t: Seq<T>) -> int
    decreases d.len(),
{
    if d.len() == 0 {
        0
    } else if d[0] == t {
        0
    } else {
        1 + first_index(d.drop_first(), t)
    }
}

/// In a duplicate-free list, the first index of a held token is its only
/// position.
pub proof fn lemma_first_index<T>(d: Seq<Seq<T>>, t: Seq<T>, v: int)
    requires
        0 <= v < d.len(),
        d[v] == t,
        forall|i: int, j: int| 0 <= i < j < d.len() ==> d[i] != d[j],
    ensures
        first_index(d, t) == v,
    decreases d.len(),
{
    if d[0] == t {
        if v != 0 {
            assert(d[0] == d[v]);
        }
    } else {
        assert(v >= 1);
        assert(d.drop_first()[v - 1] == t);
        assert forall|i: int, j: int|
            0 <= i < j < d.drop_first().len() implies d.drop_first()[i] != d.drop_first()[j] by {
            assert(d.drop_first()[i] == d[i + 1] && d.drop_first()[j] == d[j + 1]);
        }
        lemma_first_index(d.drop_first(), t, v - 1);
    }
}

/// The index stream of a token sequence: each token's dictionary index in
/// decimal, each followed by one space.
pub open spec fn enc_stream(toks: Seq<Seq<u8>>, d: Seq<Seq<u8>>) -> Seq<u8>
    decreases toks.len(),
{
    if toks.len() == 0 {
        Seq::empty()
    } else {
        dec_digits(first_index(d, toks[0]) as nat) + seq![32u8] + enc_stream(toks.drop_first(), d)
    }
}

/// True when an index word denotes an index the dictionary holds.
pub open spec fn word_ok(w: Seq<u8>, d: Seq<Seq<u8>>) -> bool {
    all_digits(w) && digits_val(w) <= usize::MAX && digits_val(w) < d.len()
}

/// True when every word of the index stream denotes a held index.
pub open spec fn all_words_ok(words: Seq<Seq<u8>>, d: Seq<Seq<u8>>) -> bool {
    forall|i: int| 0 <= i < words.len() ==> word_ok(#[trigger] words[i], d)
}

/// The tokens the index words select, concatenated; a word that denotes no
/// held index contributes nothing.
pub open spec fn decode_words(words: Seq<Seq<u8>>, d: Seq<Seq<u8>>) -> Seq<u8>
    decreases words.len(),
{
    if words.len() == 0 {
        Seq::empty()
    } else {
        (if word_ok(words[0], d) {
            d[digits_val(words[0]) as int]
        } else {
            Seq::empty()
        }) + decode_words(words.drop_first(), d)
    }
}

/// Nondecreasing lexicographic byte order.
pub open spec fn lex_le(a: Seq<u8>, b: Seq<u8>) -> bool
    decreases a.len(),
{
    if a.len() == 0 {
        true
    } else if b.len() == 0 {
        false
    } else if a[0] < b[0] {
        true
    } else if a[0] > b[0] {
        false
    } else {
        lex_le(a.drop_first(), b.drop_first())
    }
}

/// True when consecutive lines are in nondecreasing lexicographic order.
pub open spec fn sorted_lex(ls: Seq<Seq<u8>>) -> bool {
    forall|i: int, j: int| 0 <= i <= j < ls.len() ==> lex_le(#[trigger] ls[i], #[trigger] ls[j])
}

/// Splitting undoes joining, for lines without interior newlines or
/// trailing carriage returns.
pub proof fn lemma_split_join_lines(ls: Seq<Seq<u8>>)
    requires
        forall|i: int, j: int|
            0 <= i < ls.len() && 0 <= j < ls[i].len() ==> #[trigger] ls[i][j] != 10,
        forall|i: int| 0 <= i < ls.len() && ls[i].len() > 0 ==> #[trigger] ls[i].last() != 13,
    ensures
        split_lines(join_lines(ls)) == ls,
    decreases ls.len(),
{
    if ls.len() == 0 {
    } else {
        let l = ls[0];
        let s = join_lines(ls);
        assert(s =~= l + seq![10u8] + join_lines(ls.drop_first()));
        assert forall|x: int| 0 <= x < l.len() implies (|b: u8| b != 10)(#[trigger] s[x]) by {
            assert(s[x] == l[x]);
        }
        assert(s[l.len() as int] == 10);
        lemma_leading_count_determined(s, |b: u8| b != 10, l.len() as int);
        assert(s.take(l.len() as int) =~= l);
        assert(strip_cr(l) == l);
        assert(s.skip(l.len() as int + 1) =~= join_lines(ls.drop_first()));
        assert forall|i: int, j: int|
            0 <= i < ls.drop_first().len() && 0 <= j < ls.drop_first()[i].len() implies #[trigger] ls.drop_first()[i][j]
            != 10 by {
            assert(ls.drop_first()[i] == ls[i + 1]);
        }
        assert forall|i: int|
            0 <= i < ls.drop_first().len() && ls.drop_first()[i].len() > 0 implies #[trigger] ls.drop_first()[i].last()
            != 13 by {
            assert(ls.drop_first()[i] == ls[i + 1]);
        }
        lemma_split_join_lines(ls.drop_first());
        assert(k_of(s) == l.len() as int) by {
            assert(leading_count(s, |b: u8| b != 10) == l.len());
        }
        assert(split_lines(s) =~= seq![l] + ls.drop_first());
        assert(seq![l] + ls.drop_first() =~= ls);
    }
}

/// The line-content length the splitter sees at the head of a file.
pub open spec fn k_of(s: Seq<u8>) -> int {
    vstd::math::min(leading_count(s, |b: u8| b != 10) as int, s.len() as int)
}

/// Every word the splitter yields is nonempty.
pub proof fn lemma_split_words_nonempty(s: Seq<u8>)
    ensures
        forall|i: int|
            0 <= i < split_words(s).len() ==> #[trigger] split_words(s)[i].len() >= 1,
    decreases s.len(),
{
    if s.len() == 0 {
    } else if is_ws_byte(s[0]) {
        lemma_split_words_nonempty(s.skip(1));
        assert(split_words(s) == split_words(s.skip(1)));
    } else {
        let k = vstd::math::min(leading_count(s, |b: u8| !is_ws_byte(b)) as int, s.len() as int);
        lemma_split_words_nonempty(s.skip(k));
        let ws = split_words(s);
        assert forall|i: int| 0 <= i < ws.len() implies #[trigger] ws[i].len() >= 1 by {
            if i > 0 {
                assert(ws[i] == split_words(s.skip(k))[i - 1]);
            } else {
                assert(ws[0] == s.take(k));
            }
        }
    }
}

/// Splits a file into its lines.
pub fn split_lines_exec(s: &[u8]) -> (r: Vec<Vec<u8>>)
    ensures
        r@.len() == split_lines(s@).len(),
        forall|i: int| 0 <= i < r@.len() ==> #[trigger] r@[i]@ == split_lines(s@)[i],
{
    let mut r: Vec<Vec<u8>> = Vec::new();
    let ghost mut done: Seq<Seq<u8>> = Seq::empty();
    let mut i: usize = 0;
    let len = s.len();
    proof {
        assert(s@.skip(0) =~= s@);
        assert(done + split_lines(s@) =~= split_lines(s@));
    }
    while i < len
        invariant
            i <= len,
            len == s@.len(),
            r@.len() == done.len(),
            forall|x: int| 0 <= x < done.len() ==> #[trigger] r@[x]@ == done[x],
            split_lines(s@) == done + split_lines(s@.skip(i as int)),
        decreases len - i,
    {
        let ghost t = s@.skip(i as int);
        let ghost d0 = done;
        let mut j = i;
        while j < len && s[j] != 10
            invariant
                i <= j <= len,
                len == s@.len(),
                forall|x: int| i <= x < j ==> #[trigger] s@[x] != 10,
            decreases len - j,
        {
            j = j + 1;
        }
        proof {
            assert forall|x: int| 0 <= x < j - i implies (|b: u8| b != 10)(#[trigger] t[x]) by {
                assert(t[x] == s@[i + x]);
            }
            if j < len {
                assert(t[j - i] == s@[j as int]);
            }
            lemma_leading_count_determined(t, |b: u8| b != 10, j - i);
            assert(t.take(j - i) =~= s@.subrange(i as int, j as int));
        }
        let line = if j > i && s[j - 1] == 13 {
            vstd::slice::slice_to_vec(vstd::slice::slice_subrange(s, i, j - 1))
        } else {
            vstd::slice::slice_to_vec(vstd::slice::slice_subrange(s, i, j))
        };
        proof {
            if j > i && s@[j - 1] == 13 {
                assert(s@.subrange(i as int, j as int).last() == s@[j - 1]);
                assert(s@.subrange(i as int, j - 1) =~= s@.subrange(i as int, j as int).drop_last());
            }
            assert(line@ == strip_cr(t.take(j - i)));
        }
        r.push(line);
        proof {
            done = done.push(strip_cr(t.take(j - i)));
        }
        if j == len {
            proof {
                assert(split_lines(t) =~= seq![strip_cr(t.take(j - i))]);
                assert(split_lines(s@) =~= done);
                assert(s@.skip(len as int) =~= Seq::<u8>::empty());
                assert(done + split_lines(s@.skip(len as int)) =~= done);
            }
            i = len;
        } else {
            proof {
                assert(split_lines(t) =~= seq![strip_cr(t.take(j - i))] + split_lines(
                    t.skip(j - i + 1),
                ));
                assert(t.skip(j - i + 1) =~= s@.skip(j + 1));
                assert(d0 + (seq![strip_cr(t.take(j - i))] + split_lines(s@.skip(j + 1))) =~= done
                    + split_lines(s@.skip(j + 1)));
            }
            i = j + 1;
        }
    }
    proof {
        assert(s@.skip(len as int) =~= Seq::<u8>::empty());
        assert(done + split_lines(s@.skip(len as int)) =~= done);
    }
    r
}

/// Whether a byte is ASCII whitespace.
fn byte_is_ws(b: u8) -> (r: bool)
    ensures
        r == is_ws_byte(b),
{
    b == 9 || b == 10 || b == 11 || b == 12 || b == 13 || b == 32
}

/// Splits a file into its whitespace-separated words.
pub fn split_words_exec(s: &[u8]) -> (r: Vec<Vec<u8>>)
    ensures
        r@.len() == split_words(s@).len(),
        forall|i: int| 0 <= i < r@.len() ==> #[trigger] r@[i]@ == split_words(s@)[i],
{
    let mut r: Vec<Vec<u8>> = Vec::new();
    let ghost mut done: Seq<Seq<u8>> = Seq::empty();
    let mut i: usize = 0;
    let len = s.len();
    proof {
        assert(s@.skip(0) =~= s@);
        assert(done + split_words(s@) =~= split_words(s@));
    }
    while i < len
        invariant
            i <= len,
            len == s@.len(),
            r@.len() == done.len(),
            forall|x: int| 0 <= x < done.len() ==> #[trigger] r@[x]@ == done[x],
            split_words(s@) == done + split_words(s@.skip(i as int)),
        decreases len - i,
    {
        let ghost t = s@.skip(i as int);
        let ghost d0 = done;
        assert(t[0] == s@[i as int]);
        if byte_is_ws(s[i]) {
            proof {
                assert(t.skip(1) =~= s@.skip(i + 1));
            }
            i = i + 1;
        } else {
            let mut j = i + 1;
            while j < len && !byte_is_ws(s[j])
                invariant
                    i < j <= len,
                    len == s@.len(),
                    forall|x: int| i <= x < j ==> !is_ws_byte(#[trigger] s@[x]),
                decreases len - j,
            {
                j = j + 1;
            }
            proof {
                assert forall|x: int| 0 <= x < j - i implies (|b: u8| !is_ws_byte(b))(
                    #[trigger] t[x],
                ) by {
                    assert(t[x] == s@[i + x]);
                }
                if j < len {
                    assert(t[j - i] == s@[j as int]);
                }
                lemma_leading_count_determined(t, |b: u8| !is_ws_byte(b), j - i);
                assert(t.take(j - i) =~= s@.subrange(i as int, j as int));
            }
            let word = vstd::slice::slice_to_vec(vstd::slice::slice_subrange(s, i, j));
            r.push(word);
            proof {
                done = done.push(t.take(j - i));
                assert(split_words(t) =~= seq![t.take(j - i)] + split_words(t.skip(j - i)));
                assert(t.skip(j - i) =~= s@.skip(j as int));
                assert(d0 + (seq![t.take(j - i)] + split_words(s@.skip(j as int))) =~= done
                    + split_words(s@.skip(j as int)));
            }
            i = j;
        }
    }
    proof {
        assert(s@.skip(len as int) =~= Seq::<u8>::empty());
        assert(done + split_words(s@.skip(len as int)) =~= done);
    }
    r
}

/// Whether two byte slices hold the same bytes.
fn bytes_eq(a: &[u8], b: &[u8]) -> (r: bool)
    ensures
        r == (a@ == b@),
{
    if a.len() != b.len() {
        proof {
            assert(a@ != b@);
        }
        return false;
    }
    let len = a.len();
    for i in 0..len
        invariant
            len == a@.len() && len == b@.len(),
            forall|x: int| 0 <= x < i ==> #[trigger] a@[x] == b@[x],
    {
        if a[i] != b[i] {
            return false;
        }
    }
    proof {
        assert(a@ =~= b@);
    }
    true
}

/// The first-seen deduplication of a list of byte lines.
fn dedup_lines(lines: &Vec<Vec<u8>>) -> (r: Vec<Vec<u8>>)
    ensures
        r.deep_view() == dict_of(lines.deep_view()),
{
    let ghost lv = lines.deep_view();
    let mut r: Vec<Vec<u8>> = Vec::new();
    let n = lines.len();
    proof {
        assert(lv.take(0) =~= Seq::<Seq<u8>>::empty());
    }
    for i in 0..n
        invariant
            n == lines@.len(),
            lv == lines.deep_view(),
            r.deep_view() == dict_of(lv.take(i as int)),
    {
        let ghost deep = r.deep_view();
        proof {
            assert(lv[i as int] == lines@[i as int]@);
            assert(lv.take(i + 1).drop_last() =~= lv.take(i as int));
            assert(lv.take(i + 1).last() == lv[i as int]);
        }
        let mut found = false;
        let m = r.len();
        for x in 0..m
            invariant
                i < n,
                n == lines@.len(),
                m == r@.len(),
                deep == r.deep_view(),
                found <==> exists|y: int| 0 <= y < x && #[trigger] deep[y] == lines@[i as int]@,
        {
            let eq = bytes_eq(r[x].as_slice(), lines[i].as_slice());
            proof {
                assert(deep[x as int] == r@[x as int]@);
            }
            if eq {
                found = true;
            }
        }
        proof {
            assert(found <==> deep.contains(lv[i as int]));
        }
        if !found {
            let line = vstd::slice::slice_to_vec(lines[i].as_slice());
            r.push(line);
            proof {
                assert(r.deep_view() =~= deep.push(lv[i as int]));
            }
        }
    }
    proof {
        assert(lv.take(n as int) =~= lv);
    }
    r
}

/// How missing dictionary entries are treated on decode.
#[derive(Clone, Copy, PartialEq, Eq, Structural)]
pub enum DecodeMode {
    /// An index word with no dictionary entry is silently skipped; restored
    /// text can silently lose tokens when artifacts are mismatched.
    Lossy,
    /// An index word with no dictionary entry fails the whole chunk.
    Strict,
}

/// An index word of the stream denotes no entry of the chunk's dictionary.
#[derive(Clone, Copy, Debug, PartialEq, Eq)]
pub struct DecodeError;

/// Decodes one chunk from its persisted artifacts: rebuilds the dictionary
/// from the dictionary file's lines by the same first-seen assignment,
/// selects the token of each index word, concatenates them, and reverses
/// the placeholder codec. In strict mode the chunk fails exactly when some
/// word denotes no dictionary entry; in lossy mode such words are skipped.
pub fn decode_chunk(dict_file: &[u8], enc_file: &[u8], mode: DecodeMode) -> (r: Result<
    Vec<u8>,
    DecodeError,
>)
    ensures
        mode == DecodeMode::Lossy ==> r is Ok,
        mode == DecodeMode::Strict ==> (r is Ok <==> all_words_ok(
            split_words(enc_file@),
            dict_of(split_lines(dict_file@)),
        )),
        r matches Ok(out) ==> out@ == crate::codec::restore_spec(
            decode_words(split_words(enc_file@), dict_of(split_lines(dict_file@))),
        ),
{
    let lines = split_lines_exec(dict_file);
    proof {
        assert(lines.deep_view() =~~= split_lines(dict_file@));
    }
    let toks = dedup_lines(&lines);
    let ghost d = dict_of(split_lines(dict_file@));
    let words = split_words_exec(enc_file);
    proof {
        assert(words.deep_view() =~~= split_words(enc_file@));
        lemma_split_words_nonempty(enc_file@);
    }
    let ghost wv = split_words(enc_file@);
    let dlen = toks.len();
    let mut buf: Vec<u8> = Vec::new();
    let n = words.len();
    proof {
        assert(wv.skip(0) =~= wv);
    }
    for wi in 0..n
        invariant
            n == words@.len(),
            wv == split_words(enc_file@),
            d == dict_of(split_lines(dict_file@)),
            words.deep_view() == wv,
            toks.deep_view() == d,
            dlen == toks@.len(),
            forall|i: int| 0 <= i < wv.len() ==> #[trigger] wv[i].len() >= 1,
            decode_words(wv, d) == buf@ + decode_words(wv.skip(wi as int), d),
            mode == DecodeMode::Strict ==> forall|x: int|
                0 <= x < wi ==> word_ok(#[trigger] wv[x], d),
    {
        let ghost b0 = buf@;
        proof {
            assert(wv.skip(wi as int)[0] == wv[wi as int]);
            assert(wv.skip(wi as int).drop_first() =~= wv.skip(wi + 1));
            assert(wv[wi as int] == words@[wi as int]@);
        }
        let word = &words[wi];
        let mut ok_idx: Option<usize> = None;
        match parse_usize(word.as_slice()) {
            Some(idx) => {
                if idx < dlen {
                    ok_idx = Some(idx);
                }
            },
            None => {
            },
        }
        match ok_idx {
            Some(idx) => {
                proof {
                    assert(word_ok(wv[wi as int], d));
                    assert(d[idx as int] == toks@[idx as int]@);
                }
                buf.extend_from_slice(toks[idx].as_slice());
                proof {
                    assert(buf@ =~= b0 + d[digits_val(wv[wi as int]) as int]);
                }
            },
            None => {
                proof {
                    assert(!word_ok(wv[wi as int], d));
                    assert(buf@ =~= b0 + Seq::<u8>::empty());
                }
                if mode == DecodeMode::Strict {
                    return Err(DecodeError);
                }
            },
        }
    }
    proof {
        assert(wv.skip(n as int) =~= Seq::<Seq<u8>>::empty());
        assert(buf@ + decode_words(wv.skip(n as int), d) =~= buf@);
    }
    let out = crate::codec::restore_bytes(buf.as_slice());
    Ok(out)
}

/// Sorts chunk indices ascending: the authoritative restore order.
pub fn sort_indices(v: &mut Vec<usize>)
    ensures
        final (v)@.to_multiset() == old(v)@.to_multiset(),
        forall|i: int, j: int| 0 <= i <= j < final (v)@.len() ==> final (v)@[i] <= final (v)@[j],
{
    broadcast use vstd::seq_lib::group_to_multiset_ensures;
    broadcast use vstd::multiset::group_multiset_axioms;

    let ghost orig = v@;
    let mut out: Vec<usize> = Vec::new();
    while v.len() > 0
        invariant
            out@.to_multiset().add(v@.to_multiset()) =~= orig.to_multiset(),
            forall|i: int, j: int| 0 <= i <= j < out@.len() ==> out@[i] <= out@[j],
            forall|i: int, j: int|
                0 <= i < out@.len() && 0 <= j < v@.len() ==> #[trigger] out@[i] <= #[trigger] v@[j],
        decreases v@.len(),
    {
        let mut m: usize = 0;
        let len = v.len();
        for x in 1..len
            invariant
                len == v@.len(),
                m < len,
                forall|y: int| 0 <= y < x ==> v@[m as int] <= #[trigger] v@[y],
        {
            if v[x] < v[m] {
                m = x;
            }
        }
        let ghost vpre = v@;
        let ghost opre = out@;
        let picked = v.remove(m);
        out.push(picked);
        proof {
            assert(v@ =~= vpre.remove(m as int));
            assert(picked == vpre[m as int]);
            vstd::seq_lib::to_multiset_remove(vpre, m as int);
            vstd::seq_lib::to_multiset_build(opre, picked);
            vstd::seq_lib::to_multiset_contains(vpre, picked);
            assert(vpre.remove(m as int).to_multiset() =~= vpre.to_multiset().remove(picked));
            assert(v@.to_multiset() =~= vpre.to_multiset().remove(picked));
            assert(out@ == opre.push(picked));
            assert(opre.push(picked).to_multiset() =~= opre.to_multiset().insert(picked));
            assert(out@.to_multiset() =~= opre.to_multiset().insert(picked));
            assert(vpre.contains(picked));
            assert(vpre.to_multiset().count(picked) > 0);
            assert(out@.to_multiset().add(v@.to_multiset()) =~= orig.to_multiset());
            assert forall|i: int, j: int|
                0 <= i < out@.len() && 0 <= j < v@.len() implies #[trigger] out@[i] <= #[trigger] v@[j] by {
                if j < m {
                    assert(v@[j] == vpre[j]);
                } else {
                    assert(v@[j] == vpre[j + 1]);
                }
            }
        }
    }
    proof {
        assert(v@.to_multiset() =~= Seq::<usize>::empty().to_multiset());
        assert(out@.to_multiset() =~= orig.to_multiset());
    }
    *v = out;
}

/// The order is total: of two byte sequences one precedes the other.
proof fn lemma_lex_total(a: Seq<u8>, b: Seq<u8>)
    ensures
        lex_le(a, b) || lex_le(b, a),
    decreases a.len(),
{
    if a.len() > 0 && b.len() > 0 && a[0] == b[0] {
        lemma_lex_total(a.drop_first(), b.drop_first());
    }
}

/// Whether `a` precedes or equals `b` in lexicographic byte order.
fn lex_le_exec(a: &[u8], b: &[u8]) -> (r: bool)
    ensures
        r == lex_le(a@, b@),
    decreases a@.len(),
{
    let mut i: usize = 0;
    proof {
        assert(a@.skip(0) =~= a@);
        assert(b@.skip(0) =~= b@);
    }
    loop
        invariant
            i <= a@.len() && i <= b@.len(),
            lex_le(a@, b@) == lex_le(a@.skip(i as int), b@.skip(i as int)),
        decreases a@.len() - i,
    {
        let ghost (ta, tb) = (a@.skip(i as int), b@.skip(i as int));
        if i >= a.len() {
            assert(ta.len() == 0);
            return true;
        }
        if i >= b.len() {
            assert(tb.len() == 0 && ta.len() > 0);
            return false;
        }
        assert(ta[0] == a@[i as int] && tb[0] == b@[i as int]);
        if a[i] < b[i] {
            return true;
        }
        if a[i] > b[i] {
            return false;
        }
        proof {
            assert(ta.drop_first() =~= a@.skip(i + 1));
            assert(tb.drop_first() =~= b@.skip(i + 1));
        }
        i = i + 1;
    }
}

/// Sorts byte lines into nondecreasing lexicographic order.
fn sort_lines(v: &Vec<Vec<u8>>) -> (r: Vec<Vec<u8>>)
    ensures
        r.deep_view().to_multiset() == v.deep_view().to_multiset(),
        sorted_lex(r.deep_view()),
{
    broadcast use vstd::seq_lib::group_to_multiset_ensures;
    broadcast use vstd::multiset::group_multiset_axioms;

    let mut rest: Vec<Vec<u8>> = Vec::new();
    let vn = v.len();
    for vi in 0..vn
        invariant
            vn == v@.len(),
            rest@.len() == vi,
            forall|x: int| 0 <= x < vi ==> #[trigger] rest.deep_view()[x] == v.deep_view()[x],
    {
        let line = vstd::slice::slice_to_vec(v[vi].as_slice());
        proof {
            assert(line.deep_view() =~~= v@[vi as int].deep_view());
        }
        let ghost rpre = rest.deep_view();
        rest.push(line);
        proof {
            assert forall|x: int|
                0 <= x < vi + 1 implies #[trigger] rest.deep_view()[x] == v.deep_view()[x] by {
                if x < vi {
                    assert(rest.deep_view()[x] == rpre[x]);
                } else {
                    assert(rest.deep_view()[x] =~= v.deep_view()[x]);
                }
            }
        }
    }
    proof {
        assert(rest.deep_view() =~~= v.deep_view());
    }
    let ghost orig = v.deep_view();
    let mut out: Vec<Vec<u8>> = Vec::new();
    while rest.len() > 0
        invariant
            out.deep_view().to_multiset().add(rest.deep_view().to_multiset()) =~=
            orig.to_multiset(),
            sorted_lex(out.deep_view()),
            forall|i: int, j: int|
                0 <= i < out.deep_view().len() && 0 <= j < rest.deep_view().len() ==> lex_le(
                    #[trigger] out.deep_view()[i],
                    #[trigger] rest.deep_view()[j],
                ),
        decreases rest@.len(),
    {
        let mut m: usize = 0;
        let len = rest.len();
        proof {
            lemma_lex_refl(rest.deep_view()[0]);
        }
        for x in 1..len
            invariant
                len == rest@.len(),
                m < len,
                forall|y: int|
                    0 <= y < x ==> lex_le(
                        rest.deep_view()[m as int],
                        #[trigger] rest.deep_view()[y],
                    ),
        {
            let le = lex_le_exec(rest[m].as_slice(), rest[x].as_slice());
            proof {
                assert(rest.deep_view()[m as int] == rest@[m as int]@);
                assert(rest.deep_view()[x as int] == rest@[x as int]@);
                lemma_lex_total(rest.deep_view()[m as int], rest.deep_view()[x as int]);
                lemma_lex_refl(rest.deep_view()[m as int]);
                lemma_lex_refl(rest.deep_view()[x as int]);
                assert forall|y: int|
                    0 <= y < x + 1 implies lex_le(
                    rest.deep_view()[if le {
                        m as int
                    } else {
                        x as int
                    }],
                    #[trigger] rest.deep_view()[y],
                ) by {
                    if y < x {
                        lemma_lex_trans(
                            rest.deep_view()[if le {
                                m as int
                            } else {
                                x as int
                            }],
                            rest.deep_view()[m as int],
                            rest.deep_view()[y],
                        );
                    }
                }
            }
            if !le {
                m = x;
            }
        }
        let ghost vpre = rest.deep_view();
        let ghost opre = out.deep_view();
        let picked = rest.remove(m);
        let ghost pv = picked@;
        out.push(picked);
        proof {
            assert(rest.deep_view() =~~= vpre.remove(m as int));
            assert(out.deep_view() =~~= opre.push(pv));
            assert(pv == vpre[m as int]);
            vstd::seq_lib::to_multiset_remove(vpre, m as int);
            vstd::seq_lib::to_multiset_build(opre, pv);
            vstd::seq_lib::to_multiset_contains(vpre, pv);
            assert(vpre.remove(m as int).to_multiset() =~= vpre.to_multiset().remove(pv));
            assert(rest.deep_view().to_multiset() =~= vpre.to_multiset().remove(pv));
            assert(opre.push(pv).to_multiset() =~= opre.to_multiset().insert(pv));
            assert(out.deep_view().to_multiset() =~= opre.to_multiset().insert(pv));
            assert(vpre.contains(pv));
            assert(vpre.to_multiset().count(pv) > 0);
            assert(out.deep_view().to_multiset().add(rest.deep_view().to_multiset()) =~=
            orig.to_multiset());
            assert forall|i: int, j: int|
                0 <= i <= j < out.deep_view().len() implies lex_le(
                #[trigger] out.deep_view()[i],
                #[trigger] out.deep_view()[j],
            ) by {
                if j < opre.len() {
                    assert(out.deep_view()[i] == opre[i] && out.deep_view()[j] == opre[j]);
                } else if i < opre.len() {
                    assert(out.deep_view()[i] == opre[i] && out.deep_view()[j] == pv);
                } else {
                    lemma_lex_refl(pv);
                }
            }
            assert forall|i: int, j: int|
                0 <= i < out.deep_view().len() && 0 <= j < rest.deep_view().len() implies lex_le(
                #[trigger] out.deep_view()[i],
                #[trigger] rest.deep_view()[j],
            ) by {
                let w = rest.deep_view()[j];
                if j < m {
                    assert(w == vpre[j]);
                } else {
                    assert(w == vpre[j + 1]);
                }
                if i < opre.len() {
                    lemma_lex_trans(out.deep_view()[i], pv, w);
                }
            }
        }
    }
    proof {
        assert(rest.deep_view() =~= Seq::<Seq<u8>>::empty());
        assert(rest.deep_view().to_multiset() =~= Multiset::<Seq<u8>>::empty());
        assert(out.deep_view().to_multiset() =~= orig.to_multiset());
    }
    out
}

/// The order is reflexive.
proof fn lemma_lex_refl(a: Seq<u8>)
    ensures
        lex_le(a, a),
    decreases a.len(),
{
    if a.len() > 0 {
        lemma_lex_refl(a.drop_first());
    }
}

/// The order is transitive.
proof fn lemma_lex_trans(a: Seq<u8>, b: Seq<u8>, c: Seq<u8>)
    requires
        lex_le(a, b),
        lex_le(b, c),
    ensures
        lex_le(a, c),
    decreases a.len(),
{
    if a.len() > 0 && b.len() > 0 && c.len() > 0 && a[0] == b[0] && b[0] == c[0] {
        lemma_lex_trans(a.drop_first(), b.drop_first(), c.drop_first());
    }
}

/// Joining one more line appends it and a newline.
pub proof fn lemma_join_lines_push(ls: Seq<Seq<u8>>, l: Seq<u8>)
    ensures
        join_lines(ls.push(l)) == join_lines(ls) + l + seq![10u8],
    decreases ls.len(),
{
    if ls.len() == 0 {
        assert(ls.push(l)[0] == l);
        assert(ls.push(l).drop_first() =~= Seq::<Seq<u8>>::empty());
        assert(join_lines(Seq::<Seq<u8>>::empty()) == Seq::<u8>::empty());
        assert(join_lines(ls.push(l)) =~= join_lines(ls) + l + seq![10u8]);
    } else {
        assert(ls.push(l)[0] == ls[0]);
        assert(ls.push(l).drop_first() =~= ls.drop_first().push(l));
        lemma_join_lines_push(ls.drop_first(), l);
        assert(ls[0] + seq![10u8] + (join_lines(ls.drop_first()) + l + seq![10u8]) =~= join_lines(
            ls,
        ) + l + seq![10u8]);
    }
}

/// Joins lines into a file, a newline after each.
pub fn join_lines_exec(lines: &Vec<Vec<u8>>) -> (r: Vec<u8>)
    ensures
        r@ == join_lines(lines.deep_view()),
{
    let mut r: Vec<u8> = Vec::new();
    let n = lines.len();
    let ghost lv = lines.deep_view();
    proof {
        assert(lv.take(0) =~= Seq::<Seq<u8>>::empty());
    }
    for i in 0..n
        invariant
            n == lines@.len(),
            lv == lines.deep_view(),
            r@ == join_lines(lv.take(i as int)),
    {
        let ghost r0 = r@;
        r.extend_from_slice(lines[i].as_slice());
        r.push(10);
        proof {
            assert(lv.take(i + 1) =~= lv.take(i as int).push(lv[i as int]));
            lemma_join_lines_push(lv.take(i as int), lv[i as int]);
            assert(lv[i as int] == lines@[i as int]@);
            assert(r@ =~= r0 + lv[i as int] + seq![10u8]);
        }
    }
    proof {
        assert(lv.take(n as int) =~= lv);
    }
    r
}

/// First-seen deduplication commutes with an injective recoding of the
/// tokens: here, with taking the UTF-8 bytes of each token's characters.
pub proof fn lemma_dict_of_map(cs: Seq<Seq<char>>, bs: Seq<Seq<u8>>)
    requires
        cs.len() == bs.len(),
        forall|i: int| 0 <= i < cs.len() ==> vstd::utf8::encode_utf8(#[trigger] cs[i]) == bs[i],
    ensures
        dict_of(bs).len() == dict_of(cs).len(),
        forall|i: int|
            0 <= i < dict_of(cs).len() ==> vstd::utf8::encode_utf8(#[trigger] dict_of(cs)[i])
                == dict_of(bs)[i],
    decreases cs.len(),
{
    broadcast use vstd::utf8::group_utf8_lib;

    if cs.len() == 0 {
    } else {
        assert forall|i: int|
            0 <= i < cs.drop_last().len() implies vstd::utf8::encode_utf8(
            #[trigger] cs.drop_last()[i],
        ) == bs.drop_last()[i] by {
            assert(cs.drop_last()[i] == cs[i] && bs.drop_last()[i] == bs[i]);
        }
        lemma_dict_of_map(cs.drop_last(), bs.drop_last());
        let dc = dict_of(cs.drop_last());
        let db = dict_of(bs.drop_last());
        assert(cs.last() == cs[cs.len() - 1] && bs.last() == bs[bs.len() - 1]);
        assert(vstd::utf8::encode_utf8(cs.last()) == bs.last());
        assert(dc.contains(cs.last()) <==> db.contains(bs.last())) by {
            if dc.contains(cs.last()) {
                let i = choose|i: int| 0 <= i < dc.len() && dc[i] == cs.last();
                assert(db[i] == bs.last());
            }
            if db.contains(bs.last()) {
                let i = choose|i: int| 0 <= i < db.len() && db[i] == bs.last();
                assert(vstd::utf8::encode_utf8(dc[i]) == vstd::utf8::encode_utf8(cs.last()));
                assert(vstd::utf8::decode_utf8(vstd::utf8::encode_utf8(dc[i])) == dc[i]);
                assert(vstd::utf8::decode_utf8(vstd::utf8::encode_utf8(cs.last())) == cs.last());
                assert(dc[i] == cs.last());
            }
        }
        if !dc.contains(cs.last()) {
            assert forall|i: int|
                0 <= i < dict_of(cs).len() implies vstd::utf8::encode_utf8(
                #[trigger] dict_of(cs)[i],
            ) == dict_of(bs)[i] by {
                if i < dc.len() {
                    assert(dict_of(cs)[i] == dc[i] && dict_of(bs)[i] == db[i]);
                }
            }
        }
    }
}

/// Converts ASCII byte tokens into owned strings.
fn tokens_to_strings(toks: &Vec<Vec<u8>>) -> (r: Vec<String>)
    requires
        forall|i: int, j: int|
            0 <= i < toks@.len() && 0 <= j < toks@[i]@.len() ==> #[trigger] toks@[i]@[j] < 0x80,
    ensures
        r@.len() == toks@.len(),
        forall|i: int|
            0 <= i < r@.len() ==> vstd::utf8::encode_utf8(#[trigger] r@[i]@) == toks@[i]@,
{
    let mut r: Vec<String> = Vec::new();
    let n = toks.len();
    for ti in 0..n
        invariant
            n == toks@.len(),
            forall|i: int, j: int|
                0 <= i < toks@.len() && 0 <= j < toks@[i]@.len() ==> #[trigger] toks@[i]@[j] < 0x80,
            r@.len() == ti,
            forall|i: int|
                0 <= i < ti ==> vstd::utf8::encode_utf8(#[trigger] r@[i]@) == toks@[i]@,
    {
        let tok = vstd::slice::slice_to_vec(toks[ti].as_slice());
        proof {
            crate::roundtrip::lemma_ascii_valid(tok@);
        }
        let ghost tokv = tok@;
        match crate::strings::string_from_utf8(tok) {
            Some(st) => {
                proof {
                    vstd::utf8::decode_utf8_encode_utf8(tokv);
                }
                r.push(st);
            },
            None => {
                proof {
                    assert(false);
                }
            },
        }
    }
    r
}

/// The token sequence of one chunk's text, after the forward transform.
pub open spec fn chunk_tokens(chunk: Seq<u8>) -> Seq<Seq<u8>> {
    tokenize_spec(crate::codec::replace_spec(chunk))
}

/// The chunk's dictionary: its tokens deduplicated in first-seen order.
pub open spec fn chunk_dict(chunk: Seq<u8>) -> Seq<Seq<u8>> {
    dict_of(chunk_tokens(chunk))
}

/// The three artifacts persisted for one chunk.
pub struct ChunkArtifacts {
    /// The dictionary file: one token per line, first-seen order.
    pub dict: Vec<u8>,
    /// The same tokens, sorted lexicographically.
    pub sdict: Vec<u8>,
    /// The index stream: each token's index in decimal, a space after each.
    pub enc: Vec<u8>,
}

/// Encodes one chunk: applies the placeholder codec, tokenizes, builds the
/// chunk's own dictionary, and renders the three artifacts.
pub fn encode_chunk(chunk: &[u8]) -> (r: ChunkArtifacts)
    requires
        vstd::utf8::valid_utf8(chunk@),
    ensures
        r.dict@ == join_lines(chunk_dict(chunk@)),
        split_lines(r.sdict@).to_multiset() == chunk_dict(chunk@).to_multiset(),
        sorted_lex(split_lines(r.sdict@)),
        r.enc@ == enc_stream(chunk_tokens(chunk@), chunk_dict(chunk@)),
{
    let processed = crate::codec::replace_bytes(chunk);
    proof {
        crate::roundtrip::lemma_replace_ascii(chunk@);
        crate::roundtrip::lemma_replace_line_safe(chunk@);
        crate::tokenize::lemma_tokenize_bytes_from(processed@);
        crate::tokenize::lemma_tokenize_nonempty(processed@);
    }
    let toks = crate::tokenize::tokenize_bytes(processed.as_slice());
    let ghost tv = chunk_tokens(chunk@);
    proof {
        assert(toks.deep_view() =~~= tv);
        assert forall|i: int, j: int|
            0 <= i < toks@.len() && 0 <= j < toks@[i]@.len() implies #[trigger] toks@[i]@[j]
            < 0x80 && toks@[i]@[j] != 10 && toks@[i]@[j] != 13 by {
            assert(toks@[i]@ == tv[i]);
            let x = choose|x: int| 0 <= x < processed@.len() && tv[i][j] == processed@[x];
            assert(processed@[x] < 0x80 && processed@[x] != 10 && processed@[x] != 13);
        }
    }
    let ts = tokens_to_strings(&toks);
    let ts_slice = ts.as_slice();
    let dict = Dictionary::new(ts_slice);
    let ghost d = chunk_dict(chunk@);
    proof {
        assert(ts.deep_view() =~= ts@.map_values(|s: String| s@));
        assert forall|i: int|
            0 <= i < ts.deep_view().len() implies vstd::utf8::encode_utf8(
            #[trigger] ts.deep_view()[i],
        ) == tv[i] by {
            assert(ts.deep_view()[i] == ts@[i]@);
        }
        lemma_dict_of_map(ts.deep_view(), tv);
        lemma_dict_of_facts(tv);
        lemma_dict_of_facts(ts.deep_view());
        assert(dict.model() == dict_of(ts.deep_view())) by {
            assert(ts_slice.deep_view() =~= ts.deep_view());
        }
    }
    // the dictionary file: the dictionary's tokens, one per line
    let mut dict_lines: Vec<Vec<u8>> = Vec::new();
    let dlen = dict.len();
    proof {
        assert(dict.model().len() == d.len());
    }
    for i in 0..dlen
        invariant
            dlen == dict.model().len(),
            dict.wf(),
            d == chunk_dict(chunk@),
            dlen == d.len(),
            forall|x: int|
                0 <= x < d.len() ==> vstd::utf8::encode_utf8(#[trigger] dict.model()[x]) == d[x],
            dict_lines@.len() == i,
            forall|x: int| 0 <= x < i ==> #[trigger] dict_lines.deep_view()[x] == d[x],
    {
        let tok = dict.token_at(i);
        let bytes = vstd::string::StrSliceExecFns::as_bytes_vec(tok.as_str());
        let ghost dpre = dict_lines.deep_view();
        dict_lines.push(bytes);
        proof {
            assert forall|x: int|
                0 <= x < i + 1 implies #[trigger] dict_lines.deep_view()[x] == d[x] by {
                if x < i {
                    assert(dict_lines.deep_view()[x] == dpre[x]);
                } else {
                    assert(dict_lines.deep_view()[x] =~= d[x]);
                }
            }
        }
    }
    proof {
        assert(dict_lines.deep_view() =~= d);
    }
    let dict_file = join_lines_exec(&dict_lines);
    // the sorted copy
    let sorted = sort_lines(&dict_lines);
    let sdict_file = join_lines_exec(&sorted);
    proof {
        broadcast use vstd::seq_lib::group_to_multiset_ensures;

        let sv = sorted.deep_view();
        assert forall|i: int, j: int|
            0 <= i < sv.len() && 0 <= j < sv[i].len() implies #[trigger] sv[i][j] != 10 && sv[i][j]
            != 13 by {
            assert(sv.to_multiset().count(sv[i]) > 0) by {
                assert(sv.contains(sv[i]));
            }
            assert(d.to_multiset().count(sv[i]) > 0);
            assert(d.contains(sv[i]));
            let x = choose|x: int| 0 <= x < d.len() && d[x] == sv[i];
            assert(tv.contains(d[x]));
            let y = choose|y: int| 0 <= y < tv.len() && tv[y] == d[x];
        }
        assert forall|i: int|
            0 <= i < sv.len() && sv[i].len() > 0 implies #[trigger] sv[i].last() != 13 by {
            assert(sv[i][sv[i].len() - 1] != 13);
        }
        lemma_split_join_lines(sv);
    }
    // the index stream
    let mut enc: Vec<u8> = Vec::new();
    let tn = ts.len();
    proof {
        assert(tv.skip(0) =~= tv);
        assert forall|x: int| 0 <= x < tv.len() implies dict.model().contains(
            #[trigger] ts@[x]@,
        ) by {
            assert(ts.deep_view()[x] == ts@[x]@);
            assert(ts.deep_view().contains(ts@[x]@));
        }
    }
    for i in 0..tn
        invariant
            tn == ts@.len(),
            tn == tv.len(),
            dict.wf(),
            d == chunk_dict(chunk@),
            dict.model().len() == d.len(),
            forall|x: int|
                0 <= x < d.len() ==> vstd::utf8::encode_utf8(#[trigger] dict.model()[x]) == d[x],
            forall|x: int, y: int| 0 <= x < y < d.len() ==> d[x] != d[y],
            forall|x: int|
                0 <= x < tv.len() ==> vstd::utf8::encode_utf8(#[trigger] ts@[x]@) == tv[x],
            forall|x: int| 0 <= x < tv.len() ==> dict.model().contains(#[trigger] ts@[x]@),
            enc_stream(tv, d) == enc@ + enc_stream(tv.skip(i as int), d),
        decreases tn - i,
    {
        let ghost e0 = enc@;
        proof {
            assert(tv.skip(i as int)[0] == tv[i as int]);
            assert(tv.skip(i as int).drop_first() =~= tv.skip(i + 1));
        }
        let idx = match dict.index_of(&ts[i]) {
            Some(v) => v,
            None => {
                proof {
                    assert(false);
                }
                0
            },
        };
        proof {
            assert(vstd::utf8::encode_utf8(dict.model()[idx as int]) == d[idx as int]);
            assert(d[idx as int] == tv[i as int]);
            lemma_first_index(d, tv[i as int], idx as int);
            lemma_dec_digits(idx as nat);
        }
        let mut digits = format_usize(idx);
        let ghost dg = digits@;
        enc.append(&mut digits);
        enc.push(32);
        proof {
            assert(enc@ =~= e0 + dg + seq![32u8]);
            assert(e0 + (dec_digits(idx as nat) + seq![32u8] + enc_stream(tv.skip(i + 1), d)) =~=
            enc@ + enc_stream(tv.skip(i + 1), d));
        }
    }
    proof {
        assert(tv.skip(tn as int) =~= Seq::<Seq<u8>>::empty());
        assert(enc@ + enc_stream(tv.skip(tn as int), d) =~= enc@);
    }
    ChunkArtifacts { dict: dict_file, sdict: sdict_file, enc }
}

/// A duplicate-free token list is its own first-seen deduplication.
pub proof fn lemma_dict_of_distinct<T>(ls: Seq<Seq<T>>)
    requires
        forall|i: int, j: int| 0 <= i < j < ls.len() ==> ls[i] != ls[j],
    ensures
        dict_of(ls) == ls,
    decreases ls.len(),
{
    if ls.len() == 0 {
        assert(dict_of(ls) =~= ls);
    } else {
        assert forall|i: int, j: int|
            0 <= i < j < ls.drop_last().len() implies ls.drop_last()[i] != ls.drop_last()[j] by {
            assert(ls.drop_last()[i] == ls[i] && ls.drop_last()[j] == ls[j]);
        }
        lemma_dict_of_distinct(ls.drop_last());
        if ls.drop_last().contains(ls.last()) {
            let i = choose|i: int|
                0 <= i < ls.drop_last().len() && ls.drop_last()[i] == ls.last();
            assert(ls[i] == ls[ls.len() - 1]);
            assert(false);
        }
        assert(dict_of(ls) =~= ls.drop_last().push(ls.last()));
        assert(ls.drop_last().push(ls.last()) =~= ls);
    }
}

/// A held token's first index is a real position holding the token.
pub proof fn lemma_first_index_exists<T>(d: Seq<Seq<T>>, t: Seq<T>)
    requires
        d.contains(t),
    ensures
        0 <= first_index(d, t) < d.len(),
        d[first_index(d, t)] == t,
    decreases d.len(),
{
    if d[0] == t {
    } else {
        let i = choose|i: int| 0 <= i < d.len() && d[i] == t;
        assert(d.drop_first()[i - 1] == t);
        assert(d.drop_first().contains(t));
        lemma_first_index_exists(d.drop_first(), t);
    }
}

/// The index stream parses back into its words, every word denotes a held
/// index, and the words select exactly the original tokens.
pub proof fn lemma_enc_stream_decode(toks: Seq<Seq<u8>>, d: Seq<Seq<u8>>)
    requires
        forall|i: int| 0 <= i < toks.len() ==> d.contains(#[trigger] toks[i]),
        d.len() <= usize::MAX,
    ensures
        all_words_ok(split_words(enc_stream(toks, d)), d),
        decode_words(split_words(enc_stream(toks, d)), d) == concat_all(toks),
        split_words(enc_stream(toks, d)).len() == toks.len(),
    decreases toks.len(),
{
    if toks.len() == 0 {
    } else {
        let t0 = toks[0];
        lemma_first_index_exists(d, t0);
        let v = first_index(d, t0);
        lemma_dec_digits(v as nat);
        let w = dec_digits(v as nat);
        let e = enc_stream(toks, d);
        let rest = enc_stream(toks.drop_first(), d);
        assert(e == w + seq![32u8] + rest);
        assert forall|x: int| 0 <= x < w.len() implies (|b: u8| !is_ws_byte(b))(
            #[trigger] e[x],
        ) by {
            assert(e[x] == w[x]);
            assert(is_digit(w[x]));
        }
        assert(e[w.len() as int] == 32);
        lemma_leading_count_determined(e, |b: u8| !is_ws_byte(b), w.len() as int);
        assert(!is_ws_byte(e[0])) by {
            assert(e[0] == w[0]);
            assert(is_digit(w[0]));
        }
        assert(e.take(w.len() as int) =~= w);
        assert(split_words(e) == seq![w] + split_words(e.skip(w.len() as int)));
        assert(e.skip(w.len() as int)[0] == 32);
        assert(e.skip(w.len() as int).skip(1) =~= rest);
        assert(split_words(e.skip(w.len() as int)) == split_words(rest));
        assert forall|i: int|
            0 <= i < toks.drop_first().len() implies d.contains(#[trigger] toks.drop_first()[i]) by {
            assert(toks.drop_first()[i] == toks[i + 1]);
        }
        lemma_enc_stream_decode(toks.drop_first(), d);
        let ws = split_words(e);
        assert(ws == seq![w] + split_words(rest));
        assert forall|i: int| 0 <= i < ws.len() implies word_ok(#[trigger] ws[i], d) by {
            if i == 0 {
                assert(ws[0] == w);
                assert(digits_val(w) == v);
            } else {
                assert(ws[i] == split_words(rest)[i - 1]);
            }
        }
        assert(ws[0] == w && ws.drop_first() =~= split_words(rest));
        assert(word_ok(w, d) && digits_val(w) == v && d[v] == t0);
        assert(decode_words(ws, d) == t0 + decode_words(split_words(rest), d));
        assert(concat_all(toks) == t0 + concat_all(toks.drop_first()));
    }
}

/// What decoding a chunk's two artifact files yields.
pub open spec fn decoded_chunk(dict_file: Seq<u8>, enc_file: Seq<u8>) -> Seq<u8> {
    crate::codec::restore_spec(
        decode_words(split_words(enc_file), dict_of(split_lines(dict_file))),
    )
}

/// Round trip of one chunk: decoding the artifacts that encoding the chunk
/// produced restores the chunk byte for byte, and every index word denotes a
/// dictionary entry, so the strict decode mode succeeds as well. Holds for
/// any valid UTF-8 chunk free of the five reserved escape bytes, carriage
/// returns, vertical tabs, and form feeds.
pub proof fn lemma_chunk_round_trip(chunk: Seq<u8>)
    requires
        vstd::utf8::valid_utf8(chunk),
        crate::roundtrip::no_reserved(chunk),
        crate::roundtrip::no_cr(chunk),
        forall|i: int| 0 <= i < chunk.len() ==> #[trigger] chunk[i] != 11 && chunk[i] != 12,
        chunk.len() <= usize::MAX,
        chunk_tokens(chunk).len() <= usize::MAX,
    ensures
        decoded_chunk(
            join_lines(chunk_dict(chunk)),
            enc_stream(chunk_tokens(chunk), chunk_dict(chunk)),
        ) == chunk,
        all_words_ok(
            split_words(enc_stream(chunk_tokens(chunk), chunk_dict(chunk))),
            dict_of(split_lines(join_lines(chunk_dict(chunk)))),
        ),
{
    let z = crate::codec::replace_spec(chunk);
    let toks = chunk_tokens(chunk);
    let d = chunk_dict(chunk);
    crate::roundtrip::lemma_replace_line_safe(chunk);
    crate::tokenize::lemma_tokenize_bytes_from(z);
    crate::tokenize::lemma_tokenize_nonempty(z);
    lemma_dict_of_facts(toks);
    // the dictionary file parses back into exactly the dictionary
    assert forall|i: int, j: int|
        0 <= i < d.len() && 0 <= j < d[i].len() implies #[trigger] d[i][j] != 10 && d[i][j]
        != 13 by {
        assert(d.contains(d[i]));
        assert(toks.contains(d[i]));
        let y = choose|y: int| 0 <= y < toks.len() && toks[y] == d[i];
        let x = choose|x: int| 0 <= x < z.len() && toks[y][j] == z[x];
        assert(z[x] != 10 && z[x] != 13);
    }
    assert forall|i: int| 0 <= i < d.len() && d[i].len() > 0 implies #[trigger] d[i].last()
        != 13 by {
        assert(d[i][d[i].len() - 1] != 13);
    }
    lemma_split_join_lines(d);
    assert forall|i: int, j: int| 0 <= i < j < d.len() implies d[i] != d[j] by {}
    lemma_dict_of_distinct(d);
    assert(dict_of(split_lines(join_lines(d))) == d);
    // the index stream parses back into the original tokens
    assert forall|i: int| 0 <= i < toks.len() implies d.contains(#[trigger] toks[i]) by {
        assert(toks.contains(toks[i]));
    }
    assert(d.len() <= usize::MAX);
    lemma_enc_stream_decode(toks, d);
    // the tokens concatenate to the escaped text, and the codec undoes it
    assert forall|i: int|
        0 <= i < z.len() implies !(crate::tokenize::is_ws_byte(#[trigger] z[i]) && z[i] != 32) by {}
    crate::tokenize::lemma_tokenize_concat(z);
    crate::roundtrip::lemma_codec_round_trip(chunk);
}

/// Round trip of a whole stream: decoding every chunk's artifacts in chunk
/// order and concatenating the results reproduces the concatenation of the
/// chunks — the original stream.
pub proof fn lemma_stream_round_trip(chunks: Seq<Seq<u8>>)
    requires
        forall|c: int|
            0 <= c < chunks.len() ==> vstd::utf8::valid_utf8(#[trigger] chunks[c])
                && crate::roundtrip::no_reserved(chunks[c]) && crate::roundtrip::no_cr(chunks[c])
                && chunks[c].len() <= usize::MAX && chunk_tokens(chunks[c]).len() <= usize::MAX && (
            forall|i: int| 0 <= i < chunks[c].len() ==> #[trigger] chunks[c][i] != 11 && chunks[c][i]
                != 12),
    ensures
        concat_all(
            chunks.map_values(
                |c: Seq<u8>|
                    decoded_chunk(join_lines(chunk_dict(c)), enc_stream(chunk_tokens(c), chunk_dict(c))),
            ),
        ) == concat_all(chunks),
    decreases chunks.len(),
{
    let f = |c: Seq<u8>|
        decoded_chunk(join_lines(chunk_dict(c)), enc_stream(chunk_tokens(c), chunk_dict(c)));
    if chunks.len() == 0 {
        assert(chunks.map_values(f) =~= Seq::<Seq<u8>>::empty());
    } else {
        lemma_chunk_round_trip(chunks[0]);
        assert forall|c: int|
            0 <= c < chunks.drop_first().len() implies vstd::utf8::valid_utf8(
            #[trigger] chunks.drop_first()[c],
        ) && crate::roundtrip::no_reserved(chunks.drop_first()[c]) && crate::roundtrip::no_cr(
            chunks.drop_first()[c],
        ) && chunks.drop_first()[c].len() <= usize::MAX && chunk_tokens(
            chunks.drop_first()[c],
        ).len() <= usize::MAX && (forall|i: int|
            0 <= i < chunks.drop_first()[c].len() ==> #[trigger] chunks.drop_first()[c][i] != 11
                && chunks.drop_first()[c][i] != 12) by {
            assert(chunks.drop_first()[c] == chunks[c + 1]);
        }
        lemma_stream_round_trip(chunks.drop_first());
        assert(chunks.map_values(f)[0] == f(chunks[0]));
        assert(chunks.map_values(f).drop_first() =~= chunks.drop_first().map_values(f));
        assert(concat_all(chunks.map_values(f)) == f(chunks[0]) + concat_all(
            chunks.drop_first().map_values(f),
        ));
        assert(concat_all(chunks) == chunks[0] + concat_all(chunks.drop_first()));
    }
}

/// The lines of many dictionary files, in file order.
pub open spec fn merged_lines(fs: Seq<Seq<u8>>) -> Seq<Seq<u8>>
    decreases fs.len(),
{
    if fs.len() == 0 {
        Seq::empty()
    } else {
        split_lines(fs[0]) + merged_lines(fs.drop_first())
    }
}

/// The deduplicated list is exactly as long as what it was built from just
/// when no token repeats.
pub proof fn lemma_merge_exact_iff_distinct<T>(ls: Seq<Seq<T>>)
    ensures
        dict_of(ls).len() == ls.len() <==> (forall|i: int, j: int|
            0 <= i < j < ls.len() ==> ls[i] != ls[j]),
    decreases ls.len(),
{
    lemma_dict_of_facts(ls);
    if ls.len() == 0 {
    } else {
        lemma_merge_exact_iff_distinct(ls.drop_last());
        lemma_dict_of_facts(ls.drop_last());
        let d0 = dict_of(ls.drop_last());
        if dict_of(ls).len() == ls.len() {
            assert(!d0.contains(ls.last()));
            assert(d0.len() == ls.len() - 1);
            assert forall|i: int, j: int| 0 <= i < j < ls.len() implies ls[i] != ls[j] by {
                if j < ls.len() - 1 {
                    assert(ls.drop_last()[i] == ls[i] && ls.drop_last()[j] == ls[j]);
                } else {
                    if ls[i] == ls[j] {
                        assert(ls.drop_last()[i] == ls.last());
                        assert(ls.drop_last().contains(ls.last()));
                        assert(d0.contains(ls.last()));
                    }
                }
            }
        }
        if forall|i: int, j: int| 0 <= i < j < ls.len() ==> ls[i] != ls[j] {
            lemma_dict_of_distinct(ls);
        }
    }
}

/// The outcome of merging the per-chunk dictionaries.
pub struct MergeOutcome {
    /// The merged dictionary file: the deduplicated tokens, one per line,
    /// in first-encounter order across the files.
    pub merged: Vec<u8>,
    /// How many distinct tokens the merge kept.
    pub unique: usize,
    /// How many token lines the files held in all.
    pub total: usize,
}

/// Merges per-chunk dictionary files into one deduplicated dictionary,
/// counting total entries and distinct tokens. The distinct count can never
/// exceed the total, with equality exactly when no token repeats.
pub fn merge_dict_files(files: &Vec<Vec<u8>>) -> (r: MergeOutcome)
    requires
        merged_lines(files.deep_view()).len() <= usize::MAX,
    ensures
        r.merged@ == join_lines(dict_of(merged_lines(files.deep_view()))),
        r.total == merged_lines(files.deep_view()).len(),
        r.unique == dict_of(merged_lines(files.deep_view())).len(),
        r.unique <= r.total,
{
    let ghost fv = files.deep_view();
    let ghost ml = merged_lines(fv);
    let mut lines: Vec<Vec<u8>> = Vec::new();
    let ghost mut done: Seq<Seq<u8>> = Seq::empty();
    let n = files.len();
    proof {
        assert(fv.skip(0) =~= fv);
        assert(done + merged_lines(fv) =~= merged_lines(fv));
    }
    for i in 0..n
        invariant
            n == files@.len(),
            fv == files.deep_view(),
            ml == merged_lines(fv),
            lines.deep_view() == done,
            ml == done + merged_lines(fv.skip(i as int)),
            done.len() <= ml.len(),
            ml.len() <= usize::MAX,
    {
        proof {
            assert(fv.skip(i as int)[0] == fv[i as int]);
            assert(fv.skip(i as int).drop_first() =~= fv.skip(i + 1));
            assert(fv[i as int] == files@[i as int]@);
        }
        let mut fl = split_lines_exec(files[i].as_slice());
        let ghost flv = fl.deep_view();
        proof {
            assert(flv =~~= split_lines(fv[i as int]));
            assert(merged_lines(fv.skip(i as int)) == flv + merged_lines(fv.skip(i + 1)));
            assert(merged_lines(fv.skip(i + 1)).len() >= 0);
        }
        let ghost lpre = lines.deep_view();
        let m = fl.len();
        let mut k: usize = 0;
        while k < m
            invariant
                m == fl@.len(),
                flv == fl.deep_view(),
                k <= m,
                lines.deep_view() == lpre + flv.take(k as int),
                lpre + flv.take(k as int) == done + flv.take(k as int),
            decreases m - k,
        {
            let ghost lcur = lines.deep_view();
            let line = vstd::slice::slice_to_vec(fl[k].as_slice());
            proof {
                assert(line@ == flv[k as int]) by {
                    assert(fl@[k as int]@ == fl.deep_view()[k as int]);
                }
            }
            lines.push(line);
            proof {
                assert(lines.deep_view() =~~= lcur.push(flv[k as int]));
                assert(flv.take(k + 1) =~= flv.take(k as int).push(flv[k as int]));
                assert(lcur.push(flv[k as int]) =~= lpre + flv.take(k + 1));
            }
            k = k + 1;
        }
        proof {
            assert(flv.take(m as int) =~= flv);
            done = done + flv;
            assert(lines.deep_view() == done);
            assert(ml == done + merged_lines(fv.skip(i + 1))) by {
                assert((done.subrange(0, done.len() - flv.len() as int) + flv) + merged_lines(
                    fv.skip(i + 1),
                ) =~= done.subrange(0, done.len() - flv.len() as int) + (flv + merged_lines(
                    fv.skip(i + 1),
                )));
                assert(done.subrange(0, done.len() - flv.len() as int) =~= lpre);
            }
            assert(done.len() <= ml.len()) by {
                assert(ml.len() == done.len() + merged_lines(fv.skip(i + 1)).len());
            }
        }
    }
    proof {
        assert(fv.skip(n as int) =~= Seq::<Seq<u8>>::empty());
        assert(done + merged_lines(fv.skip(n as int)) =~= done);
        assert(lines.deep_view() == ml);
    }
    let total = lines.len();
    let toks = dedup_lines(&lines);
    proof {
        lemma_dict_of_facts(ml);
    }
    let unique = toks.len();
    proof {
        assert(unique == dict_of(ml).len()) by {
            assert(toks.deep_view().len() == toks@.len());
        }
    }
    let merged = join_lines_exec(&toks);
    MergeOutcome { merged, unique, total }
}

/// The bytes of the fixed chunk file name stem.
pub open spec fn chunk_name_stem() -> Seq<u8> {
    seq![99u8, 104u8, 117u8, 110u8, 107u8, 95u8]
}

/// The decimal digits of a chunk index, zero-padded to three digits as the
/// persisted file names carry them.
pub open spec fn padded_index(idx: nat) -> Seq<u8> {
    let d = dec_digits(idx);
    if d.len() >= 3 {
        d
    } else {
        Seq::new((3 - d.len()) as nat, |i| 48u8) + d
    }
}

/// The chunk index a file name carries: the name must be the stem, at least
/// one digit denoting an index that fits the machine, and the extension.
pub open spec fn chunk_index_of_name(name: Seq<u8>, ext: Seq<u8>) -> Option<usize> {
    if name.len() >= chunk_name_stem().len() + ext.len() + 1 && name.take(6) == chunk_name_stem()
        && name.skip(name.len() - ext.len()) == ext && all_digits(
        name.subrange(6, name.len() - ext.len()),
    ) && digits_val(name.subrange(6, name.len() - ext.len())) <= usize::MAX {
        Some(digits_val(name.subrange(6, name.len() - ext.len())) as usize)
    } else {
        None
    }
}

/// Renders a chunk file name: the stem, the index zero-padded to three
/// digits, and the extension.
pub fn chunk_file_name(idx: usize, ext: &str) -> (r: Vec<u8>)
    ensures
        r@ == chunk_name_stem() + padded_index(idx as nat) + vstd::utf8::encode_utf8(ext@),
{
    let mut r: Vec<u8> = Vec::new();
    r.push(99);
    r.push(104);
    r.push(117);
    r.push(110);
    r.push(107);
    r.push(95);
    proof {
        assert(r@ =~= chunk_name_stem());
    }
    let digits = format_usize(idx);
    let ghost dg = digits@;
    if digits.len() < 3 {
        let pad = 3 - digits.len();
        let ghost r0 = r@;
        let mut c: usize = 0;
        while c < pad
            invariant
                c <= pad,
                r@ == r0 + Seq::new(c as nat, |i| 48u8),
            decreases pad - c,
        {
            r.push(48);
            proof {
                assert(r0 + Seq::new((c + 1) as nat, |i| 48u8) =~= (r0 + Seq::new(
                    c as nat,
                    |i| 48u8,
                )).push(48));
            }
            c = c + 1;
        }
    }
    let ghost rmid = r@;
    r.extend_from_slice(digits.as_slice());
    let eb = vstd::string::StrSliceExecFns::as_bytes_vec(ext);
    r.extend_from_slice(eb.as_slice());
    proof {
        assert(r@ =~= chunk_name_stem() + padded_index(idx as nat) + vstd::utf8::encode_utf8(
            ext@,
        ));
    }
    r
}

/// Parses a chunk file name against an expected extension, yielding the
/// chunk index exactly when the name conforms.
pub fn parse_chunk_index(name: &str, ext: &str) -> (r: Option<usize>)
    ensures
        r == chunk_index_of_name(vstd::utf8::encode_utf8(name@), vstd::utf8::encode_utf8(ext@)),
{
    let nb = vstd::string::StrSliceExecFns::as_bytes_vec(name);
    let eb = vstd::string::StrSliceExecFns::as_bytes_vec(ext);
    let ghost nv = nb@;
    let ghost ev = eb@;
    if nb.len() <= 6 || nb.len() - 6 <= eb.len() {
        return None;
    }
    let stem_slice = vstd::slice::slice_subrange(nb.as_slice(), 0, 6);
    let stem_ok = stem_slice[0] == 99 && stem_slice[1] == 104 && stem_slice[2] == 117
        && stem_slice[3] == 110 && stem_slice[4] == 107 && stem_slice[5] == 95;
    if !stem_ok {
        proof {
            assert(nv.take(6) != chunk_name_stem());
        }
        return None;
    }
    proof {
        assert(nv.take(6) =~= chunk_name_stem());
    }
    let tail = vstd::slice::slice_subrange(nb.as_slice(), nb.len() - eb.len(), nb.len());
    proof {
        assert(tail@ =~= nv.skip(nv.len() - ev.len()));
    }
    if !bytes_eq(tail, eb.as_slice()) {
        return None;
    }
    let mid = vstd::slice::slice_subrange(nb.as_slice(), 6, nb.len() - eb.len());
    proof {
        assert(mid@ =~= nv.subrange(6, nv.len() - ev.len()));
        assert(mid@.len() > 0);
    }
    parse_usize(mid)
}

} // verus!
