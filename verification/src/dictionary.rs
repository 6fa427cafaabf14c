//! The dictionary: a bidirectional mapping between tokens and dense integer
//! indices, assigned in first-seen order.
use vstd::prelude::*;

verus! {

#[verifier::external_type_specification]
#[verifier::external_body]
#[verifier::reject_recursive_types(K)]
#[verifier::reject_recursive_types(V)]
#[verifier::reject_recursive_types(S)]
pub struct ExIndexMap<K, V, S>(indexmap::IndexMap<K, V, S>);

/// The entries of the token map, keys as character sequences, in insertion
/// order.
pub uninterp spec fn token_map_entries(m: indexmap::IndexMap<String, usize>) -> Seq<
    (Seq<char>, usize),
>;

/// Relies on `IndexMap::new`: the new map is empty.
#[verifier::external_body]
fn imap_new() -> (m: indexmap::IndexMap<String, usize>)
    ensures
        token_map_entries(m) == Seq::<(Seq<char>, usize)>::empty(),
{
    indexmap::IndexMap::new()
}

/// Relies on `IndexMap::len`: the number of entries.
#[verifier::external_body]
fn imap_len(m: &indexmap::IndexMap<String, usize>) -> (n: usize)
    ensures
        n == token_map_entries(*m).len(),
{
    m.len()
}

/// True when some entry of the map has this key.
pub open spec fn map_has_key(m: indexmap::IndexMap<String, usize>, k: Seq<char>) -> bool {
    exists|i: int|
        0 <= i < token_map_entries(m).len() && #[trigger] token_map_entries(m)[i].0 == k
}

/// True when some entry of the map is exactly this key-value pair.
pub open spec fn map_has_entry(
    m: indexmap::IndexMap<String, usize>,
    k: Seq<char>,
    v: usize,
) -> bool {
    exists|i: int|
        0 <= i < token_map_entries(m).len() && #[trigger] token_map_entries(m)[i] == (k, v)
}

/// Relies on `IndexMap::get`: finds the entry with an equal key, if any.
#[verifier::external_body]
fn imap_get(m: &indexmap::IndexMap<String, usize>, k: &String) -> (r: Option<usize>)
    ensures
        r is Some <==> map_has_key(*m, k@),
        r matches Some(v) ==> map_has_entry(*m, k@, v),
{
    m.get(k).cloned()
}

/// Relies on `IndexMap::insert`: a key absent from the map is appended, last
/// in order.
#[verifier::external_body]
fn imap_insert(m: &mut indexmap::IndexMap<String, usize>, k: String, v: usize)
    requires
        forall|i: int|
            0 <= i < token_map_entries(*old(m)).len() ==> #[trigger] token_map_entries(
                *old(m),
            )[i].0 != k@,
    ensures
        token_map_entries(*final (m)) == token_map_entries(*old(m)).push((k@, v)),
{
    m.insert(k, v);
}

/// The deduplicated token list in first-seen order.
pub open spec fn dict_of<T>(toks: Seq<Seq<T>>) -> Seq<Seq<T>>
    decreases toks.len(),
{
    if toks.len() == 0 {
        Seq::empty()
    } else {
        let d = dict_of(toks.drop_last());
        if d.contains(toks.last()) {
            d
        } else {
            d.push(toks.last())
        }
    }
}

/// The first-seen token list is duplicate-free, holds exactly the tokens
/// seen, and is never longer than what was seen.
pub proof fn lemma_dict_of_facts<T>(toks: Seq<Seq<T>>)
    ensures
        forall|i: int, j: int|
            0 <= i < j < dict_of(toks).len() ==> dict_of(toks)[i] != dict_of(toks)[j],
        forall|t: Seq<T>| #[trigger] dict_of(toks).contains(t) <==> toks.contains(t),
        dict_of(toks).len() <= toks.len(),
    decreases toks.len(),
{
    if toks.len() == 0 {
    } else {
        lemma_dict_of_facts(toks.drop_last());
        let d0 = dict_of(toks.drop_last());
        let d = dict_of(toks);
        assert forall|t: Seq<T>| #[trigger] d.contains(t) implies toks.contains(t) by {
            let i = choose|i: int| 0 <= i < d.len() && d[i] == t;
            if i < d0.len() {
                assert(d0.contains(t));
                let j = choose|j: int| 0 <= j < toks.drop_last().len() && toks.drop_last()[j] == t;
                assert(toks[j] == t);
            } else {
                assert(t == toks.last());
                assert(toks[toks.len() - 1] == t);
            }
        }
        assert forall|t: Seq<T>| toks.contains(t) implies #[trigger] d.contains(t) by {
            let j = choose|j: int| 0 <= j < toks.len() && toks[j] == t;
            if j < toks.len() - 1 {
                assert(toks.drop_last()[j] == t);
                assert(d0.contains(t));
                let i = choose|i: int| 0 <= i < d0.len() && d0[i] == t;
                assert(d[i] == t);
            } else {
                if d0.contains(toks.last()) {
                    let i = choose|i: int| 0 <= i < d0.len() && d0[i] == t;
                    assert(d[i] == t);
                } else {
                    assert(d[d.len() - 1] == t);
                }
            }
        }
        assert forall|i: int, j: int| 0 <= i < j < d.len() implies d[i] != d[j] by {
            if j == d.len() - 1 && d.len() > d0.len() {
                if d[i] == d[j] {
                    assert(d0[i] == toks.last());
                    assert(d0.contains(toks.last()));
                }
            }
        }
    }
}

/// A bidirectional token-index mapping: `token_to_idx` finds a token's dense
/// index, `idx_to_token` lists the tokens in index order.
pub struct Dictionary {
    pub token_to_idx: indexmap::IndexMap<String, usize>,
    pub idx_to_token: Vec<String>,
}

impl Dictionary {
    /// The two mappings are exact inverses: entry `i` of the map is the
    /// `i`-th token with value `i`, and no token repeats.
    pub open spec fn wf(self) -> bool {
        let toks = self.idx_to_token.deep_view();
        &&& token_map_entries(self.token_to_idx).len() == toks.len()
        &&& forall|i: int|
            0 <= i < toks.len() ==> #[trigger] token_map_entries(self.token_to_idx)[i] == (
            toks[i],
            i as usize,
            )
        &&& forall|i: int, j: int| 0 <= i < j < toks.len() ==> toks[i] != toks[j]
    }

    /// The tokens of the dictionary, in index order.
    pub open spec fn model(self) -> Seq<Seq<char>> {
        self.idx_to_token.deep_view()
    }

    /// Builds the dictionary of a token sequence: each distinct token gets
    /// the next sequential index at its first occurrence.
    pub fn new(tokens: &[String]) -> (r: Dictionary)
        ensures
            r.wf(),
            r.model() == dict_of(tokens.deep_view()),
    {
        let ghost dv = tokens.deep_view();
        let mut map = imap_new();
        let mut idx_to_token: Vec<String> = Vec::new();
        let n = tokens.len();
        proof {
            assert(dv.take(0) =~= Seq::<Seq<char>>::empty());
        }
        for i in 0..n
            invariant
                n == tokens@.len(),
                dv == tokens.deep_view(),
                token_map_entries(map).len() == idx_to_token.deep_view().len(),
                forall|x: int|
                    0 <= x < idx_to_token.deep_view().len() ==> #[trigger] token_map_entries(
                        map,
                    )[x] == (idx_to_token.deep_view()[x], x as usize),
                forall|x: int, y: int|
                    0 <= x < y < idx_to_token.deep_view().len() ==> idx_to_token.deep_view()[x]
                        != idx_to_token.deep_view()[y],
                idx_to_token.deep_view() == dict_of(dv.take(i as int)),
        {
            let ghost deep = idx_to_token.deep_view();
            let tok = &tokens[i];
            proof {
                assert(dv[i as int] == tokens@[i as int]@);
                assert(dv.take(i + 1).drop_last() =~= dv.take(i as int));
                assert(dv.take(i + 1).last() == dv[i as int]);
            }
            match imap_get(&map, tok) {
                Some(_) => {
                    proof {
                        let x = choose|x: int|
                            0 <= x < token_map_entries(map).len() && #[trigger] token_map_entries(
                                map,
                            )[x].0 == tok@;
                        assert(deep[x] == tok@);
                        assert(deep.contains(dv[i as int]));
                        assert(dict_of(dv.take(i + 1)) == deep);
                    }
                },
                None => {
                    let idx = imap_len(&map);
                    proof {
                        if deep.contains(dv[i as int]) {
                            let x = choose|x: int| 0 <= x < deep.len() && deep[x] == dv[i as int];
                            assert(token_map_entries(map)[x].0 == tok@);
                        }
                        assert(!deep.contains(dv[i as int]));
                        assert(dict_of(dv.take(i + 1)) == deep.push(dv[i as int]));
                    }
                    imap_insert(&mut map, tok.clone(), idx);
                    idx_to_token.push(tok.clone());
                    proof {
                        assert(idx_to_token.deep_view() =~= deep.push(tok@));
                    }
                },
            }
        }
        proof {
            assert(dv.take(n as int) =~= dv);
        }
        Dictionary { token_to_idx: map, idx_to_token }
    }

    /// How many distinct tokens the dictionary holds.
    pub fn len(&self) -> (n: usize)
        requires
            self.wf(),
        ensures
            n == self.model().len(),
    {
        self.idx_to_token.len()
    }

    /// The dense index of a token: `Some` exactly for the tokens the
    /// dictionary holds, and then the unique position of the token.
    pub fn index_of(&self, tok: &String) -> (r: Option<usize>)
        requires
            self.wf(),
        ensures
            r is Some <==> self.model().contains(tok@),
            r matches Some(v) ==> v < self.model().len() && self.model()[v as int] == tok@,
    {
        let n = self.idx_to_token.len();
        let r = imap_get(&self.token_to_idx, tok);
        proof {
            let deep = self.idx_to_token.deep_view();
            assert(deep.len() == n);
            match r {
                Some(v) => {
                    assert(map_has_entry(self.token_to_idx, tok@, v));
                    let x = choose|x: int|
                        0 <= x < token_map_entries(self.token_to_idx).len()
                            && #[trigger] token_map_entries(self.token_to_idx)[x] == (tok@, v);
                    assert(token_map_entries(self.token_to_idx)[x] == (deep[x], x as usize));
                    assert(token_map_entries(self.token_to_idx)[x].0 == tok@);
                    assert(token_map_entries(self.token_to_idx)[x].1 == v);
                    assert(token_map_entries(self.token_to_idx)[x].0 == deep[x]);
                    assert(token_map_entries(self.token_to_idx)[x].1 == x as usize);
                    assert(deep[x] == tok@ && v == x);
                    assert(deep.contains(tok@));
                },
                None => {
                    if deep.contains(tok@) {
                        let x = choose|x: int| 0 <= x < deep.len() && deep[x] == tok@;
                        assert(token_map_entries(self.token_to_idx)[x].0 == tok@);
                    }
                },
            }
        }
        r
    }

    /// The token at a dense index.
    pub fn token_at(&self, i: usize) -> (r: &String)
        requires
            self.wf(),
            i < self.model().len(),
        ensures
            r@ == self.model()[i as int],
    {
        &self.idx_to_token[i]
    }
}

/// Dictionary determinism: the token-index assignment is a function of the
/// token sequence alone, so equal token sequences — in one run or across
/// runs — yield identical dictionaries and identical indices.
pub proof fn lemma_dictionary_deterministic(t1: Seq<Seq<char>>, t2: Seq<Seq<char>>)
    requires
        t1 == t2,
    ensures
        dict_of(t1) == dict_of(t2),
{
}

} // verus!
