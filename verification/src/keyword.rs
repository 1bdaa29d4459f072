//! Lexical (keyword) scoring: the token multiset cached on every segment and
//! the coverage-then-density score of a segment against the query terms.

use vstd::prelude::*;

use crate::text::{keyword_terms, keyword_tokens, str_eq, views};

verus! {

broadcast use vstd::seq_lib::group_seq_properties;

/// How often `t` occurs in `terms`.
pub open spec fn occurrences(terms: Seq<Seq<char>>, t: Seq<char>) -> nat {
    terms.filter(equals(t)).len()
}

/// The predicate "is equal to `t`".
pub open spec fn equals(t: Seq<char>) -> spec_fn(Seq<char>) -> bool {
    |x: Seq<char>| x == t
}

proof fn lemma_occurrences_push(terms: Seq<Seq<char>>, x: Seq<char>, t: Seq<char>)
    ensures
        occurrences(terms.push(x), t) == occurrences(terms, t) + if x == t {
            1nat
        } else {
            0nat
        },
{
    terms.lemma_filter_push(x, equals(t));
}

proof fn lemma_occurrences_le(terms: Seq<Seq<char>>, t: Seq<char>)
    ensures
        occurrences(terms, t) <= terms.len(),
    decreases terms.len(),
{
    if terms.len() > 0 {
        lemma_occurrences_le(terms.drop_last(), t);
        assert(terms =~= terms.drop_last().push(terms.last()));
        lemma_occurrences_push(terms.drop_last(), terms.last(), t);
    }
}

/// The count stored for `t` in parallel key/count sequences (0 when absent).
pub open spec fn lookup(keys: Seq<Seq<char>>, counts: Seq<u64>, t: Seq<char>) -> nat
    decreases keys.len(),
{
    if keys.len() == 0 || counts.len() == 0 {
        0
    } else if keys.last() == t {
        counts.last() as nat
    } else {
        lookup(keys.drop_last(), counts.drop_last(), t)
    }
}

proof fn lemma_lookup_absent(keys: Seq<Seq<char>>, counts: Seq<u64>, t: Seq<char>)
    requires
        !keys.contains(t),
    ensures
        lookup(keys, counts, t) == 0,
    decreases keys.len(),
{
    if keys.len() > 0 && counts.len() > 0 {
        assert(keys.last() != t);
        assert(!keys.drop_last().contains(t)) by {
            if keys.drop_last().contains(t) {
                let k = choose|k: int| 0 <= k < keys.drop_last().len() && keys.drop_last()[k] == t;
                assert(keys[k] == t);
            }
        }
        lemma_lookup_absent(keys.drop_last(), counts.drop_last(), t);
    }
}

proof fn lemma_lookup_at(keys: Seq<Seq<char>>, counts: Seq<u64>, j: int)
    requires
        keys.no_duplicates(),
        keys.len() == counts.len(),
        0 <= j < keys.len(),
    ensures
        lookup(keys, counts, keys[j]) == counts[j],
    decreases keys.len(),
{
    if j < keys.len() - 1 {
        assert(keys.last() != keys[j]);
        lemma_lookup_at(keys.drop_last(), counts.drop_last(), j);
    }
}

proof fn lemma_lookup_update(keys: Seq<Seq<char>>, counts: Seq<u64>, j: int, v: u64, t: Seq<char>)
    requires
        keys.no_duplicates(),
        keys.len() == counts.len(),
        0 <= j < keys.len(),
    ensures
        lookup(keys, counts.update(j, v), t) == if keys[j] == t {
            v as nat
        } else {
            lookup(keys, counts, t)
        },
    decreases keys.len(),
{
    let c2 = counts.update(j, v);
    if j == keys.len() - 1 {
        assert(c2.drop_last() =~= counts.drop_last());
    } else {
        assert(c2.drop_last() =~= counts.drop_last().update(j, v));
        lemma_lookup_update(keys.drop_last(), counts.drop_last(), j, v, t);
    }
}

/// The token multiset of a text (`token -> occurrence count`), built once when
/// a segment is indexed so that scoring a segment never re-tokenizes it.
/// Held as parallel vectors of distinct tokens and their counts, read as a
/// map, for the same reason as the keyed vectors of the store.
pub struct TokenCounts {
    keys: Vec<String>,
    counts: Vec<u64>,
}

impl TokenCounts {
    /// Keys are distinct and each has a count.
    pub closed spec fn wf(&self) -> bool {
        &&& self.keys@.len() == self.counts@.len()
        &&& views(self.keys@).no_duplicates()
    }

    /// How often `t` occurs (0 when it does not).
    pub closed spec fn count(&self, t: Seq<char>) -> nat {
        lookup(views(self.keys@), self.counts@, t)
    }

    /// The number of distinct tokens.
    pub closed spec fn size(&self) -> nat {
        self.keys@.len()
    }

    /// The empty multiset.
    pub fn empty() -> (r: TokenCounts)
        ensures
            r.wf(),
            forall|t: Seq<char>| #[trigger] r.count(t) == 0,
            r.size() == 0,
    {
        TokenCounts { keys: Vec::new(), counts: Vec::new() }
    }

    /// Number of distinct tokens held.
    pub fn len(&self) -> (n: usize)
        ensures
            n == self.size(),
    {
        self.keys.len()
    }

    /// Index of the key equal to `t`, if any.
    fn find(&self, t: &str) -> (r: Option<usize>)
        requires
            self.wf(),
        ensures
            match r {
                Some(j) => j < self.keys@.len() && self.keys@[j as int]@ == t@,
                None => !views(self.keys@).contains(t@),
            },
    {
        let mut j: usize = 0;
        while j < self.keys.len()
            invariant
                self.wf(),
                0 <= j <= self.keys@.len(),
                forall|k: int| 0 <= k < j ==> (#[trigger] self.keys@[k])@ != t@,
            decreases self.keys@.len() - j,
        {
            if str_eq(self.keys[j].as_str(), t) {
                return Some(j);
            }
            j = j + 1;
        }
        proof {
            if views(self.keys@).contains(t@) {
                let k = choose|k: int|
                    0 <= k < views(self.keys@).len() && views(self.keys@)[k] == t@;
                assert(self.keys@[k]@ == t@);
            }
        }
        None
    }

    /// The occurrence count of `t`, or `None` when it never occurs.
    pub fn get(&self, t: &str) -> (r: Option<u64>)
        requires
            self.wf(),
        ensures
            match r {
                Some(n) => n == self.count(t@),
                None => self.count(t@) == 0,
            },
    {
        match self.find(t) {
            Some(j) => {
                proof {
                    lemma_lookup_at(views(self.keys@), self.counts@, j as int);
                }
                Some(self.counts[j])
            },
            None => {
                proof {
                    lemma_lookup_absent(views(self.keys@), self.counts@, t@);
                }
                None
            },
        }
    }
}

/// Token multiset of a segment's text, `token -> occurrence count`, with the
/// same tokenizer that [`keyword_tokens`] applies to the query, so cached
/// segment tokens and live query terms match symmetrically.
pub fn token_multiset(text: &str) -> (m: TokenCounts)
    ensures
        m.wf(),
        forall|t: Seq<char>| #[trigger] m.count(t) == occurrences(keyword_terms(text@), t),
{
    let toks = keyword_tokens(text);
    let ghost terms = views(toks@);
    let mut m = TokenCounts::empty();
    let mut i: usize = 0;
    while i < toks.len()
        invariant
            terms == views(toks@),
            terms == keyword_terms(text@),
            0 <= i <= toks@.len(),
            m.wf(),
            forall|t: Seq<char>| #[trigger] m.count(t) == occurrences(terms.take(i as int), t),
        decreases toks@.len() - i,
    {
        let ghost prev = terms.take(i as int);
        let ghost m0 = m;
        proof {
            assert(terms.take(i + 1) =~= prev.push(terms[i as int]));
            lemma_occurrences_le(prev, toks@[i as int]@);
        }
        match m.find(toks[i].as_str()) {
            Some(j) => {
                proof {
                    lemma_lookup_at(views(m.keys@), m.counts@, j as int);
                }
                let c = m.counts[j];
                let ghost oc = m.counts@;
                assert(views(m.keys@)[j as int] == terms[i as int]);
                assert(m.count(terms[i as int]) == c);
                assert(c <= i);
                m.counts.set(j, c + 1);
                proof {
                    assert forall|t: Seq<char>| #[trigger]
                        m.count(t) == occurrences(terms.take(i + 1), t) by {
                        lemma_lookup_update(views(m.keys@), oc, j as int, (c + 1) as u64, t);
                        lemma_occurrences_push(prev, terms[i as int], t);
                        assert(m0.count(t) == occurrences(prev, t));
                    }
                }
            },
            None => {
                let ghost ok = views(m.keys@);
                let ghost oc = m.counts@;
                let t0 = toks[i].clone();
                m.keys.push(t0);
                m.counts.push(1);
                proof {
                    assert(views(m.keys@) =~= ok.push(terms[i as int]));
                    assert(views(m.keys@).drop_last() =~= ok);
                    assert(m.counts@.drop_last() =~= oc);
                    assert forall|t: Seq<char>| #[trigger]
                        m.count(t) == occurrences(terms.take(i + 1), t) by {
                        lemma_occurrences_push(prev, terms[i as int], t);
                        assert(m0.count(t) == occurrences(prev, t));
                        if terms[i as int] == t {
                            lemma_lookup_absent(ok, oc, t);
                        }
                    }
                }
            },
        }
        i = i + 1;
    }
    assert(terms.take(toks@.len() as int) =~= terms);
    m
}

/// The distinct elements of a sequence, in order of first occurrence.
pub open spec fn dedup(s: Seq<Seq<char>>) -> Seq<Seq<char>> {
    s.remove_duplicates(Seq::empty())
}

/// De-duplicate a token list, preserving first-seen order.
pub fn distinct(tokens: Vec<String>) -> (out: Vec<String>)
    ensures
        views(out@) == dedup(views(tokens@)),
{
    let ghost all = views(tokens@);
    let mut out: Vec<String> = Vec::new();
    let mut i: usize = 0;
    while i < tokens.len()
        invariant
            all == views(tokens@),
            0 <= i <= tokens@.len(),
            all.skip(i as int).remove_duplicates(views(out@)) == dedup(all),
        decreases tokens@.len() - i,
    {
        let ghost before = views(out@);
        assert(all.skip(i as int).skip(1) =~= all.skip(i + 1));
        let mut seen = false;
        let mut j: usize = 0;
        while j < out.len()
            invariant
                0 <= j <= out@.len(),
                before == views(out@),
                i < tokens@.len(),
                seen == exists|k: int| 0 <= k < j && (#[trigger] out@[k])@ == tokens@[i as int]@,
            decreases out@.len() - j,
        {
            if str_eq(out[j].as_str(), tokens[i].as_str()) {
                seen = true;
            }
            j = j + 1;
        }
        proof {
            if seen {
                let k = choose|k: int| 0 <= k < j && (#[trigger] out@[k])@ == tokens@[i as int]@;
                assert(before[k] == all[i as int]);
            } else {
                assert forall|k: int| 0 <= k < before.len() implies before[k] != all[i as int] by {
                    assert(out@[k]@ != tokens@[i as int]@);
                }
            }
        }
        if !seen {
            let t = tokens[i].clone();
            out.push(t);
            assert(views(out@) =~= before + seq![all[i as int]]);
        }
        i = i + 1;
    }
    proof {
        assert(all.skip(tokens@.len() as int).len() == 0);
    }
    out
}

/// Lexical match of one segment: how many distinct query terms it holds and
/// how many times they occur in total.
#[derive(Clone, Copy)]
pub struct KeywordScore {
    pub distinct_present: u64,
    pub total_occurrences: u64,
}

/// Number of query terms present in the multiset.
pub open spec fn kw_distinct(m: TokenCounts, q: Seq<Seq<char>>) -> nat
    decreases q.len(),
{
    if q.len() == 0 {
        0
    } else {
        kw_distinct(m, q.drop_last()) + if m.count(q.last()) > 0 {
            1nat
        } else {
            0nat
        }
    }
}

/// Total occurrences of the query terms in the multiset.
pub open spec fn kw_total(m: TokenCounts, q: Seq<Seq<char>>) -> nat
    decreases q.len(),
{
    if q.len() == 0 {
        0
    } else {
        kw_total(m, q.drop_last()) + m.count(q.last())
    }
}

proof fn lemma_kw_distinct_le(m: TokenCounts, q: Seq<Seq<char>>)
    ensures
        kw_distinct(m, q) <= q.len(),
    decreases q.len(),
{
    if q.len() > 0 {
        lemma_kw_distinct_le(m, q.drop_last());
    }
}

/// Lexical match score of one segment against the distinct query terms:
///
/// ```text
///   score = (# distinct query terms present) + 0.1 * (total occurrences)
/// ```
///
/// Search ranks by the pair: distinct-term coverage first, occurrences as
/// the tie-break, so repetition never overtakes coverage. Tokens match
/// whole (`"db"` never matches inside `"database"`). The total saturates at
/// `u64::MAX`.
pub fn keyword_score(seg_counts: &TokenCounts, query_terms: &Vec<String>) -> (s: KeywordScore)
    requires
        seg_counts.wf(),
    ensures
        s.distinct_present == kw_distinct(*seg_counts, views(query_terms@)),
        s.total_occurrences == if kw_total(*seg_counts, views(query_terms@)) > u64::MAX {
            u64::MAX as nat
        } else {
            kw_total(*seg_counts, views(query_terms@))
        },
{
    let ghost q = views(query_terms@);
    let mut distinct_present: u64 = 0;
    let mut total: u64 = 0;
    let mut i: usize = 0;
    while i < query_terms.len()
        invariant
            q == views(query_terms@),
            seg_counts.wf(),
            0 <= i <= query_terms@.len(),
            distinct_present == kw_distinct(*seg_counts, q.take(i as int)),
            total == if kw_total(*seg_counts, q.take(i as int)) > u64::MAX {
                u64::MAX as nat
            } else {
                kw_total(*seg_counts, q.take(i as int))
            },
        decreases query_terms@.len() - i,
    {
        proof {
            assert(q.take(i + 1).drop_last() =~= q.take(i as int));
            lemma_kw_distinct_le(*seg_counts, q.take(i as int));
        }
        let occ = match seg_counts.get(query_terms[i].as_str()) {
            Some(n) => n,
            None => 0,
        };
        if occ > 0 {
            distinct_present = distinct_present + 1;
        }
        total = if total > u64::MAX - occ {
            u64::MAX
        } else {
            total + occ
        };
        i = i + 1;
    }
    assert(q.take(query_terms@.len() as int) =~= q);
    KeywordScore { distinct_present, total_occurrences: total }
}

} // verus!
