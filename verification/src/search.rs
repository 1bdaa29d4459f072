//! Search over the store: the keyword channel, the candidates of the dense
//! channel, Reciprocal Rank Fusion of the two, and the final top-`k`
//! selection with an optional cap per document.
//!
//! The dense channel scores vectors by a floating-point dot product; that
//! scoring and its ranking happen outside this module, which supplies the
//! candidates (the vectorized segments in scope that pass the filter) and
//! takes the ranking back.
//!
//! Scores are exact fractions: a keyword score is
//! `distinct_terms + occurrences / 10`, and a fused score is
//! `Σ 1 / (60 + rank)` over the channels a segment is ranked in (ranks
//! 0-based).

use vstd::prelude::*;

use crate::filter::{admits, effective, MetaFilter};
use crate::json::{jv, Json};
use crate::keyword::{distinct, dedup, keyword_score, kw_distinct, kw_total, KeywordScore};
use crate::rank::{fits, sort_desc, sorted_desc, Entry};
use crate::store::{core_wf, seg_wf, Collection, Core, Document, Segment, VectorStatus};
use crate::text::{
    chars_of, copy_str, in_scope, in_scope_spec, keyword_terms, keyword_tokens, lower_ascii,
    opt_view, string_of, to_ascii_lowercase, trim, trimmed, views,
};

verus! {

broadcast use vstd::seq_lib::group_seq_properties;

/// A segment of the store, by position: collection, document, segment.
#[derive(Clone, Copy, PartialEq, Eq, Debug, Structural)]
pub struct SegRef {
    pub coll: usize,
    pub doc: usize,
    pub seg: usize,
}

/// The position exists in the store.
pub open spec fn ref_ok<V>(core: Core<V>, r: SegRef) -> bool {
    &&& r.coll < core.collections@.len()
    &&& r.doc < core.collections@[r.coll as int].1.docs@.len()
    &&& r.seg < core.collections@[r.coll as int].1.docs@[r.doc as int].segments@.len()
}

/// The name of the collection at a position.
pub open spec fn ref_cname<V>(core: Core<V>, r: SegRef) -> Seq<char> {
    core.collections@[r.coll as int].0@
}

/// The document at a position.
pub open spec fn ref_doc<V>(core: Core<V>, r: SegRef) -> Document<V> {
    core.collections@[r.coll as int].1.docs@[r.doc as int]
}

/// The segment at a position.
pub open spec fn ref_seg<V>(core: Core<V>, r: SegRef) -> Segment<V> {
    ref_doc(core, r).segments@[r.seg as int]
}

/// `a` comes before `b` in scan order.
pub open spec fn ref_lt(a: SegRef, b: SegRef) -> bool {
    ||| a.coll < b.coll
    ||| (a.coll == b.coll && a.doc < b.doc)
    ||| (a.coll == b.coll && a.doc == b.doc && a.seg < b.seg)
}

/// Positions in strictly increasing scan order.
pub open spec fn increasing(s: Seq<SegRef>) -> bool {
    forall|i: int, j: int| 0 <= i < j < s.len() ==> ref_lt(#[trigger] s[i], #[trigger] s[j])
}

/// Which retrieval channels a search uses.
#[derive(Clone, Copy, PartialEq, Eq, Debug, Structural)]
pub enum SearchMode {
    /// Top-k by dot product over normalized vectors.
    Dense,
    /// Whole-token lexical match over segment text; needs no vectors.
    Keyword,
    /// Dense and keyword fused by Reciprocal Rank Fusion.
    Hybrid,
}

/// The mode a wire `mode` string names: `keyword` or `hybrid` after
/// trimming and ASCII-lowercasing, anything else (or nothing) `Dense`.
pub open spec fn mode_of(s: Option<Seq<char>>) -> SearchMode {
    match s {
        Some(x) => {
            let t = lower_ascii(trimmed(x));
            if t == "keyword"@ {
                SearchMode::Keyword
            } else if t == "hybrid"@ {
                SearchMode::Hybrid
            } else {
                SearchMode::Dense
            }
        },
        None => SearchMode::Dense,
    }
}

impl SearchMode {
    /// Parse the wire `mode` string; unknown or absent means `Dense`.
    pub fn parse(s: Option<&str>) -> (m: SearchMode)
        ensures
            m == mode_of(
                match s {
                    Some(x) => Some(x@),
                    None => None,
                },
            ),
    {
        match s {
            None => SearchMode::Dense,
            Some(x) => {
                let t = trim(x);
                let l = to_ascii_lowercase(t.as_str());
                if crate::text::str_eq(l.as_str(), "keyword") {
                    SearchMode::Keyword
                } else if crate::text::str_eq(l.as_str(), "hybrid") {
                    SearchMode::Hybrid
                } else {
                    SearchMode::Dense
                }
            },
        }
    }
}

/// A `search` request. (The score floor `min_score` is a floating-point
/// number and is applied by the caller, per mode.)
pub struct SearchRequest {
    pub query: String,
    /// A comma-separated list of collection names; `None` means all.
    pub collection: Option<String>,
    pub mode: SearchMode,
    pub k: usize,
    pub max_per_doc: Option<usize>,
    pub include_text: bool,
    pub filter: MetaFilter,
}

/// How many characters a preview keeps when the full text is not wanted.
pub const PREVIEW_CHARS: usize = 120;

/// One search hit, without its score.
pub struct Hit {
    pub doc_id: String,
    pub name: String,
    pub collection: String,
    /// The effective metadata of the segment (its document's overlaid by
    /// its own).
    pub meta: Json,
    pub segment_id: u64,
    pub line_start: Option<u64>,
    pub line_end: Option<u64>,
    /// The segment text, or its first [`PREVIEW_CHARS`] characters.
    pub text: String,
}

/// The segment at `r` is in the search's scope and passes its filter.
pub open spec fn searchable<V>(core: Core<V>, req: SearchRequest, r: SegRef) -> bool {
    &&& ref_ok(core, r)
    &&& in_scope_spec(opt_view(req.collection), ref_cname(core, r))
    &&& admits(req.filter@, effective(jv(ref_doc(core, r).meta), jv(ref_seg(core, r).meta)))
}

/// `h` is the hit for the segment at `r`.
pub open spec fn hit_for<V>(core: Core<V>, r: SegRef, include_text: bool, h: Hit) -> bool {
    let d = ref_doc(core, r);
    let s = ref_seg(core, r);
    &&& h.doc_id@ == d.doc_id@
    &&& h.name@ == d.name@
    &&& h.collection@ == ref_cname(core, r)
    &&& crate::filter::meta_map(jv(h.meta)) == effective(jv(d.meta), jv(s.meta))
    &&& h.segment_id == s.segment_id
    &&& h.line_start == s.line_start
    &&& h.line_end == s.line_end
    &&& h.text@ == if include_text || s.text@.len() <= PREVIEW_CHARS {
        s.text@
    } else {
        s.text@.take(PREVIEW_CHARS as int)
    }
}

/// Build the hit for the segment at `r`.
pub fn make_hit<V>(core: &Core<V>, r: SegRef, include_text: bool) -> (h: Hit)
    requires
        ref_ok(*core, r),
    ensures
        hit_for(*core, r, include_text, h),
{
    let cn = &core.collections[r.coll].0;
    let d = &core.collections[r.coll].1.docs[r.doc];
    let s = &d.segments[r.seg];
    let text = if include_text {
        copy_str(s.text.as_str())
    } else {
        let cs = chars_of(s.text.as_str());
        if cs.len() <= PREVIEW_CHARS {
            copy_str(s.text.as_str())
        } else {
            string_of(&cs, 0, PREVIEW_CHARS)
        }
    };
    Hit {
        doc_id: copy_str(d.doc_id.as_str()),
        name: copy_str(d.name.as_str()),
        collection: copy_str(cn.as_str()),
        meta: crate::filter::effective_meta(&d.meta, &s.meta),
        segment_id: s.segment_id,
        line_start: s.line_start,
        line_end: s.line_end,
        text,
    }
}

// ---------------------------------------------------------------------------
// Final selection
// ---------------------------------------------------------------------------

/// How many of `kept` lie in the same document as `r`.
pub open spec fn same_doc_count(kept: Seq<SegRef>, r: SegRef) -> nat
    decreases kept.len(),
{
    if kept.len() == 0 {
        0
    } else {
        same_doc_count(kept.drop_last(), r) + if kept.last().coll == r.coll && kept.last().doc
            == r.doc {
            1nat
        } else {
            0nat
        }
    }
}

/// Walking the first `n` ranked positions with a per-document cap: each is
/// kept while its document has fewer than `cap` kept, and the walk stops
/// once `k` are kept (checked after each position). Returns what was kept
/// and whether the walk stopped.
pub open spec fn capped_walk(ranked: Seq<SegRef>, n: int, k: int, cap: int) -> (Seq<SegRef>, bool)
    decreases n,
{
    if n <= 0 {
        (Seq::empty(), false)
    } else {
        let (p, stopped) = capped_walk(ranked, n - 1, k, cap);
        if stopped {
            (p, true)
        } else {
            let r = ranked[n - 1];
            let q = if same_doc_count(p, r) < cap {
                p.push(r)
            } else {
                p
            };
            (q, q.len() >= k)
        }
    }
}

/// The positions that make the result: the first `k` ranked ones, or with
/// a per-document cap the ones the capped walk keeps.
pub open spec fn selected(ranked: Seq<SegRef>, k: int, max_per_doc: Option<usize>) -> Seq<SegRef> {
    match max_per_doc {
        None => if k >= ranked.len() {
            ranked
        } else {
            ranked.take(k)
        },
        Some(cap) => capped_walk(ranked, ranked.len() as int, k, cap as int).0,
    }
}

/// How many of `kept` lie in the document of `r`.
fn count_same_doc(kept: &Vec<SegRef>, r: SegRef) -> (n: usize)
    ensures
        n == same_doc_count(kept@, r),
{
    let mut n: usize = 0;
    let mut i: usize = 0;
    while i < kept.len()
        invariant
            0 <= i <= kept@.len(),
            n == same_doc_count(kept@.take(i as int), r),
            n <= i,
        decreases kept@.len() - i,
    {
        assert(kept@.take(i + 1).drop_last() =~= kept@.take(i as int));
        if kept[i].coll == r.coll && kept[i].doc == r.doc {
            n = n + 1;
        }
        i = i + 1;
    }
    assert(kept@.take(kept@.len() as int) =~= kept@);
    n
}

/// Select from a best-first ranking: the first `k`, or, with a cap per
/// document, the walk that keeps a position only while its document has
/// fewer than `max_per_doc` kept and stops once `k` are kept.
pub fn select(ranked: &Vec<SegRef>, k: usize, max_per_doc: Option<usize>) -> (out: Vec<SegRef>)
    ensures
        out@ == selected(ranked@, k as int, max_per_doc),
{
    match max_per_doc {
        None => {
            let mut out: Vec<SegRef> = Vec::new();
            let mut i: usize = 0;
            while i < ranked.len() && i < k
                invariant
                    0 <= i <= ranked@.len(),
                    i <= k,
                    out@ == ranked@.take(i as int),
                decreases ranked@.len() - i,
            {
                out.push(ranked[i]);
                i = i + 1;
                assert(out@ =~= ranked@.take(i as int));
            }
            assert(k >= ranked@.len() ==> out@ =~= ranked@);
            out
        },
        Some(cap) => {
            let mut out: Vec<SegRef> = Vec::new();
            let mut stopped = false;
            let mut i: usize = 0;
            while i < ranked.len() && !stopped
                invariant
                    0 <= i <= ranked@.len(),
                    (out@, stopped) == capped_walk(ranked@, i as int, k as int, cap as int),
                decreases ranked@.len() - i,
            {
                let r = ranked[i];
                if count_same_doc(&out, r) < cap {
                    out.push(r);
                }
                stopped = out.len() >= k;
                i = i + 1;
            }
            proof {
                lemma_walk_stopped(ranked@, i as int, ranked@.len() as int, k as int, cap as int);
            }
            out
        },
    }
}

proof fn lemma_walk_stopped(ranked: Seq<SegRef>, a: int, b: int, k: int, cap: int)
    requires
        0 <= a <= b,
        a < b ==> capped_walk(ranked, a, k, cap).1,
    ensures
        capped_walk(ranked, b, k, cap) == capped_walk(ranked, a, k, cap),
    decreases b - a,
{
    if a < b {
        lemma_walk_stopped(ranked, a, b - 1, k, cap);
    }
}

/// Build the hits for selected positions, in order.
pub fn make_hits<V>(core: &Core<V>, refs: &Vec<SegRef>, include_text: bool) -> (hits: Vec<Hit>)
    requires
        forall|i: int| 0 <= i < refs@.len() ==> ref_ok(*core, #[trigger] refs@[i]),
    ensures
        hits@.len() == refs@.len(),
        forall|i: int| 0 <= i < refs@.len() ==> hit_for(*core, refs@[i], include_text, #[trigger] hits@[i]),
{
    let mut hits: Vec<Hit> = Vec::new();
    let mut i: usize = 0;
    while i < refs.len()
        invariant
            forall|j: int| 0 <= j < refs@.len() ==> ref_ok(*core, #[trigger] refs@[j]),
            0 <= i <= refs@.len(),
            hits@.len() == i,
            forall|j: int| 0 <= j < i ==> hit_for(*core, refs@[j], include_text, #[trigger] hits@[j]),
        decreases refs@.len() - i,
    {
        let h = make_hit(core, refs[i], include_text);
        hits.push(h);
        i = i + 1;
    }
    hits
}

// ---------------------------------------------------------------------------
// Candidates
// ---------------------------------------------------------------------------

/// `r` lies before position `(c, d, s)` in scan order.
pub open spec fn before(r: SegRef, c: int, d: int, s: int) -> bool {
    ||| r.coll < c
    ||| (r.coll == c && r.doc < d)
    ||| (r.coll == c && r.doc == d && r.seg < s)
}

/// The searchable positions of the store, in scan order.
fn searchable_refs<V>(core: &Core<V>, req: &SearchRequest) -> (out: Vec<SegRef>)
    ensures
        increasing(out@),
        forall|i: int| 0 <= i < out@.len() ==> searchable(*core, *req, #[trigger] out@[i]),
        forall|r: SegRef| searchable(*core, *req, r) ==> out@.contains(r),
{
    let mut out: Vec<SegRef> = Vec::new();
    let mut c: usize = 0;
    while c < core.collections.len()
        invariant
            0 <= c <= core.collections@.len(),
            increasing(out@),
            forall|i: int| 0 <= i < out@.len() ==> searchable(*core, *req, #[trigger] out@[i]),
            forall|i: int| 0 <= i < out@.len() ==> before(#[trigger] out@[i], c as int, 0, 0),
            forall|r: SegRef| searchable(*core, *req, r) && before(r, c as int, 0, 0) ==> out@.contains(r),
        decreases core.collections@.len() - c,
    {
        let cn = &core.collections[c].0;
        let coll = &core.collections[c].1;
        if in_scope(&req.collection, cn.as_str()) {
            let mut d: usize = 0;
            while d < coll.docs.len()
                invariant
                    0 <= c < core.collections@.len(),
                    coll == &core.collections@[c as int].1,
                    cn == &core.collections@[c as int].0,
                    in_scope_spec(opt_view(req.collection), cn@),
                    0 <= d <= coll.docs@.len(),
                    increasing(out@),
                    forall|i: int| 0 <= i < out@.len() ==> searchable(*core, *req, #[trigger] out@[i]),
                    forall|i: int| 0 <= i < out@.len() ==> before(#[trigger] out@[i], c as int, d as int, 0),
                    forall|r: SegRef|
                        searchable(*core, *req, r) && before(r, c as int, d as int, 0) ==> out@.contains(r),
                decreases coll.docs@.len() - d,
            {
                let doc = &coll.docs[d];
                let mut s: usize = 0;
                while s < doc.segments.len()
                    invariant
                        0 <= c < core.collections@.len(),
                        coll == &core.collections@[c as int].1,
                        cn == &core.collections@[c as int].0,
                        in_scope_spec(opt_view(req.collection), cn@),
                        0 <= d < coll.docs@.len(),
                        doc == &coll.docs@[d as int],
                        0 <= s <= doc.segments@.len(),
                        increasing(out@),
                        forall|i: int| 0 <= i < out@.len() ==> searchable(*core, *req, #[trigger] out@[i]),
                        forall|i: int|
                            0 <= i < out@.len() ==> before(#[trigger] out@[i], c as int, d as int, s as int),
                        forall|r: SegRef|
                            searchable(*core, *req, r) && before(r, c as int, d as int, s as int)
                                ==> out@.contains(r),
                    decreases doc.segments@.len() - s,
                {
                    let r = SegRef { coll: c, doc: d, seg: s };
                    let seg = &doc.segments[s];
                    let ghost prev = out@;
                    if req.filter.matches_doc_seg(&doc.meta, &seg.meta) {
                        out.push(r);
                        proof {
                            assert(out@[out@.len() - 1] == r);
                        }
                    }
                    proof {
                        assert forall|x: SegRef|
                            searchable(*core, *req, x) && before(x, c as int, d as int, s + 1)
                                implies out@.contains(x) by {
                            if before(x, c as int, d as int, s as int) {
                                assert(prev.contains(x));
                                let k = choose|k: int| 0 <= k < prev.len() && prev[k] == x;
                                assert(out@[k] == x);
                            } else {
                                assert(x == r);
                                assert(out@[out@.len() - 1] == r);
                            }
                        }
                    }
                    s = s + 1;
                }
                proof {
                    assert forall|x: SegRef|
                        searchable(*core, *req, x) && before(x, c as int, d + 1, 0) implies out@.contains(
                        x,
                    ) by {
                        assert(before(x, c as int, d as int, doc.segments@.len() as int));
                    }
                }
                d = d + 1;
            }
            proof {
                assert forall|x: SegRef| searchable(*core, *req, x) && before(x, c + 1, 0, 0) implies out@.contains(
                    x,
                ) by {
                    assert(before(x, c as int, coll.docs@.len() as int, 0));
                }
            }
        } else {
            proof {
                assert forall|x: SegRef| searchable(*core, *req, x) && before(x, c + 1, 0, 0) implies out@.contains(
                    x,
                ) by {
                    assert(x.coll != c);
                }
            }
        }
        c = c + 1;
    }
    proof {
        assert forall|x: SegRef| searchable(*core, *req, x) implies out@.contains(x) by {
            assert(before(x, core.collections@.len() as int, 0, 0));
        }
    }
    out
}

/// The segment at `r` is a dense candidate: searchable and holding a vector.
pub open spec fn dense_ok<V>(core: Core<V>, req: SearchRequest, r: SegRef) -> bool {
    searchable(core, req, r) && ref_seg(core, r).vector is Some
}

/// Some collection in scope is still building its vectors.
pub open spec fn partial_spec<V>(core: Core<V>, req: SearchRequest) -> bool {
    exists|c: int|
        0 <= c < core.collections@.len() && in_scope_spec(
            opt_view(req.collection),
            #[trigger] core.collections@[c].0@,
        ) && core.collections@[c].1.vector_status == VectorStatus::Building
}

/// The dense channel's candidates, in scan order: the searchable segments
/// holding a vector; and whether some collection in scope is still
/// building (its results may be partial). With no embedder there are none.
pub fn dense_candidates<V>(core: &Core<V>, req: &SearchRequest) -> (r: (Vec<SegRef>, bool))
    ensures
        increasing(r.0@),
        core.embedder_dim is None ==> r.0@.len() == 0 && !r.1,
        core.embedder_dim is Some ==> {
            &&& forall|i: int| 0 <= i < r.0@.len() ==> dense_ok(*core, *req, #[trigger] r.0@[i])
            &&& forall|x: SegRef| dense_ok(*core, *req, x) ==> r.0@.contains(x)
            &&& r.1 == partial_spec(*core, *req)
        },
{
    if core.embedder_dim.is_none() {
        return (Vec::new(), false);
    }
    let all = searchable_refs(core, req);
    let mut out: Vec<SegRef> = Vec::new();
    let mut i: usize = 0;
    while i < all.len()
        invariant
            increasing(all@),
            forall|j: int| 0 <= j < all@.len() ==> searchable(*core, *req, #[trigger] all@[j]),
            0 <= i <= all@.len(),
            forall|j: int| 0 <= j < out@.len() ==> dense_ok(*core, *req, #[trigger] out@[j]),
            forall|j: int| 0 <= j < out@.len() ==> exists|t: int| 0 <= t < i && all@[t] == #[trigger] out@[j],
            increasing(out@),
            forall|t: int| 0 <= t < i && dense_ok(*core, *req, #[trigger] all@[t]) ==> out@.contains(all@[t]),
        decreases all@.len() - i,
    {
        let r = all[i];
        if core.collections[r.coll].1.docs[r.doc].segments[r.seg].vector.is_some() {
            proof {
                assert forall|j: int| 0 <= j < out@.len() implies ref_lt(#[trigger] out@[j], r) by {
                    let t = choose|t: int| 0 <= t < i && all@[t] == out@[j];
                    assert(ref_lt(all@[t], all@[i as int]));
                }
            }
            let ghost prev = out@;
            out.push(r);
            proof {
                assert(out@[out@.len() - 1] == r);
                assert forall|t: int| 0 <= t <= i && dense_ok(*core, *req, #[trigger] all@[t]) implies out@.contains(
                    all@[t],
                ) by {
                    if t < i {
                        assert(prev.contains(all@[t]));
                        let k = choose|k: int| 0 <= k < prev.len() && prev[k] == all@[t];
                        assert(out@[k] == all@[t]);
                    } else {
                        assert(out@[out@.len() - 1] == all@[t]);
                    }
                }
                assert forall|j: int| 0 <= j < out@.len() implies exists|t: int|
                    0 <= t < i + 1 && all@[t] == #[trigger] out@[j] by {
                    if j < out@.len() - 1 {
                        assert(out@[j] == prev[j]);
                        let t = choose|t: int| 0 <= t < i && all@[t] == prev[j];
                        assert(all@[t] == out@[j]);
                    } else {
                        assert(all@[i as int] == out@[j]);
                    }
                }
            }
        }
        i = i + 1;
    }
    let mut partial = false;
    let mut c: usize = 0;
    while c < core.collections.len()
        invariant
            0 <= c <= core.collections@.len(),
            partial == exists|x: int|
                0 <= x < c && in_scope_spec(opt_view(req.collection), #[trigger] core.collections@[x].0@)
                    && core.collections@[x].1.vector_status == VectorStatus::Building,
        decreases core.collections@.len() - c,
    {
        if in_scope(&req.collection, core.collections[c].0.as_str())
            && core.collections[c].1.vector_status == VectorStatus::Building {
            partial = true;
        }
        c = c + 1;
    }
    proof {
        assert forall|x: SegRef| dense_ok(*core, *req, x) implies out@.contains(x) by {
            assert(all@.contains(x));
            let t = choose|t: int| 0 <= t < all@.len() && all@[t] == x;
            assert(dense_ok(*core, *req, all@[t]));
        }
    }
    (out, partial)
}

/// The segment at a valid position of a well-formed store is well formed.
proof fn lemma_ref_wf<V>(core: Core<V>, r: SegRef)
    requires
        core_wf(core),
        ref_ok(core, r),
    ensures
        seg_wf(ref_seg(core, r)),
{
    assert(crate::store::coll_wf(core.collections@[r.coll as int].1));
    assert(crate::store::doc_wf(ref_doc(core, r)));
}

/// The distinct keyword terms of the query.
pub open spec fn query_terms(req: SearchRequest) -> Seq<Seq<char>> {
    dedup(keyword_terms(req.query@))
}

/// The keyword score of a segment against distinct query terms.
pub open spec fn kw_score_of<V>(s: Segment<V>, q: Seq<Seq<char>>) -> KeywordScore {
    KeywordScore {
        distinct_present: kw_distinct(s.kw_counts, q) as u64,
        total_occurrences: if kw_total(s.kw_counts, q) > u64::MAX {
            u64::MAX
        } else {
            kw_total(s.kw_counts, q) as u64
        },
    }
}

/// A keyword score in tenths: `10 * distinct + occurrences`.
pub open spec fn tenths(k: KeywordScore) -> int {
    10 * k.distinct_present + k.total_occurrences
}

/// The rank key of a keyword score: distinct terms first, occurrences
/// second (`distinct * 2^64 + occurrences`, with occurrences below `2^64`).
pub open spec fn kw_rank(k: KeywordScore) -> int {
    k.distinct_present * 0x1_0000_0000_0000_0000 + k.total_occurrences
}

/// The segment at `r` is a keyword candidate: searchable, holding at least
/// one query term, and scoring at least `min` tenths when a floor is set.
pub open spec fn kw_ok<V>(core: Core<V>, req: SearchRequest, min: Option<u128>, r: SegRef) -> bool {
    let t = tenths(kw_score_of(ref_seg(core, r), query_terms(req)));
    &&& searchable(core, req, r)
    &&& t > 0
    &&& (min matches Some(m) ==> t >= m)
}

/// The positions of scored candidates.
pub open spec fn cand_refs(c: Seq<(SegRef, KeywordScore)>) -> Seq<SegRef> {
    c.map_values(|p: (SegRef, KeywordScore)| p.0)
}

/// The keyword channel's candidates, in scan order, with their scores:
/// the searchable segments holding a query term, at or above the floor
/// `min_tenths` (in tenths of a score point) when one is given.
pub fn keyword_candidates<V>(core: &Core<V>, req: &SearchRequest, min_tenths: Option<u128>) -> (out: Vec<(SegRef, KeywordScore)>)
    requires
        core_wf(*core),
    ensures
        increasing(cand_refs(out@)),
        forall|i: int|
            0 <= i < out@.len() ==> kw_ok(*core, *req, min_tenths, (#[trigger] out@[i]).0) && out@[i].1
                == kw_score_of(ref_seg(*core, out@[i].0), query_terms(*req)),
        forall|x: SegRef| kw_ok(*core, *req, min_tenths, x) ==> cand_refs(out@).contains(x),
{
    let toks = keyword_tokens(req.query.as_str());
    let terms = distinct(toks);
    let all = searchable_refs(core, req);
    let mut out: Vec<(SegRef, KeywordScore)> = Vec::new();
    let mut i: usize = 0;
    while i < all.len()
        invariant
            core_wf(*core),
            views(terms@) == query_terms(*req),
            increasing(all@),
            forall|j: int| 0 <= j < all@.len() ==> searchable(*core, *req, #[trigger] all@[j]),
            0 <= i <= all@.len(),
            forall|j: int|
                0 <= j < out@.len() ==> kw_ok(*core, *req, min_tenths, (#[trigger] out@[j]).0)
                    && out@[j].1 == kw_score_of(ref_seg(*core, out@[j].0), query_terms(*req)),
            forall|j: int|
                0 <= j < out@.len() ==> exists|t: int| 0 <= t < i && all@[t] == (#[trigger] out@[j]).0,
            increasing(cand_refs(out@)),
            forall|t: int|
                0 <= t < i && kw_ok(*core, *req, min_tenths, #[trigger] all@[t]) ==> cand_refs(out@).contains(
                    all@[t],
                ),
        decreases all@.len() - i,
    {
        let r = all[i];
        let seg = &core.collections[r.coll].1.docs[r.doc].segments[r.seg];
        proof {
            lemma_ref_wf(*core, r);
        }
        let ks = keyword_score(&seg.kw_counts, &terms);
        let t: u128 = 10 * (ks.distinct_present as u128) + ks.total_occurrences as u128;
        let keep = t > 0 && match min_tenths {
            Some(m) => t >= m,
            None => true,
        };
        if keep {
            let ghost prev = out@;
            proof {
                assert forall|j: int| 0 <= j < prev.len() implies ref_lt(#[trigger] prev[j].0, r) by {
                    let t = choose|t: int| 0 <= t < i && all@[t] == prev[j].0;
                    assert(ref_lt(all@[t], all@[i as int]));
                }
            }
            out.push((r, ks));
            proof {
                assert(cand_refs(out@) =~= cand_refs(prev).push(r));
                assert(out@[out@.len() - 1] == (r, ks));
                assert forall|t: int|
                    0 <= t <= i && kw_ok(*core, *req, min_tenths, #[trigger] all@[t]) implies cand_refs(
                    out@,
                ).contains(all@[t]) by {
                    if t < i {
                        assert(cand_refs(prev).contains(all@[t]));
                        let k = choose|k: int| 0 <= k < cand_refs(prev).len() && cand_refs(prev)[k] == all@[t];
                        assert(cand_refs(out@)[k] == all@[t]);
                    } else {
                        assert(cand_refs(out@)[out@.len() - 1] == all@[t]);
                    }
                }
                assert forall|j: int| 0 <= j < out@.len() implies exists|t: int|
                    0 <= t < i + 1 && all@[t] == (#[trigger] out@[j]).0 by {
                    if j < out@.len() - 1 {
                        assert(out@[j] == prev[j]);
                        let t = choose|t: int| 0 <= t < i && all@[t] == prev[j].0;
                        assert(all@[t] == out@[j].0);
                    } else {
                        assert(all@[i as int] == out@[j].0);
                    }
                }
            }
        }
        i = i + 1;
    }
    proof {
        assert forall|x: SegRef| kw_ok(*core, *req, min_tenths, x) implies cand_refs(out@).contains(x) by {
            assert(all@.contains(x));
            let t = choose|t: int| 0 <= t < all@.len() && all@[t] == x;
            assert(kw_ok(*core, *req, min_tenths, all@[t]));
        }
    }
    out
}

/// `order` lists each of the positions `0..n` exactly once.
pub open spec fn is_order(order: Seq<usize>, n: int) -> bool {
    &&& order.len() == n
    &&& order.no_duplicates()
    &&& forall|p: int| 0 <= p < order.len() ==> #[trigger] order[p] < n
}

/// Along `order`, keyword rank keys never increase.
pub open spec fn kw_order_sorted(c: Seq<(SegRef, KeywordScore)>, order: Seq<usize>) -> bool {
    forall|p: int, q: int|
        0 <= p < q < order.len() ==> kw_rank(c[#[trigger] order[p] as int].1) >= kw_rank(
            c[#[trigger] order[q] as int].1,
        )
}

/// The entry for candidate `i`: its index and its rank key.
pub open spec fn kw_entry(c: Seq<(SegRef, KeywordScore)>, i: int) -> Entry<usize> {
    Entry { item: i as usize, num: kw_rank(c[i].1) as u128, den: 1 }
}

/// The rank key of `ks`, computed.
fn kw_rank_key(ks: KeywordScore) -> (t: u128)
    ensures
        t == kw_rank(ks),
{
    let d = ks.distinct_present as u128;
    assert(d * 0x1_0000_0000_0000_0000 <= 0xffff_ffff_ffff_ffff * 0x1_0000_0000_0000_0000)
        by (nonlinear_arith)
        requires
            d <= 0xffff_ffff_ffff_ffff,
    ;
    d * 0x1_0000_0000_0000_0000u128 + ks.total_occurrences as u128
}

/// Rank keyword candidates best first: the order of their indices by
/// decreasing rank key, that is by more distinct query terms first and more
/// occurrences second (equal keys in no particular order).
pub fn rank_keyword(cands: &Vec<(SegRef, KeywordScore)>) -> (order: Vec<usize>)
    ensures
        is_order(order@, cands@.len() as int),
        kw_order_sorted(cands@, order@),
{
    let n = cands.len();
    let mut entries: Vec<Entry<usize>> = Vec::new();
    let mut i: usize = 0;
    while i < n
        invariant
            n == cands@.len(),
            0 <= i <= n,
            entries@.len() == i,
            forall|j: int| 0 <= j < i ==> #[trigger] entries@[j] == kw_entry(cands@, j),
        decreases n - i,
    {
        let t: u128 = kw_rank_key(cands[i].1);
        entries.push(Entry { item: i, num: t, den: 1 });
        i = i + 1;
    }
    let ghost es = entries@;
    proof {
        assert forall|a: int, b: int| 0 <= a < es.len() && 0 <= b < es.len() implies crate::rank::cross_ok(
            #[trigger] es[a],
            #[trigger] es[b],
        ) by {
            assert(es[a] == kw_entry(cands@, a));
            assert(es[b] == kw_entry(cands@, b));
        }
        assert forall|a: int, b: int| 0 <= a < es.len() && 0 <= b < es.len() && a != b implies es[a]
            != es[b] by {
            assert(es[a].item == a && es[b].item == b);
        }
        assert(es.no_duplicates());
        es.lemma_multiset_has_no_duplicates();
    }
    let sorted = sort_desc(entries);
    let ghost ss = sorted@;
    proof {
        assert forall|p: int| 0 <= p < ss.len() implies exists|j: int|
            0 <= j < es.len() && es[j] == #[trigger] ss[p] by {
            assert(ss.to_multiset().count(ss[p]) > 0);
            assert(es.to_multiset().count(ss[p]) > 0);
            assert(es.contains(ss[p]));
        }
        assert forall|x: Entry<usize>| ss.to_multiset().contains(x) implies ss.to_multiset().count(x) == 1 by {
            assert(es.to_multiset().contains(x));
        }
        ss.lemma_multiset_has_no_duplicates_conv();
    }
    let mut order: Vec<usize> = Vec::new();
    let mut p: usize = 0;
    while p < sorted.len()
        invariant
            ss == sorted@,
            ss.len() == n,
            0 <= p <= n,
            order@.len() == p,
            forall|q: int| 0 <= q < p ==> #[trigger] order@[q] == ss[q].item,
        decreases n - p,
    {
        order.push(sorted[p].item);
        p = p + 1;
    }
    proof {
        assert forall|q: int| 0 <= q < n implies #[trigger] ss[q] == kw_entry(cands@, ss[q].item as int) && ss[q].item < n by {
            let j = choose|j: int| 0 <= j < es.len() && es[j] == ss[q];
            assert(es[j] == kw_entry(cands@, j));
        }
        assert forall|a: int, b: int| 0 <= a < order@.len() && 0 <= b < order@.len() && a != b implies order@[a]
            != order@[b] by {
            assert(ss[a] == kw_entry(cands@, ss[a].item as int));
            assert(ss[b] == kw_entry(cands@, ss[b].item as int));
            assert(ss[a] != ss[b]);
        }
        assert forall|a: int, b: int| 0 <= a < b < order@.len() implies kw_rank(
            cands@[#[trigger] order@[a] as int].1,
        ) >= kw_rank(cands@[#[trigger] order@[b] as int].1) by {
            assert(ss[a] == kw_entry(cands@, ss[a].item as int));
            assert(ss[b] == kw_entry(cands@, ss[b].item as int));
            assert(crate::rank::score_ge(ss[a], ss[b]));
        }
    }
    order
}

/// `ranked` lists the keyword candidates, each once, best first: by more
/// distinct query terms, then by more occurrences.
pub open spec fn keyword_ranking<V>(core: Core<V>, req: SearchRequest, min: Option<u128>, ranked: Seq<SegRef>) -> bool {
    &&& ranked.no_duplicates()
    &&& forall|x: SegRef| ranked.contains(x) <==> kw_ok(core, req, min, x)
    &&& forall|p: int, q: int|
        0 <= p < q < ranked.len() ==> kw_rank(kw_score_of(ref_seg(core, #[trigger] ranked[p]), query_terms(req)))
            >= kw_rank(kw_score_of(ref_seg(core, #[trigger] ranked[q]), query_terms(req)))
}

/// The keyword candidates (at or above the floor `min_tenths`), their
/// order by decreasing score, and the positions in that order.
pub fn keyword_ranked<V>(core: &Core<V>, req: &SearchRequest, min_tenths: Option<u128>) -> (r: (
    Vec<(SegRef, KeywordScore)>,
    Vec<usize>,
    Vec<SegRef>,
))
    requires
        core_wf(*core),
    ensures
        increasing(cand_refs(r.0@)),
        forall|i: int|
            0 <= i < r.0@.len() ==> kw_ok(*core, *req, min_tenths, (#[trigger] r.0@[i]).0) && r.0@[i].1
                == kw_score_of(ref_seg(*core, r.0@[i].0), query_terms(*req)),
        is_order(r.1@, r.0@.len() as int),
        r.2@ == in_order(cand_refs(r.0@), r.1@),
        keyword_ranking(*core, *req, min_tenths, r.2@),
{
    let cands = keyword_candidates(core, req, min_tenths);
    let order = rank_keyword(&cands);
    let ghost cs = cands@;
    let mut ranked: Vec<SegRef> = Vec::new();
    let mut p: usize = 0;
    while p < order.len()
        invariant
            cs == cands@,
            is_order(order@, cs.len() as int),
            0 <= p <= order@.len(),
            ranked@.len() == p,
            forall|q: int| 0 <= q < p ==> #[trigger] ranked@[q] == cs[order@[q] as int].0,
        decreases order@.len() - p,
    {
        ranked.push(cands[order[p]].0);
        p = p + 1;
    }
    proof {
        let rs = ranked@;
        assert(rs =~= in_order(cand_refs(cs), order@));
        assert forall|a: int, b: int| 0 <= a < rs.len() && 0 <= b < rs.len() && a != b implies rs[a]
            != rs[b] by {
            let ia = order@[a] as int;
            let ib = order@[b] as int;
            assert(ia != ib);
            assert(cand_refs(cs)[ia] == rs[a]);
            assert(cand_refs(cs)[ib] == rs[b]);
            if ia < ib {
                assert(ref_lt(cand_refs(cs)[ia], cand_refs(cs)[ib]));
            } else {
                assert(ref_lt(cand_refs(cs)[ib], cand_refs(cs)[ia]));
            }
        }
        assert forall|x: SegRef| rs.contains(x) <==> kw_ok(*core, *req, min_tenths, x) by {
            if rs.contains(x) {
                let a = choose|a: int| 0 <= a < rs.len() && rs[a] == x;
                assert(kw_ok(*core, *req, min_tenths, cs[order@[a] as int].0));
            }
            if kw_ok(*core, *req, min_tenths, x) {
                assert(cand_refs(cs).contains(x));
                let i = choose|i: int| 0 <= i < cand_refs(cs).len() && cand_refs(cs)[i] == x;
                lemma_order_covers(order@, cs.len() as int, i);
                let a = choose|a: int| 0 <= a < order@.len() && order@[a] == i;
                assert(rs[a] == x);
            }
        }
        assert forall|a: int, b: int| 0 <= a < b < rs.len() implies kw_rank(
            kw_score_of(ref_seg(*core, #[trigger] rs[a]), query_terms(*req)),
        ) >= kw_rank(kw_score_of(ref_seg(*core, #[trigger] rs[b]), query_terms(*req))) by {
            assert(kw_rank(cs[order@[a] as int].1) >= kw_rank(cs[order@[b] as int].1));
        }
    }
    (cands, order, ranked)
}

/// A keyword-mode search: rank the keyword candidates (at or above the
/// floor `min_tenths`) by score and select the top `k`, honoring
/// `max_per_doc`. Each hit comes with its score.
pub fn keyword_search<V>(core: &Core<V>, req: &SearchRequest, min_tenths: Option<u128>) -> (r: Vec<(Hit, KeywordScore)>)
    requires
        core_wf(*core),
    ensures
        exists|ranked: Seq<SegRef>|
            {
                let sel = selected(ranked, req.k as int, req.max_per_doc);
                &&& #[trigger] keyword_ranking(*core, *req, min_tenths, ranked)
                &&& r@.len() == sel.len()
                &&& forall|i: int|
                    0 <= i < sel.len() ==> hit_for(*core, sel[i], req.include_text, (#[trigger] r@[i]).0)
                        && r@[i].1 == kw_score_of(ref_seg(*core, sel[i]), query_terms(*req))
            },
{
    let (_cands, _order, ranked) = keyword_ranked(core, req, min_tenths);
    let sel = select(&ranked, req.k, req.max_per_doc);
    proof {
        lemma_selected_within(ranked@, req.k as int, req.max_per_doc);
    }
    let toks = keyword_tokens(req.query.as_str());
    let terms = distinct(toks);
    let mut out: Vec<(Hit, KeywordScore)> = Vec::new();
    let mut i: usize = 0;
    while i < sel.len()
        invariant
            core_wf(*core),
            views(terms@) == query_terms(*req),
            forall|j: int| 0 <= j < sel@.len() ==> ranked@.contains(#[trigger] sel@[j]),
            forall|x: SegRef| ranked@.contains(x) <==> kw_ok(*core, *req, min_tenths, x),
            0 <= i <= sel@.len(),
            out@.len() == i,
            forall|j: int|
                0 <= j < i ==> hit_for(*core, sel@[j], req.include_text, (#[trigger] out@[j]).0)
                    && out@[j].1 == kw_score_of(ref_seg(*core, sel@[j]), query_terms(*req)),
        decreases sel@.len() - i,
    {
        let r = sel[i];
        assert(ranked@.contains(sel@[i as int]));
        assert(kw_ok(*core, *req, min_tenths, r));
        proof {
            lemma_ref_wf(*core, r);
        }
        let h = make_hit(core, r, req.include_text);
        let ks = keyword_score(&core.collections[r.coll].1.docs[r.doc].segments[r.seg].kw_counts, &terms);
        out.push((h, ks));
        i = i + 1;
    }
    assert(keyword_ranking(*core, *req, min_tenths, ranked@));
    out
}

/// A list of each of `0..n` once holds every one of them.
proof fn lemma_order_covers(order: Seq<usize>, n: int, i: int)
    requires
        is_order(order, n),
        0 <= i < n,
    ensures
        exists|a: int| 0 <= a < order.len() && order[a] == i,
{
    let ints = order.map_values(|x: usize| x as int);
    assert forall|a: int, b: int| 0 <= a < ints.len() && 0 <= b < ints.len() && a != b implies ints[a]
        != ints[b] by {
        assert(order[a] != order[b]);
    }
    assert(ints.no_duplicates());
    ints.unique_seq_to_set();
    if !(exists|a: int| 0 <= a < order.len() && order[a] == i) {
        let r = vstd::set_lib::set_int_range(0, n).remove(i);
        vstd::set_lib::lemma_int_range(0, n);
        assert forall|x: int| ints.to_set().contains(x) implies r.contains(x) by {
            let a = choose|a: int| 0 <= a < ints.len() && ints[a] == x;
            assert(order[a] < n);
            assert(order[a] != i);
        }
        assert(ints.to_set().subset_of(r));
        vstd::set_lib::lemma_len_subset(ints.to_set(), r);
        assert(false);
    }
}

/// Every selected position comes from the ranking.
pub proof fn lemma_selected_within(ranked: Seq<SegRef>, k: int, max_per_doc: Option<usize>)
    requires
        k >= 0,
    ensures
        forall|j: int|
            0 <= j < selected(ranked, k, max_per_doc).len() ==> ranked.contains(
                #[trigger] selected(ranked, k, max_per_doc)[j],
            ),
{
    match max_per_doc {
        None => {
            assert forall|j: int| 0 <= j < selected(ranked, k, max_per_doc).len() implies ranked.contains(
                #[trigger] selected(ranked, k, max_per_doc)[j],
            ) by {
                assert(ranked[j] == selected(ranked, k, max_per_doc)[j]);
            }
        },
        Some(cap) => {
            lemma_walk_within(ranked, ranked.len() as int, k, cap as int);
        },
    }
}

proof fn lemma_walk_within(ranked: Seq<SegRef>, n: int, k: int, cap: int)
    requires
        n <= ranked.len(),
    ensures
        forall|j: int|
            0 <= j < capped_walk(ranked, n, k, cap).0.len() ==> ranked.contains(
                #[trigger] capped_walk(ranked, n, k, cap).0[j],
            ),
    decreases n,
{
    if n > 0 {
        lemma_walk_within(ranked, n - 1, k, cap);
        let p = capped_walk(ranked, n - 1, k, cap).0;
        assert forall|j: int| 0 <= j < capped_walk(ranked, n, k, cap).0.len() implies ranked.contains(
            #[trigger] capped_walk(ranked, n, k, cap).0[j],
        ) by {
            if j < p.len() {
                assert(capped_walk(ranked, n, k, cap).0[j] == p[j]);
            } else {
                assert(capped_walk(ranked, n, k, cap).0[j] == ranked[n - 1]);
            }
        }
    }
}

// ---------------------------------------------------------------------------
// Dense-mode selection
// ---------------------------------------------------------------------------

/// The positions `order` names, in its order.
pub open spec fn in_order(cands: Seq<SegRef>, order: Seq<usize>) -> Seq<SegRef> {
    Seq::new(order.len(), |p: int| cands[order[p] as int])
}

/// Whether every position lies in the store (a check for callers that hold
/// positions across calls).
pub fn refs_valid<V>(core: &Core<V>, refs: &Vec<SegRef>) -> (r: bool)
    ensures
        r == forall|i: int| 0 <= i < refs@.len() ==> ref_ok(*core, #[trigger] refs@[i]),
{
    let mut i: usize = 0;
    while i < refs.len()
        invariant
            0 <= i <= refs@.len(),
            forall|j: int| 0 <= j < i ==> ref_ok(*core, #[trigger] refs@[j]),
        decreases refs@.len() - i,
    {
        let r = refs[i];
        if r.coll >= core.collections.len() {
            return false;
        }
        if r.doc >= core.collections[r.coll].1.docs.len() {
            return false;
        }
        if r.seg >= core.collections[r.coll].1.docs[r.doc].segments.len() {
            return false;
        }
        i = i + 1;
    }
    true
}

/// Select hits from candidates ranked best first by `order` (indices into
/// `cands`): the top `k` honoring `max_per_doc`. Each hit comes with the
/// index of its candidate.
pub fn select_hits<V>(
    core: &Core<V>,
    cands: &Vec<SegRef>,
    order: &Vec<usize>,
    k: usize,
    max_per_doc: Option<usize>,
    include_text: bool,
) -> (r: Vec<(Hit, usize)>)
    requires
        forall|i: int| 0 <= i < cands@.len() ==> ref_ok(*core, #[trigger] cands@[i]),
        forall|p: int| 0 <= p < order@.len() ==> #[trigger] order@[p] < cands@.len(),
    ensures
        ({
            let sel = selected(in_order(cands@, order@), k as int, max_per_doc);
            &&& r@.len() == sel.len()
            &&& forall|i: int|
                0 <= i < sel.len() ==> hit_for(*core, sel[i], include_text, (#[trigger] r@[i]).0)
                    && r@[i].1 < cands@.len() && cands@[r@[i].1 as int] == sel[i]
        }),
{
    let mut ranked: Vec<SegRef> = Vec::new();
    let mut p: usize = 0;
    while p < order.len()
        invariant
            forall|q: int| 0 <= q < order@.len() ==> #[trigger] order@[q] < cands@.len(),
            0 <= p <= order@.len(),
            ranked@ =~= in_order(cands@, order@).take(p as int),
        decreases order@.len() - p,
    {
        ranked.push(cands[order[p]]);
        p = p + 1;
    }
    assert(ranked@ =~= in_order(cands@, order@));
    let sel = select(&ranked, k, max_per_doc);
    proof {
        lemma_selected_within(ranked@, k as int, max_per_doc);
    }
    let mut out: Vec<(Hit, usize)> = Vec::new();
    let mut i: usize = 0;
    while i < sel.len()
        invariant
            forall|j: int| 0 <= j < cands@.len() ==> ref_ok(*core, #[trigger] cands@[j]),
            forall|q: int| 0 <= q < order@.len() ==> #[trigger] order@[q] < cands@.len(),
            ranked@ == in_order(cands@, order@),
            forall|j: int| 0 <= j < sel@.len() ==> ranked@.contains(#[trigger] sel@[j]),
            0 <= i <= sel@.len(),
            out@.len() == i,
            forall|j: int|
                0 <= j < i ==> hit_for(*core, sel@[j], include_text, (#[trigger] out@[j]).0)
                    && out@[j].1 < cands@.len() && cands@[out@[j].1 as int] == sel@[j],
        decreases sel@.len() - i,
    {
        let r = sel[i];
        assert(ranked@.contains(sel@[i as int]));
        let ghost q = choose|q: int| 0 <= q < ranked@.len() && ranked@[q] == sel@[i as int];
        let ci = find_ref(cands, r);
        proof {
            assert(cands@[order@[q] as int] == r);
        }
        let ci = ci.unwrap();
        let h = make_hit(core, r, include_text);
        out.push((h, ci));
        i = i + 1;
    }
    out
}

/// The index of position `r` among `refs`.
fn find_ref(refs: &Vec<SegRef>, r: SegRef) -> (i: Option<usize>)
    ensures
        match i {
            Some(x) => x < refs@.len() && refs@[x as int] == r,
            None => !refs@.contains(r),
        },
{
    let mut i: usize = 0;
    while i < refs.len()
        invariant
            0 <= i <= refs@.len(),
            forall|j: int| 0 <= j < i ==> refs@[j] != r,
        decreases refs@.len() - i,
    {
        if refs[i] == r {
            return Some(i);
        }
        i = i + 1;
    }
    None
}

// ---------------------------------------------------------------------------
// Hybrid: Reciprocal Rank Fusion
// ---------------------------------------------------------------------------

/// The RRF constant: a rank `r` (0-based) contributes `1 / (60 + r)`.
pub const RRF_K: u128 = 60;

/// A segment of the fused ranking with its rank in each channel.
#[derive(Clone, Copy)]
pub struct Fused {
    pub r: SegRef,
    pub dense_rank: Option<usize>,
    pub kw_rank: Option<usize>,
}

/// The first position among the first `m` of `order` that names `i`.
pub open spec fn first_pos(order: Seq<usize>, i: int, m: int) -> Option<usize>
    decreases m,
{
    if m <= 0 {
        None
    } else {
        match first_pos(order, i, m - 1) {
            Some(p) => Some(p),
            None => if order[m - 1] == i {
                Some((m - 1) as usize)
            } else {
                None
            },
        }
    }
}

/// The dense rank of `r`: the first position of the ranking that names it.
pub open spec fn dense_rank_of(dense: Seq<SegRef>, order: Seq<usize>, r: SegRef) -> Option<usize> {
    if dense.contains(r) {
        first_pos(order, dense.index_of(r), order.len() as int)
    } else {
        None
    }
}

/// The keyword rank of `r`: its position in the keyword ranking.
pub open spec fn kw_rank_of(ranked: Seq<SegRef>, r: SegRef) -> Option<usize> {
    if ranked.contains(r) {
        Some(ranked.index_of(r) as usize)
    } else {
        None
    }
}

/// The fused score `num / den` of ranks in the two channels.
pub open spec fn rrf_num(dr: Option<usize>, kr: Option<usize>) -> int {
    match (dr, kr) {
        (Some(a), Some(b)) => (RRF_K + a) + (RRF_K + b),
        (Some(_), None) => 1,
        (None, Some(_)) => 1,
        (None, None) => 0,
    }
}

/// See [`rrf_num`].
pub open spec fn rrf_den(dr: Option<usize>, kr: Option<usize>) -> int {
    match (dr, kr) {
        (Some(a), Some(b)) => (RRF_K + a) * (RRF_K + b),
        (Some(a), None) => RRF_K + a,
        (None, Some(b)) => RRF_K + b,
        (None, None) => 1,
    }
}

/// For each of `0..n`, the first position of `order` naming it.
fn first_positions(order: &Vec<usize>, n: usize) -> (t: Vec<Option<usize>>)
    ensures
        t@.len() == n,
        forall|i: int| 0 <= i < n ==> #[trigger] t@[i] == first_pos(order@, i, order@.len() as int),
{
    let mut t: Vec<Option<usize>> = Vec::new();
    let mut i: usize = 0;
    while i < n
        invariant
            0 <= i <= n,
            t@.len() == i,
            forall|j: int| 0 <= j < i ==> #[trigger] t@[j] == None::<usize>,
        decreases n - i,
    {
        t.push(None);
        i = i + 1;
    }
    let mut p: usize = 0;
    while p < order.len()
        invariant
            t@.len() == n,
            0 <= p <= order@.len(),
            forall|j: int| 0 <= j < n ==> #[trigger] t@[j] == first_pos(order@, j, p as int),
        decreases order@.len() - p,
    {
        let x = order[p];
        if x < n && t[x].is_none() {
            t.set(x, Some(p));
        }
        proof {
            assert forall|j: int| 0 <= j < n implies #[trigger] t@[j] == first_pos(order@, j, p + 1) by {
                assert(first_pos(order@, j, p + 1) == match first_pos(order@, j, p as int) {
                    Some(q) => Some(q),
                    None => if order@[p as int] == j {
                        Some(p)
                    } else {
                        None
                    },
                });
            }
        }
        p = p + 1;
    }
    t
}

/// In a sequence without repeats, the index of an element is where it is.
proof fn lemma_index_of_unique(s: Seq<SegRef>, i: int)
    requires
        increasing(s),
        0 <= i < s.len(),
    ensures
        s.index_of(s[i]) == i,
        s.contains(s[i]),
{
    assert(s.contains(s[i]));
    let j = s.index_of(s[i]);
    if j != i {
        if j < i {
            assert(ref_lt(s[j], s[i]));
        } else {
            assert(ref_lt(s[i], s[j]));
        }
    }
}

/// The rank a table gives position `r` of `refs` (none when absent).
pub open spec fn table_rank(refs: Seq<SegRef>, ranks: Seq<Option<usize>>, r: SegRef) -> Option<usize> {
    if refs.contains(r) {
        ranks[refs.index_of(r)]
    } else {
        None
    }
}

/// Whether `a` comes before `b` in scan order.
fn ref_less(a: SegRef, b: SegRef) -> (r: bool)
    ensures
        r == ref_lt(a, b),
{
    a.coll < b.coll || (a.coll == b.coll && a.doc < b.doc) || (a.coll == b.coll && a.doc == b.doc
        && a.seg < b.seg)
}

/// The index of `r` in a scan-ordered list, by binary search.
fn locate(refs: &Vec<SegRef>, r: SegRef) -> (i: Option<usize>)
    requires
        increasing(refs@),
    ensures
        match i {
            Some(x) => x < refs@.len() && refs@[x as int] == r && refs@.index_of(r) == x,
            None => !refs@.contains(r),
        },
{
    let mut lo: usize = 0;
    let mut hi: usize = refs.len();
    while lo < hi
        invariant
            increasing(refs@),
            0 <= lo <= hi <= refs@.len(),
            forall|a: int| 0 <= a < lo ==> ref_lt(#[trigger] refs@[a], r),
            forall|a: int| hi <= a < refs@.len() ==> ref_lt(r, #[trigger] refs@[a]),
        decreases hi - lo,
    {
        let mid = lo + (hi - lo) / 2;
        let m = refs[mid];
        if m == r {
            proof {
                lemma_index_of_unique(refs@, mid as int);
            }
            return Some(mid);
        } else if ref_less(m, r) {
            proof {
                assert forall|a: int| 0 <= a < mid + 1 implies ref_lt(#[trigger] refs@[a], r) by {
                    if a < mid {
                        assert(ref_lt(refs@[a], refs@[mid as int]));
                    }
                }
            }
            lo = mid + 1;
        } else {
            proof {
                assert(ref_lt(r, m));
                assert forall|a: int| mid <= a < refs@.len() implies ref_lt(r, #[trigger] refs@[a]) by {
                    if a > mid {
                        assert(ref_lt(refs@[mid as int], refs@[a]));
                    }
                }
            }
            hi = mid;
        }
    }
    proof {
        if refs@.contains(r) {
            let a = choose|a: int| 0 <= a < refs@.len() && refs@[a] == r;
            assert(!ref_lt(r, r));
        }
    }
    None
}

/// The fused entries of two scan-ordered candidate lists with their rank
/// tables: each position ranked in some channel, once.
fn join(
    dense: &Vec<SegRef>,
    dr: &Vec<Option<usize>>,
    kw: &Vec<SegRef>,
    kr: &Vec<Option<usize>>,
) -> (out: Vec<Fused>)
    requires
        increasing(dense@),
        increasing(kw@),
        dr@.len() == dense@.len(),
        kr@.len() == kw@.len(),
    ensures
        forall|p: int, q: int| 0 <= p < q < out@.len() ==> (#[trigger] out@[p]).r != (#[trigger] out@[q]).r,
        forall|p: int|
            0 <= p < out@.len() ==> (#[trigger] out@[p]).dense_rank == table_rank(dense@, dr@, out@[p].r)
                && out@[p].kw_rank == table_rank(kw@, kr@, out@[p].r) && (out@[p].dense_rank is Some
                || out@[p].kw_rank is Some),
        forall|r: SegRef|
            (table_rank(dense@, dr@, r) is Some || table_rank(kw@, kr@, r) is Some) ==> exists|p: int|
                0 <= p < out@.len() && (#[trigger] out@[p]).r == r,
{
    let mut out: Vec<Fused> = Vec::new();
    let mut i: usize = 0;
    while i < dense.len()
        invariant
            increasing(dense@),
            increasing(kw@),
            dr@.len() == dense@.len(),
            kr@.len() == kw@.len(),
            0 <= i <= dense@.len(),
            forall|p: int|
                0 <= p < out@.len() ==> exists|a: int|
                    0 <= a < i && (#[trigger] out@[p]).r == dense@[a] && dr@[a] is Some,
            forall|p: int, q: int| 0 <= p < q < out@.len() ==> ref_lt((#[trigger] out@[p]).r, (#[trigger] out@[q]).r),
            forall|p: int| 0 <= p < out@.len() && i < dense@.len() ==> ref_lt((#[trigger] out@[p]).r, dense@[i as int]),
            forall|p: int|
                0 <= p < out@.len() ==> (#[trigger] out@[p]).dense_rank == table_rank(dense@, dr@, out@[p].r)
                    && out@[p].kw_rank == table_rank(kw@, kr@, out@[p].r) && out@[p].dense_rank is Some,
            forall|a: int|
                0 <= a < i && dr@[a] is Some ==> exists|p: int|
                    0 <= p < out@.len() && (#[trigger] out@[p]).r == dense@[a],
        decreases dense@.len() - i,
    {
        let ghost prev = out@;
        if dr[i].is_some() {
            let r = dense[i];
            proof {
                lemma_index_of_unique(dense@, i as int);
            }
            let kwr = match locate(kw, r) {
                Some(j) => kr[j],
                None => None,
            };
            out.push(Fused { r, dense_rank: dr[i], kw_rank: kwr });
            proof {
                assert forall|a: int| 0 <= a < i + 1 && dr@[a] is Some implies exists|p: int|
                    0 <= p < out@.len() && (#[trigger] out@[p]).r == dense@[a] by {
                    if a < i {
                        let p = choose|p: int| 0 <= p < prev.len() && (#[trigger] prev[p]).r == dense@[a];
                        assert(out@[p] == prev[p]);
                    } else {
                        assert(out@[out@.len() - 1].r == dense@[a]);
                    }
                }
                assert forall|p: int| 0 <= p < out@.len() implies exists|a: int|
                    0 <= a < i + 1 && (#[trigger] out@[p]).r == dense@[a] && dr@[a] is Some by {
                    if p < prev.len() {
                        assert(out@[p] == prev[p]);
                        let a = choose|a: int| 0 <= a < i && (#[trigger] prev[p]).r == dense@[a] && dr@[a] is Some;
                    } else {
                        assert(out@[p].r == dense@[i as int]);
                    }
                }
            }
        }
        proof {
            assert forall|p: int| 0 <= p < out@.len() && i + 1 < dense@.len() implies ref_lt(
                (#[trigger] out@[p]).r,
                dense@[i + 1],
            ) by {
                assert(ref_lt(dense@[i as int], dense@[i + 1]));
                if p < prev.len() {
                    assert(out@[p] == prev[p]);
                    assert(ref_lt(prev[p].r, dense@[i as int]));
                }
            }
        }
        i = i + 1;
    }
    let ghost n1 = out@.len();
    let mut j: usize = 0;
    while j < kw.len()
        invariant
            increasing(dense@),
            increasing(kw@),
            dr@.len() == dense@.len(),
            kr@.len() == kw@.len(),
            n1 <= out@.len(),
            0 <= j <= kw@.len(),
            forall|p: int| 0 <= p < n1 ==> table_rank(dense@, dr@, (#[trigger] out@[p]).r) is Some,
            forall|p: int| n1 <= p < out@.len() ==> table_rank(dense@, dr@, (#[trigger] out@[p]).r) is None,
            forall|p: int, q: int|
                0 <= p < q < n1 ==> ref_lt((#[trigger] out@[p]).r, (#[trigger] out@[q]).r),
            forall|p: int, q: int|
                n1 <= p < q < out@.len() ==> ref_lt((#[trigger] out@[p]).r, (#[trigger] out@[q]).r),
            forall|p: int| n1 <= p < out@.len() && j < kw@.len() ==> ref_lt((#[trigger] out@[p]).r, kw@[j as int]),
            forall|p: int|
                0 <= p < out@.len() ==> (#[trigger] out@[p]).dense_rank == table_rank(dense@, dr@, out@[p].r)
                    && out@[p].kw_rank == table_rank(kw@, kr@, out@[p].r) && (out@[p].dense_rank
                    is Some || out@[p].kw_rank is Some),
            forall|a: int|
                0 <= a < dense@.len() && dr@[a] is Some ==> exists|p: int|
                    0 <= p < out@.len() && (#[trigger] out@[p]).r == dense@[a],
            forall|b: int|
                0 <= b < j && kr@[b] is Some ==> exists|p: int|
                    0 <= p < out@.len() && (#[trigger] out@[p]).r == kw@[b],
        decreases kw@.len() - j,
    {
        let ghost prev = out@;
        let r = kw[j];
        proof {
            lemma_index_of_unique(kw@, j as int);
        }
        let dense_has = match locate(dense, r) {
            Some(a) => dr[a].is_some(),
            None => false,
        };
        if kr[j].is_some() && !dense_has {
            out.push(Fused { r, dense_rank: None, kw_rank: kr[j] });
        }
        proof {
            assert forall|b: int| 0 <= b < j + 1 && kr@[b] is Some implies exists|p: int|
                0 <= p < out@.len() && (#[trigger] out@[p]).r == kw@[b] by {
                if b < j {
                    let p = choose|p: int| 0 <= p < prev.len() && (#[trigger] prev[p]).r == kw@[b];
                    assert(out@[p] == prev[p]);
                } else if dense_has {
                    let a = dense@.index_of(r);
                    assert(dense@[a] == r);
                    let p = choose|p: int| 0 <= p < prev.len() && (#[trigger] prev[p]).r == dense@[a];
                    assert(out@[p] == prev[p]);
                } else {
                    assert(out@[out@.len() - 1].r == kw@[b]);
                }
            }
            assert forall|a: int| 0 <= a < dense@.len() && dr@[a] is Some implies exists|p: int|
                0 <= p < out@.len() && (#[trigger] out@[p]).r == dense@[a] by {
                let p = choose|p: int| 0 <= p < prev.len() && (#[trigger] prev[p]).r == dense@[a];
                assert(out@[p] == prev[p]);
            }
            assert forall|p: int| n1 <= p < out@.len() && j + 1 < kw@.len() implies ref_lt(
                (#[trigger] out@[p]).r,
                kw@[j + 1],
            ) by {
                assert(ref_lt(kw@[j as int], kw@[j + 1]));
                if p < prev.len() {
                    assert(out@[p] == prev[p]);
                    assert(ref_lt(prev[p].r, kw@[j as int]));
                }
            }
        }
        j = j + 1;
    }
    proof {
        assert forall|p: int, q: int| 0 <= p < q < out@.len() implies (#[trigger] out@[p]).r
            != (#[trigger] out@[q]).r by {
            if p < n1 && q >= n1 {
                assert(table_rank(dense@, dr@, out@[p].r) is Some);
                assert(table_rank(dense@, dr@, out@[q].r) is None);
            } else if p < n1 {
                assert(ref_lt(out@[p].r, out@[q].r));
            } else {
                assert(ref_lt(out@[p].r, out@[q].r));
            }
        }
        assert forall|r: SegRef|
            (table_rank(dense@, dr@, r) is Some || table_rank(kw@, kr@, r) is Some) implies exists|p: int|
            0 <= p < out@.len() && (#[trigger] out@[p]).r == r by {
            if table_rank(dense@, dr@, r) is Some {
                let a = dense@.index_of(r);
                assert(dense@.contains(r));
                assert(dense@[a] == r);
            } else {
                let b = kw@.index_of(r);
                assert(kw@.contains(r));
                assert(kw@[b] == r);
            }
        }
    }
    out
}

/// In a list of each of `0..n` once, the first position naming `order[a]`
/// is `a`.
proof fn lemma_first_pos_unique(order: Seq<usize>, a: int, m: int)
    requires
        order.no_duplicates(),
        0 <= a < m <= order.len(),
    ensures
        first_pos(order, order[a] as int, m) == Some(a as usize),
    decreases m,
{
    if a < m - 1 {
        lemma_first_pos_unique(order, a, m - 1);
    } else {
        lemma_first_pos_none(order, order[a] as int, a, a);
    }
}

proof fn lemma_first_pos_none(order: Seq<usize>, i: int, m: int, a: int)
    requires
        order.no_duplicates(),
        0 <= m <= a < order.len(),
        order[a] == i,
    ensures
        first_pos(order, i, m) == None::<usize>,
    decreases m,
{
    if m > 0 {
        lemma_first_pos_none(order, i, m - 1, a);
        assert(order[m - 1] != order[a]);
    }
}

/// In a sequence without repeats, the index of an element is where it is.
proof fn lemma_index_of_nodup(s: Seq<SegRef>, a: int)
    requires
        s.no_duplicates(),
        0 <= a < s.len(),
    ensures
        s.index_of(s[a]) == a,
{
    assert(s.contains(s[a]));
    let j = s.index_of(s[a]);
    assert(s[j] == s[a]);
}

/// A fused entry with its exact fused score.
pub open spec fn wrap_fused(f: Fused) -> Entry<Fused> {
    Entry { item: f, num: rrf_num(f.dense_rank, f.kw_rank) as u128, den: rrf_den(f.dense_rank, f.kw_rank) as u128 }
}

/// The ranks of a fused entry are below 2^32.
pub open spec fn small_ranks(f: Fused) -> bool {
    &&& (f.dense_rank matches Some(a) ==> a <= u32::MAX)
    &&& (f.kw_rank matches Some(b) ==> b <= u32::MAX)
}

/// A fused entry with its exact score, for ranks below 2^32.
fn rrf_entry(f: Fused) -> (e: Entry<Fused>)
    requires
        small_ranks(f),
    ensures
        e == wrap_fused(f),
        e.num < 0x4_0000_0000,
        0 < e.den < 0x4_0000_0000_0000_0000,
{
    match (f.dense_rank, f.kw_rank) {
        (Some(a), Some(b)) => {
            let x: u128 = RRF_K + a as u128;
            let y: u128 = RRF_K + b as u128;
            assert(x * y < 0x4_0000_0000_0000_0000) by (nonlinear_arith)
                requires
                    x < 0x2_0000_0000,
                    y < 0x2_0000_0000,
                    x > 0,
                    y > 0,
            ;
            assert(x * y > 0) by (nonlinear_arith)
                requires
                    x > 0,
                    y > 0,
            ;
            Entry { item: f, num: x + y, den: x * y }
        },
        (Some(a), None) => Entry { item: f, num: 1, den: RRF_K + a as u128 },
        (None, Some(b)) => Entry { item: f, num: 1, den: RRF_K + b as u128 },
        (None, None) => Entry { item: f, num: 0, den: 1 },
    }
}

/// The fused ranking of dense candidates `dense` (ranked by `dorder`) and
/// the keyword ranking `kr`: every segment ranked in some channel, once,
/// with its ranks and exact fused score, best first.
pub open spec fn fused_ranking(out: Seq<Entry<Fused>>, dense: Seq<SegRef>, dorder: Seq<usize>, kr: Seq<SegRef>) -> bool {
    &&& forall|p: int, q: int| 0 <= p < q < out.len() ==> (#[trigger] out[p]).item.r != (#[trigger] out[q]).item.r
    &&& forall|p: int|
        0 <= p < out.len() ==> #[trigger] out[p] == wrap_fused(out[p].item)
            && out[p].item.dense_rank == dense_rank_of(dense, dorder, out[p].item.r)
            && out[p].item.kw_rank == kw_rank_of(kr, out[p].item.r) && (out[p].item.dense_rank is Some
            || out[p].item.kw_rank is Some)
    &&& forall|r: SegRef|
        (dense_rank_of(dense, dorder, r) is Some || kr.contains(r)) ==> #[trigger] ranked_in(out, r)
    &&& sorted_desc(out)
}

/// Some entry of `out` is for position `r`.
pub open spec fn ranked_in(out: Seq<Entry<Fused>>, r: SegRef) -> bool {
    exists|p: int| 0 <= p < out.len() && (#[trigger] out[p]).item.r == r
}

/// The fused entries with their scores, best first.
fn rank_fused(joined: &Vec<Fused>) -> (out: Vec<Entry<Fused>>)
    requires
        forall|q: int| 0 <= q < joined@.len() ==> small_ranks(#[trigger] joined@[q]),
    ensures
        out@.to_multiset() == joined@.map_values(|f: Fused| wrap_fused(f)).to_multiset(),
        sorted_desc(out@),
{
    let ghost ws = joined@.map_values(|f: Fused| wrap_fused(f));
    let mut entries: Vec<Entry<Fused>> = Vec::new();
    let mut p: usize = 0;
    while p < joined.len()
        invariant
            ws == joined@.map_values(|f: Fused| wrap_fused(f)),
            forall|q: int| 0 <= q < joined@.len() ==> small_ranks(#[trigger] joined@[q]),
            0 <= p <= joined@.len(),
            entries@ =~= ws.take(p as int),
            forall|q: int|
                0 <= q < p ==> (#[trigger] entries@[q]).num < 0x4_0000_0000 && 0 < entries@[q].den
                    < 0x4_0000_0000_0000_0000,
        decreases joined@.len() - p,
    {
        let e = rrf_entry(joined[p]);
        entries.push(e);
        p = p + 1;
    }
    assert(entries@ =~= ws);
    let ghost es = entries@;
    proof {
        assert forall|a: int, b: int| 0 <= a < es.len() && 0 <= b < es.len() implies crate::rank::cross_ok(
            #[trigger] es[a],
            #[trigger] es[b],
        ) by {
            let x = es[a].num;
            let y = es[b].den;
            assert(x * y < 0x1_0000_0000_0000_0000_0000_0000_0000_0000) by (nonlinear_arith)
                requires
                    x < 0x4_0000_0000,
                    y < 0x4_0000_0000_0000_0000,
            ;
        }
    }
    sort_desc(entries)
}

proof fn lemma_ranked_member(out: Seq<Entry<Fused>>, js: Seq<Fused>, a: int)
    requires
        out.to_multiset() == js.map_values(|f: Fused| wrap_fused(f)).to_multiset(),
        0 <= a < out.len(),
    ensures
        exists|u: int| 0 <= u < js.len() && out[a] == wrap_fused(js[u]),
{
    let ws = js.map_values(|f: Fused| wrap_fused(f));
    assert(out.contains(out[a]));
    assert(out.to_multiset().count(out[a]) > 0);
    assert(ws.contains(out[a]));
    let u = choose|u: int| 0 <= u < ws.len() && ws[u] == out[a];
    assert(ws[u] == wrap_fused(js[u]));
}

proof fn lemma_joined_member(out: Seq<Entry<Fused>>, js: Seq<Fused>, u: int)
    requires
        out.to_multiset() == js.map_values(|f: Fused| wrap_fused(f)).to_multiset(),
        0 <= u < js.len(),
    ensures
        exists|a: int| 0 <= a < out.len() && out[a] == wrap_fused(js[u]),
{
    let ws = js.map_values(|f: Fused| wrap_fused(f));
    assert(ws[u] == wrap_fused(js[u]));
    assert(ws.contains(ws[u]));
    assert(ws.to_multiset().count(ws[u]) > 0);
    assert(out.contains(ws[u]));
}

proof fn lemma_ranked_distinct(out: Seq<Entry<Fused>>, js: Seq<Fused>)
    requires
        out.to_multiset() == js.map_values(|f: Fused| wrap_fused(f)).to_multiset(),
        forall|p: int, q: int| 0 <= p < q < js.len() ==> (#[trigger] js[p]).r != (#[trigger] js[q]).r,
    ensures
        forall|p: int, q: int| 0 <= p < q < out.len() ==> (#[trigger] out[p]).item.r != (#[trigger] out[q]).item.r,
{
    let ws = js.map_values(|f: Fused| wrap_fused(f));
    assert forall|a: int, b: int| 0 <= a < ws.len() && 0 <= b < ws.len() && a != b implies ws[a] != ws[b] by {
        if a < b {
            assert(js[a].r != js[b].r);
        } else {
            assert(js[b].r != js[a].r);
        }
    }
    assert(ws.no_duplicates());
    ws.lemma_multiset_has_no_duplicates();
    assert forall|x: Entry<Fused>| out.to_multiset().contains(x) implies out.to_multiset().count(x) == 1 by {
        assert(ws.to_multiset().contains(x));
    }
    out.lemma_multiset_has_no_duplicates_conv();
    assert forall|p: int, q: int| 0 <= p < q < out.len() implies (#[trigger] out[p]).item.r
        != (#[trigger] out[q]).item.r by {
        lemma_ranked_member(out, js, p);
        lemma_ranked_member(out, js, q);
        let u = choose|u: int| 0 <= u < js.len() && out[p] == wrap_fused(js[u]);
        let v = choose|v: int| 0 <= v < js.len() && out[q] == wrap_fused(js[v]);
        assert(out[p] != out[q]);
        if u < v {
            assert(js[u].r != js[v].r);
        } else if v < u {
            assert(js[v].r != js[u].r);
        }
    }
}

/// The rank tables agree with the rank specs.
proof fn lemma_tables(
    dense: Seq<SegRef>,
    dorder: Seq<usize>,
    dtab: Seq<Option<usize>>,
    krefs: Seq<SegRef>,
    korder: Seq<usize>,
    ktab: Seq<Option<usize>>,
    kr: Seq<SegRef>,
)
    requires
        dtab.len() == dense.len(),
        forall|x: int| 0 <= x < dtab.len() ==> #[trigger] dtab[x] == first_pos(dorder, x, dorder.len() as int),
        ktab.len() == krefs.len(),
        forall|x: int| 0 <= x < ktab.len() ==> #[trigger] ktab[x] == first_pos(korder, x, korder.len() as int),
        is_order(korder, krefs.len() as int),
        kr == in_order(krefs, korder),
        kr.no_duplicates(),
    ensures
        forall|r: SegRef| #[trigger] dense_rank_of(dense, dorder, r) == table_rank(dense, dtab, r),
        forall|r: SegRef| #[trigger] kw_rank_of(kr, r) == table_rank(krefs, ktab, r),
{
    assert forall|r: SegRef| #[trigger] dense_rank_of(dense, dorder, r) == table_rank(dense, dtab, r) by {
        if dense.contains(r) {
            let a = dense.index_of(r);
        }
    }
    assert forall|r: SegRef| #[trigger] kw_rank_of(kr, r) == table_rank(krefs, ktab, r) by {
        if krefs.contains(r) {
            let j = krefs.index_of(r);
            lemma_order_covers(korder, krefs.len() as int, j);
            let a = choose|a: int| 0 <= a < korder.len() && korder[a] == j;
            lemma_first_pos_unique(korder, a, korder.len() as int);
            assert(kr[a] == r);
            lemma_index_of_nodup(kr, a);
            assert(kr.contains(r));
        } else {
            if kr.contains(r) {
                let a = kr.index_of(r);
                assert(kr[a] == krefs[korder[a] as int]);
                assert(krefs.contains(r));
            }
        }
    }
}

/// A hybrid search's ranking: the dense candidates `dense` ranked by
/// `dorder` (best first; a candidate's rank is the first position naming
/// it) fused by Reciprocal Rank Fusion with the keyword ranking of the
/// request, best fused score first. Ranks are exact only below 2^32: with
/// a longer ranking in either channel the result is empty.
pub fn hybrid_rank<V>(core: &Core<V>, req: &SearchRequest, dense: &Vec<SegRef>, dorder: &Vec<usize>) -> (out: Vec<Entry<Fused>>)
    requires
        core_wf(*core),
        increasing(dense@),
        forall|p: int| 0 <= p < dorder@.len() ==> #[trigger] dorder@[p] < dense@.len(),
    ensures
        exists|kr: Seq<SegRef>|
            {
                &&& #[trigger] keyword_ranking(*core, *req, None, kr)
                &&& (dorder@.len() <= u32::MAX && kr.len() <= u32::MAX) ==> fused_ranking(
                    out@,
                    dense@,
                    dorder@,
                    kr,
                )
                &&& !(dorder@.len() <= u32::MAX && kr.len() <= u32::MAX) ==> out@.len() == 0
            },
{
    let (kc, korder, kranked) = keyword_ranked(core, req, None);
    let ghost kr = kranked@;
    let mut krefs: Vec<SegRef> = Vec::new();
    let mut i: usize = 0;
    while i < kc.len()
        invariant
            0 <= i <= kc@.len(),
            krefs@ =~= cand_refs(kc@).take(i as int),
        decreases kc@.len() - i,
    {
        krefs.push(kc[i].0);
        i = i + 1;
    }
    assert(krefs@ =~= cand_refs(kc@));
    if dorder.len() > 0xffff_ffff || kc.len() > 0xffff_ffff {
        assert(keyword_ranking(*core, *req, None, kr));
        return Vec::new();
    }
    let dtab = first_positions(dorder, dense.len());
    let ktab = first_positions(&korder, kc.len());
    proof {
        lemma_tables(dense@, dorder@, dtab@, krefs@, korder@, ktab@, kr);
    }
    let joined = join(dense, &dtab, &krefs, &ktab);
    proof {
        assert forall|q: int| 0 <= q < joined@.len() implies small_ranks(#[trigger] joined@[q]) by {
            let r = joined@[q].r;
            lemma_first_pos_bound(dorder@, table_rank_index(dense@, r), dorder@.len() as int);
            lemma_first_pos_bound(korder@, table_rank_index(krefs@, r), korder@.len() as int);
        }
    }
    let out = rank_fused(&joined);
    proof {
        lemma_fused_result(out@, joined@, dense@, dorder@, dtab@, krefs@, ktab@, kr);
        assert(keyword_ranking(*core, *req, None, kr));
    }
    out
}

#[verifier::spinoff_prover]
proof fn lemma_fused_result(
    os: Seq<Entry<Fused>>,
    js: Seq<Fused>,
    dense: Seq<SegRef>,
    dorder: Seq<usize>,
    dtab: Seq<Option<usize>>,
    krefs: Seq<SegRef>,
    ktab: Seq<Option<usize>>,
    kr: Seq<SegRef>,
)
    requires
        os.to_multiset() == js.map_values(|f: Fused| wrap_fused(f)).to_multiset(),
        sorted_desc(os),
        forall|p: int, q: int| 0 <= p < q < js.len() ==> (#[trigger] js[p]).r != (#[trigger] js[q]).r,
        forall|p: int|
            0 <= p < js.len() ==> (#[trigger] js[p]).dense_rank == table_rank(dense, dtab, js[p].r)
                && js[p].kw_rank == table_rank(krefs, ktab, js[p].r) && (js[p].dense_rank is Some
                || js[p].kw_rank is Some),
        forall|r: SegRef|
            (table_rank(dense, dtab, r) is Some || table_rank(krefs, ktab, r) is Some) ==> exists|p: int|
                0 <= p < js.len() && (#[trigger] js[p]).r == r,
        forall|r: SegRef| #[trigger] dense_rank_of(dense, dorder, r) == table_rank(dense, dtab, r),
        forall|r: SegRef| #[trigger] kw_rank_of(kr, r) == table_rank(krefs, ktab, r),
    ensures
        fused_ranking(os, dense, dorder, kr),
{
    lemma_ranked_distinct(os, js);
    assert forall|p: int|
        0 <= p < os.len() implies #[trigger] os[p] == wrap_fused(os[p].item)
        && os[p].item.dense_rank == dense_rank_of(dense, dorder, os[p].item.r)
        && os[p].item.kw_rank == kw_rank_of(kr, os[p].item.r) && (os[p].item.dense_rank is Some
        || os[p].item.kw_rank is Some) by {
        lemma_ranked_member(os, js, p);
        let u = choose|u: int| 0 <= u < js.len() && os[p] == wrap_fused(js[u]);
        assert(js[u].dense_rank == table_rank(dense, dtab, js[u].r));
        assert(dense_rank_of(dense, dorder, js[u].r) == table_rank(dense, dtab, js[u].r));
        assert(kw_rank_of(kr, js[u].r) == table_rank(krefs, ktab, js[u].r));
    }
    assert forall|r: SegRef|
        (dense_rank_of(dense, dorder, r) is Some || kr.contains(r)) implies #[trigger] ranked_in(os, r) by {
        assert(kw_rank_of(kr, r) == table_rank(krefs, ktab, r));
        assert(dense_rank_of(dense, dorder, r) == table_rank(dense, dtab, r));
        let u = choose|u: int| 0 <= u < js.len() && (#[trigger] js[u]).r == r;
        lemma_joined_member(os, js, u);
        let a = choose|a: int| 0 <= a < os.len() && os[a] == wrap_fused(js[u]);
        assert(os[a].item.r == r);
    }
}

/// The index of `r` among `refs` when present (else 0).
pub open spec fn table_rank_index(refs: Seq<SegRef>, r: SegRef) -> int {
    if refs.contains(r) {
        refs.index_of(r)
    } else {
        0
    }
}

proof fn lemma_first_pos_bound(order: Seq<usize>, i: int, m: int)
    requires
        0 <= m <= order.len(),
    ensures
        first_pos(order, i, m) matches Some(p) ==> p < m,
    decreases m,
{
    if m > 0 {
        lemma_first_pos_bound(order, i, m - 1);
    }
}

} // verus!
