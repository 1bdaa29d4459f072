//! Properties of the store that span several operations: what a read gives
//! back after a write, what a delete leaves behind, what configuring and
//! embedding keep.

use vstd::prelude::*;

use crate::filter::{admits, constraint_holds, effective, filter_empty, meta_map, FilterV};
use crate::grep::{
    all_hits, coll_hits_upto, doc_part, grep_answer, line_matches, seg_hits, seg_hits_upto, seg_lines,
    store_hits_upto, total_cap, GrepError, GrepRequest, GrepResult, HitV,
};
use crate::json::{json_same, JsonV};
use crate::keyword::{kw_distinct, KeywordScore, TokenCounts};
use crate::keyed::{keyed, lemma_keyed_empty};
use crate::store::{
    Segment,
    applied, coll_deletion, colls, configured_to, doc_deletion, docs_of, holds_doc,
    index_accepted, initial, prior, prior_docs, range_end, range_start, raw_accepted,
    segment_lookup, Collection, ConfigureResult, Config, Core, DeleteCollectionResult,
    DeleteDocResult, EmbedJob, GetSegmentError, GetSegmentRequest, GetSegmentResult,
    IndexRequest, RawAcceptResult, RawIndexRequest, AcceptResult, VectorStatus, coll_entries,
    counted, gets_vector, seg_ids, tally, Document, core_wf, holds, sid, ids_below, from_input,
    accepted, blank_chunks, chunk_embed, first_chunk_id, from_chunk, job_for, raw_boundary,
    raw_built, raw_doc_id,
};
use crate::chunk::{
    boundary_at, chunk_spans, chunking, lemma_start_at_least, lines_text, resolved, step, BoundaryV, Chunk,
    ChunkConfig,
};
use crate::search::{
    capped_walk, kw_rank, lemma_selected_within, mode_of, same_doc_count, selected, SearchMode, SegRef,
};
use crate::embed::text_counts;
use crate::text::{
    bounds_wf, embed_terms, keyword_terms, lemma_line_bounds_wf, line_bounds, lowercase, normalize_nl,
    lower_ascii, token_estimate, trimmed, word_count,
};

verus! {

/// No two collections of `core` hold a document with id `id`.
pub open spec fn held_once<V>(core: Core<V>, id: Seq<char>) -> bool {
    forall|a: Seq<char>, b: Seq<char>|
        #![trigger colls(core)[a], colls(core)[b]]
        colls(core).contains_key(a) && colls(core).contains_key(b) && docs_of(
            colls(core)[a],
        ).contains_key(id) && docs_of(colls(core)[b]).contains_key(id) ==> a == b
}

/// A document ingested whole can be sliced the moment it is accepted:
/// `get_segment` on the id `index_raw` reported answers with the lines of the
/// normalized text, over the requested range clamped to the document (when
/// no other collection holds a document with the same id).
pub proof fn law_raw_document_sliceable<V>(
    before: Core<V>,
    after: Core<V>,
    req: RawIndexRequest,
    res: (RawAcceptResult, EmbedJob),
    get: GetSegmentRequest,
    answer: Result<GetSegmentResult, GetSegmentError>,
)
    requires
        raw_accepted(before, after, req, res),
        held_once(after, res.0.doc_id@),
        get.doc_id@ == res.0.doc_id@,
        segment_lookup(after, get, answer),
    ensures
        ({
            let text = normalize_nl(req.text@);
            let lc = line_bounds(text).len() as int;
            answer matches Ok(g) && {
                &&& g.line_count == lc
                &&& g.line_start == range_start(get, lc)
                &&& g.line_end == range_end(get, lc)
                &&& g.text@ == lines_text(text, range_start(get, lc) - 1, range_end(get, lc) - 1)
            }
        }),
{
    let did = res.0.doc_id@;
    let cname = req.collection@;
    let c = colls(after)[cname];
    assert(colls(after).contains_key(cname));
    assert(docs_of(c).contains_key(did));
    assert(holds_doc(after, did));
    let name = choose|name: Seq<char>|
        #[trigger] colls(after).contains_key(name) && docs_of(colls(after)[name]).contains_key(did)
            && crate::store::segment_answer(docs_of(colls(after)[name])[did], get, answer);
    assert(name == cname);
}

/// The text of all the lines of `s` is `s`.
proof fn lemma_all_lines(s: Seq<char>)
    ensures
        lines_text(s, 0, line_bounds(s).len() - 1) == s,
{
    lemma_line_bounds_wf(s);
    reveal(bounds_wf);
    assert(s.subrange(0, s.len() as int) =~= s);
}

/// Segment `k` of the document an `index_raw` accept stored holds the text
/// of its line range of the normalized text.
proof fn lemma_stored_chunk<V>(
    before: Core<V>,
    after: Core<V>,
    req: RawIndexRequest,
    res: (RawAcceptResult, EmbedJob),
    k: int,
)
    requires
        raw_accepted(before, after, req, res),
        0 <= k < docs_of(colls(after)[req.collection@])[res.0.doc_id@].segments@.len(),
    ensures
        ({
            let text = normalize_nl(req.text@);
            let s = docs_of(colls(after)[req.collection@])[res.0.doc_id@].segments@[k];
            &&& s.line_start matches Some(a)
            &&& s.line_end matches Some(e)
            &&& 1 <= s.line_start->0 <= s.line_end->0 <= line_bounds(text).len()
            &&& s.text@ == lines_text(text, s.line_start->0 - 1, s.line_end->0 - 1)
        }),
{
    let text = normalize_nl(req.text@);
    let cfg = resolved(req.target_tokens, req.max_tokens, req.overlap_lines, before.config.max_seq_len);
    let did = raw_doc_id(req, before.next_segment_id);
    let first = first_chunk_id(req, before.next_segment_id);
    let d = docs_of(colls(after)[req.collection@])[did];
    let cs = choose|cs: Seq<Chunk>|
        {
            &&& chunking(text, cfg, raw_boundary(req), cs)
            &&& raw_built(d, req, did, first, cs)
            &&& accepted(
                prior(before, req.collection@),
                colls(after)[req.collection@],
                d,
                blank_chunks(cs, cfg) as u64,
                req.description,
            )
            &&& job_for(
                res.1,
                req.collection@,
                did,
                first as u64,
                cs.map_values(|ch: Chunk| chunk_embed(ch, cfg)),
            )
            &&& after.next_segment_id == first + cs.len()
            &&& res.0.segment_count == cs.len()
        };
    assert(from_chunk(d.segments@[k], cs[k], first + k));
    assert(chunk_spans(text, cfg, raw_boundary(req), cs[k], cs[k].line_start - 1));
    lemma_start_at_least(text, cfg, raw_boundary(req), cs, k);
}

/// What `index_raw` stored reads back: `get_segment` over a range from
/// line 1 (or 0) to at least the last line answers the whole normalized
/// text, with the document's line count; over the line range of one of the
/// stored chunks it answers exactly that chunk's text, an oversized line
/// whole (when no other collection holds a document with the same id and
/// no `max_lines` cut is asked for).
pub proof fn law_raw_document_reads_back<V>(
    before: Core<V>,
    after: Core<V>,
    req: RawIndexRequest,
    res: (RawAcceptResult, EmbedJob),
    get: GetSegmentRequest,
    answer: Result<GetSegmentResult, GetSegmentError>,
)
    requires
        raw_accepted(before, after, req, res),
        held_once(after, res.0.doc_id@),
        get.doc_id@ == res.0.doc_id@,
        get.max_lines is None,
        segment_lookup(after, get, answer),
    ensures
        ({
            let text = normalize_nl(req.text@);
            let lc = line_bounds(text).len() as int;
            let d = docs_of(colls(after)[req.collection@])[res.0.doc_id@];
            &&& get.line_start <= 1 && get.line_end >= lc ==> (answer matches Ok(g) && g.text@ == text
                && g.line_start == 1 && g.line_end == lc && g.line_count == lc)
            &&& forall|k: int|
                0 <= k < d.segments@.len() && (#[trigger] d.segments@[k]).line_start == Some(get.line_start)
                    && d.segments@[k].line_end == Some(get.line_end) ==> (answer matches Ok(g) && g.text@
                    == d.segments@[k].text@)
        }),
{
    let text = normalize_nl(req.text@);
    let d = docs_of(colls(after)[req.collection@])[res.0.doc_id@];
    law_raw_document_sliceable(before, after, req, res, get, answer);
    lemma_all_lines(text);
    assert forall|k: int|
        0 <= k < d.segments@.len() && (#[trigger] d.segments@[k]).line_start == Some(get.line_start)
            && d.segments@[k].line_end == Some(get.line_end) implies (answer matches Ok(g) && g.text@
        == d.segments@[k].text@) by {
        lemma_stored_chunk(before, after, req, res, k);
    }
}

/// Once a document is deleted, `get_segment` no longer finds it and a second
/// delete reports `deleted: false` (when no other collection held a document
/// with the same id).
pub proof fn law_deleted_document_gone<V>(
    before: Core<V>,
    after: Core<V>,
    id: Seq<char>,
    r: DeleteDocResult,
    get: GetSegmentRequest,
    answer: Result<GetSegmentResult, GetSegmentError>,
    again: Core<V>,
    r2: DeleteDocResult,
)
    requires
        doc_deletion(before, after, id, r),
        held_once(before, id),
        get.doc_id@ == id,
        segment_lookup(after, get, answer),
        doc_deletion(after, again, id, r2),
    ensures
        !holds_doc(after, id),
        answer == Err::<GetSegmentResult, GetSegmentError>(GetSegmentError::NotFound),
        !r2.deleted,
        again.collections == after.collections,
{
    if holds_doc(after, id) {
        let n = choose|n: Seq<char>|
            #[trigger] colls(after).contains_key(n) && docs_of(colls(after)[n]).contains_key(id);
        if r.deleted {
            let name = r.collection->0@;
            let c = colls(before)[name];
            if c.docs@.len() == 1 {
                assert(colls(after) == colls(before).remove(name));
                assert(colls(before).contains_key(n));
                assert(colls(before)[n] == colls(after)[n]);
            } else {
                if n == name {
                    assert(docs_of(colls(after)[name]) == docs_of(c).remove(id));
                } else {
                    assert(colls(before)[n] == colls(after)[n]);
                }
            }
        } else {
            assert(colls(after) == colls(before));
            assert(colls(before)[n] == colls(after)[n]);
            assert(colls(before).contains_key(n));
        }
    }
}

/// Once a collection is deleted it is gone, the others are untouched, and a
/// second delete reports `deleted: false`.
pub proof fn law_deleted_collection_gone<V>(
    before: Core<V>,
    after: Core<V>,
    name: Seq<char>,
    r: DeleteCollectionResult,
    again: Core<V>,
    r2: DeleteCollectionResult,
)
    requires
        coll_deletion(before, after, name, r),
        coll_deletion(after, again, name, r2),
    ensures
        !colls(after).contains_key(name),
        colls(after) == colls(before).remove(name),
        !r2.deleted,
        colls(again) == colls(after),
{
    if !r.deleted {
        assert(colls(after) =~= colls(before).remove(name));
    }
}

/// A store just reset holds nothing: no collection, no document.
pub proof fn law_reset_is_empty<V>(core: Core<V>, id: Seq<char>)
    requires
        initial(core),
    ensures
        colls(core) == Map::<Seq<char>, Collection<V>>::empty(),
        !holds_doc(core, id),
{
    lemma_keyed_empty(coll_entries(core.collections@));
}

/// A filter with no constraint admits every segment.
pub proof fn law_empty_filter_admits_all(f: FilterV, meta: Map<Seq<char>, JsonV>)
    requires
        filter_empty(f),
    ensures
        admits(f, meta),
{
}

/// The effective metadata of a segment is its document's overlaid by its
/// own: on a key both set, the segment's value wins.
pub proof fn law_segment_meta_wins(doc: JsonV, seg: JsonV, key: Seq<char>)
    ensures
        meta_map(seg).contains_key(key) ==> effective(doc, seg).contains_key(key) && effective(
            doc,
            seg,
        )[key] == meta_map(seg)[key],
        !meta_map(seg).contains_key(key) && meta_map(doc).contains_key(key) ==> effective(
            doc,
            seg,
        ).contains_key(key) && effective(doc, seg)[key] == meta_map(doc)[key],
        !meta_map(seg).contains_key(key) && !meta_map(doc).contains_key(key) ==> !effective(
            doc,
            seg,
        ).contains_key(key),
{
}

/// A segment matches a keyword query (has a non-zero score) exactly when it
/// holds at least one of the query terms.
pub proof fn law_keyword_match(m: TokenCounts, q: Seq<Seq<char>>)
    ensures
        kw_distinct(m, q) > 0 <==> exists|i: int| 0 <= i < q.len() && #[trigger] m.count(q[i]) > 0,
    decreases q.len(),
{
    if q.len() > 0 {
        law_keyword_match(m, q.drop_last());
        if exists|i: int| 0 <= i < q.drop_last().len() && #[trigger] m.count(q.drop_last()[i]) > 0 {
            let i = choose|i: int|
                0 <= i < q.drop_last().len() && #[trigger] m.count(q.drop_last()[i]) > 0;
            assert(m.count(q[i]) > 0);
        }
        if exists|i: int| 0 <= i < q.len() && #[trigger] m.count(q[i]) > 0 {
            let i = choose|i: int| 0 <= i < q.len() && #[trigger] m.count(q[i]) > 0;
            if i < q.len() - 1 {
                assert(m.count(q.drop_last()[i]) > 0);
            }
        }
    }
}

/// Keyword ranking puts coverage before repetition: a segment holding more
/// distinct query terms ranks above one holding fewer, however often the
/// latter repeats its terms; between equal coverage, more occurrences rank
/// higher.
pub proof fn law_coverage_before_repetition(a: KeywordScore, b: KeywordScore)
    ensures
        a.distinct_present > b.distinct_present ==> kw_rank(a) > kw_rank(b),
        a.distinct_present == b.distinct_present ==> (kw_rank(a) > kw_rank(b)
            <==> a.total_occurrences > b.total_occurrences),
{
    let (ad, bd) = (a.distinct_present as int, b.distinct_present as int);
    if ad > bd {
        assert(ad * 0x1_0000_0000_0000_0000 >= bd * 0x1_0000_0000_0000_0000
            + 0x1_0000_0000_0000_0000) by (nonlinear_arith)
            requires
                ad >= bd + 1,
        ;
    }
}

proof fn lemma_word_count_grows(s: Seq<char>, u: Seq<char>)
    ensures
        word_count(s) <= word_count(s + u),
    decreases u.len(),
{
    if u.len() == 0 {
        assert(s + u =~= s);
    } else {
        lemma_word_count_grows(s, u.drop_last());
        assert((s + u).drop_last() =~= s + u.drop_last());
    }
}

/// Appending text never lowers the token estimate: neither the number of
/// whitespace-separated words nor the character count can shrink.
pub proof fn law_estimate_grows_with_text(s: Seq<char>, u: Seq<char>)
    ensures
        token_estimate(s) <= token_estimate(s + u),
{
    lemma_word_count_grows(s, u);
    assert(s.len() / 4 <= (s + u).len() / 4);
}

/// Configuring again with an embedder of the same dimension keeps the
/// index; a different dimension while documents are indexed empties it.
pub proof fn law_configure_keeps_same_dim<V>(
    before: Core<V>,
    after: Core<V>,
    config: Config,
    dim: usize,
    r: ConfigureResult,
)
    requires
        configured_to(before, after, config, dim, r),
    ensures
        before.embedder_dim == Some(dim) ==> !r.reset_due_to_dim_change && colls(after) == colls(
            before,
        ),
        (before.embedder_dim matches Some(d) && d != dim && before.collections@.len() > 0)
            ==> colls(after) == Map::<Seq<char>, Collection<V>>::empty(),
{
    if r.reset_due_to_dim_change {
        lemma_keyed_empty(coll_entries(after.collections@));
    }
}

/// Applying the last pending job of a collection makes its vectors ready.
pub proof fn law_last_job_makes_ready<V>(
    p: Collection<V>,
    c: Collection<V>,
    job: EmbedJob,
    vectors: Option<Seq<Option<V>>>,
)
    requires
        applied(p, c, job, vectors),
        p.pending_jobs <= 1,
    ensures
        c.pending_jobs == 0,
        c.vector_status == VectorStatus::Ready,
{
}

/// A job for a document that is no longer there (deleted or replaced by a
/// later upsert) changes no document and counts nothing.
pub proof fn law_stale_job_is_ignored<V>(
    p: Collection<V>,
    c: Collection<V>,
    job: EmbedJob,
    vectors: Option<Seq<Option<V>>>,
)
    requires
        applied(p, c, job, vectors),
        !docs_of(p).contains_key(job.doc()),
    ensures
        docs_of(c) == docs_of(p),
        c.embedded == p.embedded,
        c.failed == p.failed,
{
}

/// Indexing a document under an id its collection already holds replaces
/// it: the set of document ids stays the same and the id maps to the new
/// document; under a new id, exactly that id is added.
pub proof fn law_upsert_replaces<V>(
    before: Core<V>,
    after: Core<V>,
    req: IndexRequest,
    res: (AcceptResult, EmbedJob),
)
    requires
        index_accepted(before, after, req, res),
    ensures
        docs_of(colls(after)[req.collection@]).dom() == prior_docs(
            prior(before, req.collection@),
        ).dom().insert(req.doc_id@),
        docs_of(colls(after)[req.collection@])[req.doc_id@].doc_id == req.doc_id,
        colls(after)[req.collection@].text_ready,
        colls(after)[req.collection@].vector_status == VectorStatus::Building,
{
    let c = colls(after)[req.collection@];
    let d = docs_of(c)[req.doc_id@];
    assert(d.doc_id@ == req.doc_id@);
    assert(docs_of(c).dom() =~= prior_docs(prior(before, req.collection@)).dom().insert(
        req.doc_id@,
    ));
}

/// Re-ingesting a document gives all of its segments fresh ids: each lies
/// between the store's next id before the call and after it, so none is an
/// id any segment of the store held before, and no id of the replaced
/// version is left in the document.
pub proof fn law_reingest_fresh_ids<V>(
    before: Core<V>,
    after: Core<V>,
    req: IndexRequest,
    res: (AcceptResult, EmbedJob),
)
    requires
        core_wf(before),
        index_accepted(before, after, req, res),
    ensures
        ({
            let d = docs_of(colls(after)[req.collection@])[req.doc_id@];
            &&& forall|k: int|
                0 <= k < d.segments@.len() ==> before.next_segment_id <= #[trigger] d.segments@[k].segment_id
                    < after.next_segment_id
            &&& forall|x: int, i: int, j: int, k: int|
                0 <= x < before.collections@.len() && holds(before.collections@[x].1, i, j) && 0 <= k
                    < d.segments@.len() ==> #[trigger] sid(before.collections@[x].1, i, j)
                    != #[trigger] d.segments@[k].segment_id
        }),
{
    let d = docs_of(colls(after)[req.collection@])[req.doc_id@];
    assert forall|k: int| 0 <= k < d.segments@.len() implies before.next_segment_id
        <= #[trigger] d.segments@[k].segment_id < after.next_segment_id by {
        assert(from_input(d.segments@[k], req.segments@[k], (before.next_segment_id + k) as u64));
    }
    assert forall|x: int, i: int, j: int, k: int|
        0 <= x < before.collections@.len() && holds(before.collections@[x].1, i, j) && 0 <= k
            < d.segments@.len() implies #[trigger] sid(before.collections@[x].1, i, j)
        != #[trigger] d.segments@[k].segment_id by {
        assert(ids_below(before.collections@[x].1, before.next_segment_id as int));
        assert(from_input(d.segments@[k], req.segments@[k], (before.next_segment_id + k) as u64));
    }
}

/// Grep never returns more than `max_matches` hits (at least one), reports
/// as `total_found` the number it returned, and is `truncated` exactly when
/// the scan reached the cap.
pub proof fn law_grep_bounded<V>(core: Core<V>, req: GrepRequest, g: GrepResult)
    requires
        grep_answer(core, req, Ok::<GrepResult, GrepError>(g)),
    ensures
        g.hits@.len() <= total_cap(req),
        g.total_found == g.hits@.len(),
        g.truncated <==> all_hits(req, core).len() >= total_cap(req),
        g.truncated ==> g.hits@.len() == total_cap(req),
{
    assert(crate::grep::hits_v(g.hits@).len() == g.hits@.len());
}

proof fn lemma_no_coll_hits<V>(req: GrepRequest, cn: Seq<char>, c: Collection<V>, i: int)
    requires
        req.max_per_doc == Some(0usize),
    ensures
        coll_hits_upto(req, cn, c, i).len() == 0,
    decreases i,
{
    if i > 0 {
        lemma_no_coll_hits(req, cn, c, i - 1);
    }
}

proof fn lemma_no_store_hits<V>(req: GrepRequest, cs: Seq<(String, Collection<V>)>, k: int)
    requires
        req.max_per_doc == Some(0usize),
    ensures
        store_hits_upto(req, cs, k).len() == 0,
    decreases k,
{
    if k > 0 {
        lemma_no_store_hits(req, cs, k - 1);
        lemma_no_coll_hits(req, cs[k - 1].0@, cs[k - 1].1, cs[k - 1].1.docs@.len() as int);
    }
}

/// Grep's per-document cap holds: no document gives more hits than
/// `max_per_doc`, and a cap of 0 lets no hit through at all.
pub proof fn law_grep_doc_cap<V>(core: Core<V>, req: GrepRequest, cn: Seq<char>, d: Document<V>, g: GrepResult)
    requires
        grep_answer(core, req, Ok::<GrepResult, GrepError>(g)),
    ensures
        req.max_per_doc matches Some(m) ==> doc_part(req, cn, d).len() <= m,
        req.max_per_doc == Some(0usize) ==> g.hits@.len() == 0,
{
    if req.max_per_doc == Some(0usize) {
        lemma_no_store_hits(req, core.collections@, core.collections@.len() as int);
        assert(crate::grep::hits_v(g.hits@).len() == g.hits@.len());
    }
}

proof fn lemma_same_doc_count_eq(p: Seq<SegRef>, a: SegRef, b: SegRef)
    requires
        a.coll == b.coll,
        a.doc == b.doc,
    ensures
        same_doc_count(p, a) == same_doc_count(p, b),
    decreases p.len(),
{
    if p.len() > 0 {
        lemma_same_doc_count_eq(p.drop_last(), a, b);
    }
}

proof fn lemma_walk_bounded(ranked: Seq<SegRef>, n: int, k: int, cap: int)
    requires
        0 <= n <= ranked.len(),
        k >= 1,
        cap >= 0,
    ensures
        capped_walk(ranked, n, k, cap).0.len() <= k,
        !capped_walk(ranked, n, k, cap).1 ==> capped_walk(ranked, n, k, cap).0.len() < k,
        forall|r: SegRef| #[trigger] same_doc_count(capped_walk(ranked, n, k, cap).0, r) <= cap,
    decreases n,
{
    if n > 0 {
        lemma_walk_bounded(ranked, n - 1, k, cap);
        let (p, stopped) = capped_walk(ranked, n - 1, k, cap);
        if !stopped {
            let x = ranked[n - 1];
            if same_doc_count(p, x) < cap {
                let q = p.push(x);
                assert(q.drop_last() =~= p);
                assert forall|r: SegRef| #[trigger] same_doc_count(q, r) <= cap by {
                    if x.coll == r.coll && x.doc == r.doc {
                        lemma_same_doc_count_eq(p, x, r);
                    }
                }
            }
        }
    }
}

/// A search returns at most `k` hits (for `k` at least one), and with a
/// per-document cap no document contributes more than the cap; every hit
/// is one of the ranked candidates.
pub proof fn law_selection_bounded(ranked: Seq<SegRef>, k: int, max_per_doc: Option<usize>)
    requires
        k >= 1,
    ensures
        selected(ranked, k, max_per_doc).len() <= k,
        max_per_doc matches Some(cap) ==> forall|r: SegRef|
            #[trigger] same_doc_count(selected(ranked, k, max_per_doc), r) <= cap,
        forall|j: int|
            0 <= j < selected(ranked, k, max_per_doc).len() ==> ranked.contains(
                #[trigger] selected(ranked, k, max_per_doc)[j],
            ),
{
    lemma_selected_within(ranked, k, max_per_doc);
    match max_per_doc {
        Some(cap) => {
            lemma_walk_bounded(ranked, ranked.len() as int, k, cap as int);
        },
        None => {},
    }
}

proof fn lemma_cover_from(s: Seq<char>, cfg: ChunkConfig, bnd: BoundaryV, cs: Seq<Chunk>, j: int, m: int)
    requires
        chunking(s, cfg, bnd, cs),
        0 <= j < line_bounds(s).len(),
        0 <= m < cs.len(),
        cs[m].line_start <= j + 1,
    ensures
        exists|i: int| 0 <= i < cs.len() && #[trigger] cs[i].line_start <= j + 1 <= cs[i].line_end,
    decreases cs.len() - m,
{
    assert(chunk_spans(s, cfg, bnd, cs[m], cs[m].line_start - 1));
    if j + 1 > cs[m].line_end {
        if m == cs.len() - 1 {
            assert(cs.last() == cs[m]);
        } else {
            assert(cs[m + 1].line_start - 1 == step(
                s,
                cfg,
                bnd,
                cs[m].line_start - 1,
                cs[m].line_end - 1,
            ));
            lemma_cover_from(s, cfg, bnd, cs, j, m + 1);
        }
    }
}

/// Chunking loses no line: every line of the text lies in some chunk.
pub proof fn law_chunks_cover_every_line(s: Seq<char>, cfg: ChunkConfig, bnd: BoundaryV, cs: Seq<Chunk>, j: int)
    requires
        chunking(s, cfg, bnd, cs),
        0 <= j < line_bounds(s).len(),
    ensures
        exists|i: int| 0 <= i < cs.len() && #[trigger] cs[i].line_start <= j + 1 <= cs[i].line_end,
{
    lemma_cover_from(s, cfg, bnd, cs, j, 0);
}

/// Each chunk starts after the previous one starts and no later than the
/// line after it ends; with an overlap asked for, a chunk of several lines
/// shares at least its last line with the next, unless the next starts at
/// a boundary line.
pub proof fn law_chunks_advance_and_overlap(s: Seq<char>, cfg: ChunkConfig, bnd: BoundaryV, cs: Seq<Chunk>, i: int)
    requires
        chunking(s, cfg, bnd, cs),
        0 <= i < cs.len() - 1,
    ensures
        cs[i].line_start < cs[i + 1].line_start,
        cs[i + 1].line_start <= cs[i].line_end + 1,
        cfg.overlap_lines >= 1 && cs[i].line_end > cs[i].line_start && !boundary_at(
            s,
            bnd,
            cs[i].line_end as int,
        ) ==> cs[i + 1].line_start <= cs[i].line_end,
{
    assert(chunk_spans(s, cfg, bnd, cs[i], cs[i].line_start - 1));
    assert(cs[i + 1].line_start - 1 == step(
        s,
        cfg,
        bnd,
        cs[i].line_start - 1,
        cs[i].line_end - 1,
    ));
}

/// Chunking follows the structure the boundary pattern marks: a line that
/// matches it (other than the first) is the first line of a chunk, and no
/// chunk holds it anywhere else, so no chunk carries lines from before a
/// boundary past it.
pub proof fn law_boundary_starts_chunk(s: Seq<char>, cfg: ChunkConfig, bnd: BoundaryV, cs: Seq<Chunk>, k: int)
    requires
        chunking(s, cfg, bnd, cs),
        boundary_at(s, bnd, k),
    ensures
        exists|i: int| 0 <= i < cs.len() && #[trigger] cs[i].line_start == k + 1,
        forall|i: int|
            0 <= i < cs.len() && #[trigger] cs[i].line_start <= k + 1 <= cs[i].line_end ==> cs[i].line_start
                == k + 1,
{
    assert forall|i: int|
        0 <= i < cs.len() && #[trigger] cs[i].line_start <= k + 1 <= cs[i].line_end implies cs[i].line_start
        == k + 1 by {
        assert(chunk_spans(s, cfg, bnd, cs[i], cs[i].line_start - 1));
    }
    lemma_cover_from(s, cfg, bnd, cs, k, 0);
}

proof fn lemma_tally_none<V>(job: EmbedJob, d: Document<V>, vs: Seq<Option<V>>, lo: int, ok: bool)
    requires
        forall|k: int| 0 <= k < job.ids().len() ==> !seg_ids(d).contains(#[trigger] job.ids()[k]),
    ensures
        tally(job, d, vs, lo, ok) == 0,
    decreases job.ids().len() - lo,
{
    if lo < job.ids().len() && lo >= 0 {
        lemma_tally_none(job, d, vs, lo + 1, ok);
        assert(!counted(job, d, lo));
    }
}

/// A job whose segment ids are none of its document's (the document was
/// re-indexed since) fills no vector and counts nothing: an upsert is never
/// overwritten by the embedding of the version it replaced.
pub proof fn law_superseded_job_changes_nothing<V>(
    p: Collection<V>,
    c: Collection<V>,
    job: EmbedJob,
    vectors: Option<Seq<Option<V>>>,
)
    requires
        applied(p, c, job, vectors),
        docs_of(p).contains_key(job.doc()),
        forall|k: int|
            0 <= k < job.ids().len() ==> !seg_ids(docs_of(p)[job.doc()]).contains(
                #[trigger] job.ids()[k],
            ),
    ensures
        docs_of(c).contains_key(job.doc()),
        docs_of(c)[job.doc()].segments@.len() == docs_of(p)[job.doc()].segments@.len(),
        forall|j: int|
            0 <= j < docs_of(p)[job.doc()].segments@.len() ==> (#[trigger] docs_of(
                c,
            )[job.doc()].segments@[j]).vector == docs_of(p)[job.doc()].segments@[j].vector,
        c.embedded == p.embedded,
        c.failed == p.failed,
{
    let d0 = docs_of(p)[job.doc()];
    let vs = match vectors {
        Some(v) => v,
        None => Seq::empty(),
    };
    lemma_tally_none(job, d0, vs, 0, true);
    lemma_tally_none(job, d0, vs, 0, false);
    if vectors is Some {
        let d = docs_of(c)[job.doc()];
        assert(docs_of(c).contains_key(job.doc()));
        assert forall|j: int| 0 <= j < d0.segments@.len() implies (#[trigger] d.segments@[j]).vector
            == d0.segments@[j].vector by {
            let sid = d0.segments@[j].segment_id;
            assert(seg_ids(d0)[j] == sid);
            assert(seg_ids(d0).contains(sid));
            if exists|k: int| 0 <= k && #[trigger] gets_vector(job, vs, k, sid) {
                let k = choose|k: int| 0 <= k && #[trigger] gets_vector(job, vs, k, sid);
                assert(job.ids()[k] == sid);
            }
        }
    }
}

/// Embedding ignores case: two texts with the same lowercase form have the
/// same bucket counts, and so the same vector.
pub proof fn law_embedding_ignores_case(s: Seq<char>, t: Seq<char>, dim: usize)
    requires
        lowercase(s) == lowercase(t),
    ensures
        text_counts(s, dim) == text_counts(t, dim),
{
    assert(embed_terms(s) == embed_terms(t));
}

/// Keyword matching ignores case: two texts with the same lowercase form
/// have the same keyword terms.
pub proof fn law_keywords_ignore_case(s: Seq<char>, t: Seq<char>)
    requires
        lowercase(s) == lowercase(t),
    ensures
        keyword_terms(s) == keyword_terms(t),
{
}



/// Consecutive chunks overlap by `overlap_lines`: when the line after a
/// chunk is not a boundary, the next chunk starts `overlap_lines` lines
/// before the line after it (0-based: at `end + 1 - overlap_lines`), but
/// never at or before the chunk's own start. So a chunk of more than
/// `overlap_lines` lines shares exactly its last `overlap_lines` lines with
/// the next.
pub proof fn law_chunk_overlap_is_exact(s: Seq<char>, cfg: ChunkConfig, bnd: BoundaryV, cs: Seq<Chunk>, i: int)
    requires
        chunking(s, cfg, bnd, cs),
        0 <= i < cs.len() - 1,
        !boundary_at(s, bnd, cs[i].line_end as int),
    ensures
        ({
            let start = cs[i].line_start - 1;
            let end = cs[i].line_end - 1;
            let back = end + 1 - cfg.overlap_lines;
            cs[i + 1].line_start - 1 == if back > start {
                back
            } else {
                start + 1
            }
        }),
        cs[i].line_end - cs[i].line_start + 1 > cfg.overlap_lines ==> cs[i].line_end - cs[i + 1].line_start
            + 1 == cfg.overlap_lines,
{
    assert(chunk_spans(s, cfg, bnd, cs[i], cs[i].line_start - 1));
    assert(cs[i + 1].line_start - 1 == step(s, cfg, bnd, cs[i].line_start - 1, cs[i].line_end - 1));
}

proof fn lemma_seg_hits_shape<V>(
    req: GrepRequest,
    cn: Seq<char>,
    d: Document<V>,
    seg: Segment<V>,
    lines: Seq<Seq<char>>,
    n: int,
)
    requires
        0 <= n <= lines.len(),
    ensures
        ({
            let hs = seg_hits_upto(req, cn, d, seg, lines, n);
            let c = req.context_lines as int;
            &&& forall|j: int|
                0 <= j < hs.len() ==> {
                    let h = #[trigger] hs[j];
                    let k = h.line_number - 1;
                    &&& 0 <= k < n
                    &&& line_matches(req, lines[k])
                    &&& h.segment_id == seg.segment_id
                    &&& h.line_text == lines[k]
                    &&& h.before == lines.subrange(if k >= c { k - c } else { 0 }, k)
                    &&& h.before.len() == if k >= c { c } else { k }
                    &&& h.after == lines.subrange(k + 1, if k + 1 + c <= lines.len() { k + 1 + c } else { lines.len() as int })
                }
            &&& forall|j: int, l: int| 0 <= j < l < hs.len() ==> #[trigger] hs[j].line_number < #[trigger] hs[l].line_number
            &&& forall|k: int|
                0 <= k < n && line_matches(req, #[trigger] lines[k]) ==> exists|j: int|
                    0 <= j < hs.len() && (#[trigger] hs[j]).line_number == k + 1
        }),
    decreases n,
{
    if n > 0 {
        lemma_seg_hits_shape(req, cn, d, seg, lines, n - 1);
        let p = seg_hits_upto(req, cn, d, seg, lines, n - 1);
        let hs = seg_hits_upto(req, cn, d, seg, lines, n);
        if line_matches(req, lines[n - 1]) {
            assert(hs == p.push(crate::grep::line_hit(req, cn, d, seg, lines, n - 1)));
            assert forall|k: int| 0 <= k < n && line_matches(req, #[trigger] lines[k]) implies exists|j: int|
                0 <= j < hs.len() && (#[trigger] hs[j]).line_number == k + 1 by {
                if k == n - 1 {
                    assert(hs[p.len() as int].line_number == k + 1);
                } else {
                    let j = choose|j: int| 0 <= j < p.len() && (#[trigger] p[j]).line_number == k + 1;
                    assert(hs[j] == p[j]);
                }
            }
        } else {
            assert(hs == p);
        }
    }
}

/// Each grep hit of a segment is one of its matching lines, with exactly
/// the `context_lines` lines around it that the segment has: `before` is
/// lines `max(0, k - c) .. k` (so it has `min(k, c)` of them) and `after`
/// lines `k + 1 .. min(len, k + 1 + c)`, for the 0-based line `k` and `c`
/// context lines. Hits come in line order, and when the filter admits the
/// segment every matching line gives one.
pub proof fn law_grep_hit_context<V>(req: GrepRequest, cn: Seq<char>, d: Document<V>, seg: Segment<V>)
    ensures
        ({
            let lines = seg_lines(seg);
            let hs = seg_hits(req, cn, d, seg);
            let c = req.context_lines as int;
            &&& forall|j: int|
                0 <= j < hs.len() ==> {
                    let h = #[trigger] hs[j];
                    let k = h.line_number - 1;
                    &&& 0 <= k < lines.len()
                    &&& line_matches(req, lines[k])
                    &&& h.line_text == lines[k]
                    &&& h.before == lines.subrange(if k >= c { k - c } else { 0 }, k)
                    &&& h.before.len() == if k >= c { c } else { k }
                    &&& h.after == lines.subrange(k + 1, if k + 1 + c <= lines.len() { k + 1 + c } else { lines.len() as int })
                }
            &&& forall|j: int, l: int| 0 <= j < l < hs.len() ==> #[trigger] hs[j].line_number < #[trigger] hs[l].line_number
            &&& admits(req.filter@, effective(crate::json::jv(d.meta), crate::json::jv(seg.meta))) ==> forall|k: int|
                0 <= k < lines.len() && line_matches(req, #[trigger] lines[k]) ==> exists|j: int|
                    0 <= j < hs.len() && (#[trigger] hs[j]).line_number == k + 1
        }),
{
    let lines = seg_lines(seg);
    lemma_seg_hits_shape(req, cn, d, seg, lines, lines.len() as int);
}

/// A constraint on a single value holds of an array metadata value exactly
/// when some element of the array, at any position, equals the wanted
/// value; so reordering the array never changes whether it holds.
pub proof fn law_filter_array_membership(
    m: Map<Seq<char>, JsonV>,
    key: Seq<char>,
    a: Seq<JsonV>,
    b: Seq<JsonV>,
    want: JsonV,
)
    requires
        !(want is Array),
        b.to_multiset() == a.to_multiset(),
    ensures
        constraint_holds(m.insert(key, JsonV::Array(a)), key, want) <==> exists|k: int|
            0 <= k < a.len() && json_same(#[trigger] a[k], want),
        constraint_holds(m.insert(key, JsonV::Array(a)), key, want) == constraint_holds(
            m.insert(key, JsonV::Array(b)),
            key,
            want,
        ),
{
    assert(!json_same(JsonV::Array(a), want));
    assert(!json_same(JsonV::Array(b), want));
    assert forall|k: int| 0 <= k < a.len() && json_same(#[trigger] a[k], want) implies exists|l: int|
        0 <= l < b.len() && json_same(#[trigger] b[l], want) by {
        a.to_multiset_ensures();
        b.to_multiset_ensures();
        assert(a.to_multiset().count(a[k]) > 0);
        assert(b.contains(a[k]));
        let l = choose|l: int| 0 <= l < b.len() && b[l] == a[k];
        assert(json_same(b[l], want));
    }
    assert forall|l: int| 0 <= l < b.len() && json_same(#[trigger] b[l], want) implies exists|k: int|
        0 <= k < a.len() && json_same(#[trigger] a[k], want) by {
        a.to_multiset_ensures();
        b.to_multiset_ensures();
        assert(b.to_multiset().count(b[l]) > 0);
        assert(a.contains(b[l]));
        let k = choose|k: int| 0 <= k < a.len() && a[k] == b[l];
        assert(json_same(a[k], want));
    }
}

/// The wire `mode` names select three different modes, whatever the case
/// and surrounding spaces: a string that reads `hybrid` asks for rank
/// fusion, one that reads `keyword` for lexical search, and anything else
/// (`dense` among them, or no mode at all) for dense search.
pub proof fn law_search_mode_names(s: Seq<char>)
    ensures
        lower_ascii(trimmed(s)) == "hybrid"@ ==> mode_of(Some(s)) == SearchMode::Hybrid,
        lower_ascii(trimmed(s)) == "keyword"@ ==> mode_of(Some(s)) == SearchMode::Keyword,
        lower_ascii(trimmed(s)) != "hybrid"@ && lower_ascii(trimmed(s)) != "keyword"@ ==> mode_of(Some(s))
            == SearchMode::Dense,
        mode_of(None) == SearchMode::Dense,
        mode_of(Some("hybrid"@)) != mode_of(Some("keyword"@)),
        mode_of(Some("hybrid"@)) != mode_of(Some("dense"@)),
        mode_of(Some("keyword"@)) != mode_of(Some("dense"@)),
{
    reveal_strlit("hybrid");
    reveal_strlit("keyword");
    reveal_strlit("dense");
    crate::text::lemma_trimmed_lower_plain("hybrid"@);
    crate::text::lemma_trimmed_lower_plain("keyword"@);
    crate::text::lemma_trimmed_lower_plain("dense"@);
}

} // verus!
