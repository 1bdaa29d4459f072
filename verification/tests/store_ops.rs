use rcore::dispatch::search_partial;
use rcore::embed::MockEmbedder;
use rcore::filter::MetaFilter;
use rcore::grep::{grep, GrepRequest};
use rcore::json::{Json, JsonMap};
use rcore::search::{keyword_search, SearchMode, SearchRequest, PREVIEW_CHARS};
use rcore::store::{
    accept_index, accept_index_raw, apply_job, configure, current_dim, delete_collection,
    delete_document, get_segment, ready_state, totals, Collection, Config, Core, Document,
    EmbedJob, GetSegmentError, GetSegmentRequest, IndexRequest, RawIndexRequest, ReadyState,
    SegmentInput, VectorStatus, MOCK_DIM,
};

type Store = Core<Vec<f32>>;

fn empty_obj() -> Json {
    Json::Object(JsonMap::new())
}

fn seg(text: &str) -> SegmentInput {
    SegmentInput {
        text: text.to_string(),
        embed_text: None,
        line_start: None,
        line_end: None,
        meta: empty_obj(),
    }
}

fn index_req(collection: &str, doc_id: &str, texts: &[&str]) -> IndexRequest {
    IndexRequest {
        collection: collection.to_string(),
        doc_id: doc_id.to_string(),
        name: format!("doc {doc_id}"),
        meta: empty_obj(),
        segments: texts.iter().map(|t| seg(t)).collect(),
        description: None,
    }
}

/// Accept a document and hand back its embedding job.
fn index(core: &mut Store, collection: &str, doc_id: &str, texts: &[&str]) -> EmbedJob {
    accept_index(core, index_req(collection, doc_id, texts)).1
}

/// The hashing embedder's unit vector for a text, or `None` when it has no
/// words (an all-zero vector is no signal).
fn embed(text: &str) -> Option<Vec<f32>> {
    let e = MockEmbedder::new();
    let mut v: Vec<f32> = e.bucket_counts(text).iter().map(|&c| c as f32).collect();
    let norm = v.iter().map(|x| x * x).sum::<f32>().sqrt();
    if !(norm > 0.0 && norm.is_finite()) {
        return None;
    }
    for x in v.iter_mut() {
        *x /= norm;
    }
    Some(v)
}

/// Do what the background worker does for one job: embed its texts and
/// apply the vectors.
fn run_job(core: &mut Store, job: EmbedJob) {
    let vectors: Vec<Option<Vec<f32>>> = job.embed_texts().iter().map(|t| embed(t)).collect();
    apply_job(core, job, Some(vectors));
}

fn ready(core: &Store, collection: &str) -> bool {
    ready_state(core, collection) == ReadyState::Ready
}

fn coll<'a>(core: &'a Store, name: &str) -> &'a Collection<Vec<f32>> {
    &core.collections.iter().find(|(n, _)| n == name).expect("collection exists").1
}

fn has_coll(core: &Store, name: &str) -> bool {
    core.collections.iter().any(|(n, _)| n == name)
}

fn doc<'a>(core: &'a Store, collection: &str, doc_id: &str) -> Option<&'a Document<Vec<f32>>> {
    coll(core, collection).docs.iter().find(|d| d.doc_id == doc_id)
}

fn raw(core: &mut Store, collection: &str, doc_id: Option<&str>, text: &str) -> (String, EmbedJob) {
    let (res, job) = accept_index_raw(
        core,
        RawIndexRequest {
            collection: collection.to_string(),
            doc_id: doc_id.map(String::from),
            name: "raw doc".to_string(),
            meta: empty_obj(),
            text: text.to_string(),
            target_tokens: Some(3),
            max_tokens: Some(8),
            overlap_lines: Some(1),
            boundary_regex: None,
            description: None,
        },
    );
    (res.doc_id, job)
}

fn get(doc_id: &str, line_start: u64, line_end: u64, max_lines: Option<usize>) -> GetSegmentRequest {
    GetSegmentRequest { doc_id: doc_id.to_string(), line_start, line_end, max_lines }
}

fn kw(query: &str, collection: Option<&str>, k: usize, include_text: bool) -> SearchRequest {
    SearchRequest {
        query: query.to_string(),
        collection: collection.map(String::from),
        mode: SearchMode::Keyword,
        k,
        max_per_doc: None,
        include_text,
        filter: MetaFilter::default(),
    }
}

#[test]
fn configure_sets_dim() {
    let mut c: Store = Core::new();
    let res = configure(&mut c, Config::default(), MOCK_DIM);
    assert_eq!(res.dim, MockEmbedder::new().dim());
    assert!(c.configured);
    assert!(!res.reset_due_to_dim_change);
}

#[test]
fn reconfigure_different_dim_resets() {
    let mut c: Store = Core::new();
    c.embedder_dim = Some(MockEmbedder::with_dim(8).dim());
    let mut k = Collection::new();
    k.text_ready = true;
    k.docs.push(Document {
        doc_id: "d1".to_string(),
        name: "n".to_string(),
        meta: empty_obj(),
        segments: vec![],
        full_text: None,
        line_offsets: None,
    });
    c.collections.push(("k".to_string(), k));
    let res = configure(&mut c, Config::default(), MOCK_DIM);
    assert!(res.reset_due_to_dim_change, "dim 8 → 64 with data must reset");
    assert!(c.collections.is_empty(), "index must be cleared on dim change");
}

#[test]
fn index_returns_immediately_then_becomes_ready() {
    let mut c: Store = Core::new();
    let job = index(&mut c, "docs", "d1", &["semantic search over vectors", "another segment here"]);
    {
        let coll = coll(&c, "docs");
        assert!(coll.text_ready);
        assert_eq!(coll.vector_status, VectorStatus::Building);
    }
    run_job(&mut c, job);
    assert!(ready(&c, "docs"), "collection should reach Ready");
    let coll = coll(&c, "docs");
    assert_eq!(coll.vector_status, VectorStatus::Ready);
    assert_eq!(coll.embedded, 2);
    assert_eq!(coll.docs.len(), 1);
}

#[test]
fn text_is_installed_synchronously_at_accept() {
    let mut c: Store = Core::new();
    let job = accept_index(
        &mut c,
        IndexRequest {
            collection: "docs".to_string(),
            doc_id: "d1".to_string(),
            name: "doc d1".to_string(),
            meta: empty_obj(),
            segments: vec![seg("alpha text here"), seg("beta text here")],
            description: None,
        },
    )
    .1;
    {
        let coll = coll(&c, "docs");
        assert!(coll.text_ready, "text must be ready at accept");
        let doc = doc(&c, "docs", "d1").expect("doc installed synchronously");
        assert_eq!(doc.segments.len(), 2, "both text segments present");
        assert!(doc.segments.iter().any(|s| s.text == "alpha text here"));
        assert!(doc.segments.iter().any(|s| s.text == "beta text here"));
        assert!(
            doc.segments.iter().all(|s| s.vector.is_none()),
            "vectors must still be None right after accept"
        );
        assert_eq!(coll.vector_status, VectorStatus::Building);
    }
    run_job(&mut c, job);
    assert!(ready(&c, "docs"));
    let doc = doc(&c, "docs", "d1").unwrap();
    assert!(
        doc.segments.iter().all(|s| s.vector.is_some()),
        "worker must fill the already-installed segments' vectors"
    );
}

#[test]
fn search_during_building_is_partial() {
    let mut c: Store = Core::new();
    c.embedder_dim = Some(MOCK_DIM);
    let mut coll = Collection::new();
    coll.text_ready = true;
    coll.vector_status = VectorStatus::Building;
    coll.pending_jobs = 1;
    c.collections.push(("docs".to_string(), coll));
    let mut req = kw("anything", Some("docs"), 5, true);
    req.mode = SearchMode::Dense;
    assert!(search_partial(&c, &req), "search over a Building collection must be partial");
}

#[test]
fn top_k_selection_is_descending_and_bounded() {
    let mut c: Store = Core::new();
    let job = index(
        &mut c,
        "docs",
        "d1",
        &[
            "alpha beta gamma delta",
            "alpha beta gamma",
            "alpha beta",
            "alpha",
            "unrelated tokens entirely",
        ],
    );
    run_job(&mut c, job);
    let hits = keyword_search(&c, &kw("alpha beta gamma delta", Some("docs"), 3, true), None);
    assert_eq!(hits.len(), 3, "k must bound the result");
    let score = |s: &rcore::keyword::KeywordScore| {
        s.distinct_present as f64 + 0.1 * s.total_occurrences as f64
    };
    for w in hits.windows(2) {
        assert!(score(&w[0].1) >= score(&w[1].1), "hits must be ranked descending");
    }
}

#[test]
fn include_text_false_caps_hit_text_to_preview() {
    let mut c: Store = Core::new();
    let long: String = "слово ".repeat(200);
    let job = index(&mut c, "docs", "d1", &[long.as_str()]);
    run_job(&mut c, job);
    let hits = keyword_search(&c, &kw("слово", Some("docs"), 1, false), None);
    assert_eq!(hits.len(), 1);
    assert_eq!(
        hits[0].0.text.chars().count(),
        PREVIEW_CHARS,
        "include_text:false must materialize only the preview prefix"
    );
}

#[test]
fn upsert_replaces_doc_segments() {
    let mut c: Store = Core::new();
    let j1 = index(&mut c, "docs", "d1", &["original unique_alpha_token content"]);
    run_job(&mut c, j1);
    let j2 = index(&mut c, "docs", "d1", &["replaced unique_beta_token content"]);
    run_job(&mut c, j2);
    assert!(ready(&c, "docs"));
    let coll = coll(&c, "docs");
    assert_eq!(coll.docs.len(), 1, "still one doc");
    let texts: Vec<&str> =
        doc(&c, "docs", "d1").unwrap().segments.iter().map(|s| s.text.as_str()).collect();
    assert!(texts.iter().any(|t| t.contains("unique_beta_token")), "new segment present");
    assert!(!texts.iter().any(|t| t.contains("unique_alpha_token")), "old segment gone");
}

#[test]
fn blank_segment_is_skipped_and_collection_still_ready() {
    let mut c: Store = Core::new();
    let job = accept_index(
        &mut c,
        IndexRequest {
            collection: "docs".to_string(),
            doc_id: "d1".to_string(),
            name: "n".to_string(),
            meta: empty_obj(),
            segments: vec![seg("real content here"), seg("   "), seg("")],
            description: None,
        },
    )
    .1;
    run_job(&mut c, job);
    assert!(ready(&c, "docs"));
    let coll = coll(&c, "docs");
    assert_eq!(coll.vector_status, VectorStatus::Ready);
    assert_eq!(coll.skipped, 2, "two blank segments skipped");
    assert_eq!(coll.embedded, 1, "one real segment embedded");
}

#[test]
fn stats_helpers_reflect_state() {
    let mut c: Store = Core::new();
    let a = index(&mut c, "a", "d1", &["one two three", "alpha beta"]);
    let b = index(&mut c, "b", "d2", &["four five"]);
    run_job(&mut c, a);
    run_job(&mut c, b);
    assert!(ready(&c, "a"));
    assert!(ready(&c, "b"));
    let (docs, segs) = totals(&c);
    assert_eq!(docs, 2);
    assert_eq!(segs, 3);
    assert_eq!(current_dim(&c), MockEmbedder::new().dim());
}

#[test]
fn get_segment_basic_slice_and_immediate_after_accept() {
    let mut c: Store = Core::new();
    let (id, _job) = raw(&mut c, "docs", Some("r1"), "line one\r\nline two\r\nline three");
    assert_eq!(id, "r1");
    let res = get_segment(&c, &get("r1", 2, 3, None))
        .unwrap_or_else(|_| panic!("slice must succeed"));
    assert_eq!(res.text, "line two\nline three");
    assert_eq!(res.line_start, 2);
    assert_eq!(res.line_end, 3);
    assert_eq!(res.line_count, 3);
}

#[test]
fn get_segment_out_of_range_clamps_and_returns_actual() {
    let mut c: Store = Core::new();
    raw(&mut c, "docs", Some("r2"), "a\nb\nc");
    let res = get_segment(&c, &get("r2", 0, 99, None))
        .unwrap_or_else(|_| panic!("clamped slice must succeed"));
    assert_eq!(res.line_start, 1);
    assert_eq!(res.line_end, 3);
    assert_eq!(res.text, "a\nb\nc");
}

#[test]
fn get_segment_respects_max_lines() {
    let mut c: Store = Core::new();
    raw(&mut c, "docs", Some("r3"), "a\nb\nc\nd\ne");
    let res = get_segment(&c, &get("r3", 2, 5, Some(2)))
        .unwrap_or_else(|_| panic!("max_lines slice must succeed"));
    assert_eq!(res.line_start, 2);
    assert_eq!(res.line_end, 3, "max_lines caps the returned range");
    assert_eq!(res.text, "b\nc");
}

#[test]
fn get_segment_on_atomic_record_is_no_line_index() {
    let mut c: Store = Core::new();
    index(&mut c, "docs", "atomic1", &["just a segment, no document text"]);
    let err = get_segment(&c, &get("atomic1", 1, 1, None));
    assert!(matches!(err, Err(GetSegmentError::NoLineIndex)));
}

#[test]
fn core_get_segment_unknown_doc_is_not_found() {
    let c: Store = Core::new();
    let err = get_segment(&c, &get("nope", 1, 1, None));
    assert!(matches!(err, Err(GetSegmentError::NotFound)));
}

#[test]
fn index_raw_auto_assigns_doc_id() {
    let mut c: Store = Core::new();
    let (id, _job) = raw(&mut c, "docs", None, "auto id document body");
    assert!(!id.is_empty(), "auto doc_id must be returned");
    assert_eq!(id, "raw:1");
    assert!(doc(&c, "docs", &id).is_some(), "auto-assigned doc is addressable by the returned id");
}

#[test]
fn index_raw_doc_embeds_in_background() {
    let mut c: Store = Core::new();
    let (_id, job) = raw(&mut c, "docs", Some("rb"), "alpha beta\ngamma delta\nepsilon zeta");
    run_job(&mut c, job);
    assert!(ready(&c, "docs"));
    let doc = doc(&c, "docs", "rb").unwrap();
    assert!(
        doc.segments.iter().any(|s| s.vector.is_some()),
        "raw-doc chunks must get vectors from the worker"
    );
    assert!(doc.full_text.is_some());
    assert!(doc.line_offsets.is_some());
}

#[test]
fn keyword_search_works_while_building_without_vectors() {
    let mut c: Store = Core::new();
    accept_index(
        &mut c,
        IndexRequest {
            collection: "docs".to_string(),
            doc_id: "k1".to_string(),
            name: "n".to_string(),
            meta: empty_obj(),
            segments: vec![seg("the exact sku ABC-123 lives here"), seg("unrelated prose")],
            description: None,
        },
    );
    {
        let coll = coll(&c, "docs");
        assert_eq!(coll.vector_status, VectorStatus::Building);
        assert!(doc(&c, "docs", "k1").unwrap().segments.iter().all(|s| s.vector.is_none()));
    }
    let req = kw("ABC-123", Some("docs"), 50, true);
    let hits = keyword_search(&c, &req, None);
    assert!(!search_partial(&c, &req), "keyword never reports partial (reads no vectors)");
    assert!(!hits.is_empty(), "keyword must work while Building");
    assert_eq!(hits[0].0.doc_id, "k1");
    assert!(hits[0].0.text.contains("ABC-123"));
}

#[test]
fn delete_document_removes_doc_and_drops_empty_collection() {
    let mut c: Store = Core::new();
    let j1 = index(&mut c, "docs", "d1", &["first segment", "second segment"]);
    let j2 = index(&mut c, "docs", "d2", &["other doc"]);
    run_job(&mut c, j1);
    run_job(&mut c, j2);
    assert!(ready(&c, "docs"));
    let res = delete_document(&mut c, "d1");
    assert!(res.deleted);
    assert_eq!(res.collection.as_deref(), Some("docs"));
    assert_eq!(res.removed_segments, 2);
    assert!(!res.collection_dropped, "collection still has d2");
    assert!(doc(&c, "docs", "d1").is_none());
    assert!(doc(&c, "docs", "d2").is_some());
    let res = delete_document(&mut c, "d2");
    assert!(res.deleted);
    assert!(res.collection_dropped, "empty collection must be dropped");
    assert!(!has_coll(&c, "docs"), "empty collection gone");
}

#[test]
fn core_delete_unknown_document_is_structural_false() {
    let mut c: Store = Core::new();
    let res = delete_document(&mut c, "ghost");
    assert!(!res.deleted, "unknown doc → deleted:false, not an error");
    assert!(res.collection.is_none());
    assert_eq!(res.removed_segments, 0);
    assert!(!res.collection_dropped);
}

#[test]
fn delete_collection_clears_all_docs_and_unknown_is_false() {
    let mut c: Store = Core::new();
    let j1 = index(&mut c, "docs", "d1", &["a", "b"]);
    let j2 = index(&mut c, "docs", "d2", &["c"]);
    run_job(&mut c, j1);
    run_job(&mut c, j2);
    assert!(ready(&c, "docs"));
    let res = delete_collection(&mut c, "docs");
    assert!(res.deleted);
    assert_eq!(res.removed_docs, 2);
    assert_eq!(res.removed_segments, 3);
    assert!(!has_coll(&c, "docs"));
    let res = delete_collection(&mut c, "missing");
    assert!(!res.deleted);
    assert_eq!(res.removed_docs, 0);
    assert_eq!(res.removed_segments, 0);
}

#[test]
fn grep_finds_text_while_collection_is_building() {
    let mut c: Store = Core::new();
    accept_index(&mut c, index_req("docs", "b1", &["needle in the haystack"]));
    {
        let coll = coll(&c, "docs");
        assert_eq!(coll.vector_status, VectorStatus::Building);
        assert!(doc(&c, "docs", "b1").unwrap().segments.iter().all(|s| s.vector.is_none()));
    }
    let req = GrepRequest {
        pattern: "needle".to_string(),
        collection: Some("docs".to_string()),
        filter: MetaFilter::default(),
        ignore_case: false,
        multiline: true,
        context_lines: 0,
        max_matches: 200,
        max_per_doc: None,
    };
    let res = grep(&c, &req).ok().expect("pattern compiles");
    assert_eq!(res.hits.len(), 1, "grep must find text regardless of vectors");
    assert_eq!(res.hits[0].doc_id, "b1");
    assert_eq!(res.hits[0].line_number, 1);
}

// ---------------------------------------------------------------------------
// Further properties of the store
// ---------------------------------------------------------------------------

#[test]
fn ready_state_tracks_jobs_and_gone_collections() {
    let mut c: Store = Core::new();
    assert_eq!(ready_state(&c, "docs"), ReadyState::Gone);
    let j1 = index(&mut c, "docs", "d1", &["a b"]);
    let j2 = index(&mut c, "docs", "d2", &["c d"]);
    assert_eq!(ready_state(&c, "docs"), ReadyState::Pending);
    run_job(&mut c, j1);
    assert_eq!(ready_state(&c, "docs"), ReadyState::Pending, "one job still pending");
    run_job(&mut c, j2);
    assert_eq!(ready_state(&c, "docs"), ReadyState::Ready);
}

#[test]
fn stale_job_after_upsert_fills_nothing() {
    let mut c: Store = Core::new();
    let old = index(&mut c, "docs", "d1", &["old text"]);
    let new = index(&mut c, "docs", "d1", &["new text"]);
    run_job(&mut c, old);
    {
        let coll = coll(&c, "docs");
        assert_eq!(coll.embedded, 0, "ids of the replaced version are passed over");
        assert!(doc(&c, "docs", "d1").unwrap().segments.iter().all(|s| s.vector.is_none()));
    }
    run_job(&mut c, new);
    assert_eq!(coll(&c, "docs").embedded, 1);
    assert!(ready(&c, "docs"));
}

#[test]
fn job_for_deleted_collection_is_ignored() {
    let mut c: Store = Core::new();
    let job = index(&mut c, "docs", "d1", &["text"]);
    delete_collection(&mut c, "docs");
    run_job(&mut c, job);
    assert!(!has_coll(&c, "docs"));
}

#[test]
fn failed_vectors_are_counted() {
    let mut c: Store = Core::new();
    let job = index(&mut c, "docs", "d1", &["one", "two"]);
    let n = job.embed_texts().len();
    apply_job(&mut c, job, Some(vec![None; n]));
    let coll = coll(&c, "docs");
    assert_eq!(coll.failed, 2);
    assert_eq!(coll.embedded, 0);
    assert_eq!(coll.vector_status, VectorStatus::Ready);
}

#[test]
fn segment_ids_are_sequential_across_documents() {
    let mut c: Store = Core::new();
    let j1 = index(&mut c, "docs", "d1", &["a", "b"]);
    let j2 = index(&mut c, "other", "d2", &["c"]);
    assert_eq!(j1.segment_ids(), &vec![1u64, 2]);
    assert_eq!(j2.segment_ids(), &vec![3u64]);
    assert_eq!(j1.collection(), "docs");
    assert_eq!(j2.doc_id(), "d2");
    assert_eq!(c.next_segment_id, 4);
}

#[test]
fn embed_text_overrides_text_and_blank_is_empty() {
    let mut c: Store = Core::new();
    let mut s = seg("shown text");
    s.embed_text = Some("enriched composite".to_string());
    let mut req = index_req("docs", "d1", &[]);
    req.segments = vec![s, seg("  ")];
    let job = accept_index(&mut c, req).1;
    assert_eq!(job.embed_texts(), &vec!["enriched composite".to_string(), String::new()]);
    assert_eq!(doc(&c, "docs", "d1").unwrap().segments[0].text, "shown text");
    assert_eq!(coll(&c, "docs").skipped, 1);
}

#[test]
fn raw_oversized_chunk_embeds_truncated_text() {
    let mut c: Store = Core::new();
    let long = "word ".repeat(60);
    let text = format!("short head\n{}\nshort tail", long.trim());
    let (_id, job) = raw(&mut c, "raw", Some("ov"), &text);
    // The stored line is whole; what is embedded is cut to the hard cap.
    let res = get_segment(&c, &get("ov", 2, 2, None)).ok().unwrap();
    assert_eq!(res.text, long.trim());
    assert!(job.embed_texts().iter().all(|t| t.chars().count() <= 8 * 4));
}

#[test]
fn reingest_gives_fresh_segment_ids() {
    let mut core = Store::new();
    index(&mut core, "c", "a", &["one", "two"]);
    index(&mut core, "c", "b", &["three"]);
    let old: Vec<u64> = doc(&core, "c", "a").unwrap().segments.iter().map(|s| s.segment_id).collect();
    let next_before = core.next_segment_id;
    index(&mut core, "c", "a", &["one again", "two again"]);
    let new: Vec<u64> = doc(&core, "c", "a").unwrap().segments.iter().map(|s| s.segment_id).collect();
    assert_eq!(new.len(), 2);
    assert!(new.iter().all(|id| *id >= next_before && !old.contains(id)));
    let mut all: Vec<u64> = coll(&core, "c")
        .docs
        .iter()
        .flat_map(|d| d.segments.iter().map(|s| s.segment_id))
        .collect();
    let n = all.len();
    all.sort();
    all.dedup();
    assert_eq!(all.len(), n, "no segment id occurs twice");
    assert!(all.iter().all(|id| *id < core.next_segment_id));
}

#[test]
fn raw_document_reads_back_whole_and_by_chunk() {
    let mut core = Store::new();
    let text = "alpha beta\r\ngamma delta epsilon\r\nzeta\r\neta theta iota kappa\r\nlast";
    let (id, _job) = raw(&mut core, "r", Some("doc"), text);
    let whole = get_segment(&core, &get(&id, 1, u64::MAX, None)).ok().unwrap();
    assert_eq!(whole.text, text.replace("\r\n", "\n"));
    assert_eq!((whole.line_start, whole.line_end, whole.line_count), (1, 5, 5));
    let d = doc(&core, "r", "doc").unwrap();
    assert!(d.segments.len() >= 2);
    for s in &d.segments {
        let (a, b) = (s.line_start.unwrap(), s.line_end.unwrap());
        let part = get_segment(&core, &get(&id, a, b, None)).ok().unwrap();
        assert_eq!(part.text, s.text);
    }
}
