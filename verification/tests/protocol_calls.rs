use rcore::dispatch::{
    configure_request, handle_configure, handle_delete_collection, handle_delete_document,
    handle_get_segment, handle_grep, handle_index_raw, handle_index_segments,
    handle_list_collections, handle_list_models, handle_ping, handle_reset, handle_stats,
    handle_trim_memory, handle_unknown_method, method_of, search_hit_json, search_partial, search_reply,
    search_request, Method,
};
use rcore::embed::MockEmbedder;
use rcore::json::{Json, JsonMap};
use rcore::protocol::{
    Envelope, BAD_MODEL, BAD_PATTERN, BAD_PAYLOAD, INTERNAL, NOT_FOUND, NO_LINE_INDEX, UNKNOWN_METHOD,
};
use rcore::filter::MetaFilter;
use rcore::search::{
    dense_candidates, hybrid_rank, keyword_search, make_hits, select, select_hits, Hit, SearchMode,
    SearchRequest, SegRef,
};
use rcore::store::{apply_job, ready_state, Core, EmbedJob, ReadyState, MOCK_DIM};

fn conv(v: &serde_json::Value) -> Json {
    match v {
        serde_json::Value::Null => Json::Null,
        serde_json::Value::Bool(b) => Json::Bool(*b),
        serde_json::Value::Number(n) => {
            if let Some(u) = n.as_u64() {
                Json::PosInt(u)
            } else if let Some(i) = n.as_i64() {
                Json::NegInt(i)
            } else {
                let f = n.as_f64().unwrap_or(0.0);
                Json::Float(if f == 0.0 { 0.0f64.to_bits() } else { f.to_bits() })
            }
        }
        serde_json::Value::String(s) => Json::Str(s.clone()),
        serde_json::Value::Array(a) => Json::Array(a.iter().map(conv).collect()),
        serde_json::Value::Object(o) => {
            let mut m = JsonMap::new();
            for (k, x) in o {
                m.insert(k.clone(), conv(x));
            }
            Json::Object(m)
        }
    }
}

fn js(s: &str) -> Json {
    conv(&serde_json::from_str::<serde_json::Value>(s).expect("test JSON parses"))
}

fn text_of(j: &Json, key: &str) -> String {
    j.get(key).and_then(|v| v.as_str()).cloned().unwrap_or_default()
}

/// A JSON value read back as a `serde_json::Value`, for inspection.
fn back(j: &Json) -> serde_json::Value {
    match j {
        Json::Null => serde_json::Value::Null,
        Json::Bool(b) => serde_json::Value::Bool(*b),
        Json::PosInt(n) => serde_json::Value::from(*n),
        Json::NegInt(n) => serde_json::Value::from(*n),
        Json::Float(bits) => serde_json::Value::from(f64::from_bits(*bits)),
        Json::Str(s) => serde_json::Value::String(s.clone()),
        Json::Array(a) => serde_json::Value::Array(a.iter().map(back).collect()),
        Json::Object(m) => {
            let mut o = serde_json::Map::new();
            for i in 0..m.len() {
                o.insert(m.key_at(i).clone(), back(m.value_at(i)));
            }
            serde_json::Value::Object(o)
        }
    }
}

fn embed(text: &str) -> Option<Vec<f32>> {
    let e = MockEmbedder::new();
    let mut v: Vec<f32> = e.bucket_counts(text).iter().map(|&c| c as f32).collect();
    let norm = v.iter().map(|x| x * x).sum::<f32>().sqrt();
    if !(norm > 0.0 && norm.is_finite()) {
        return None;
    }
    for x in v.iter_mut() {
        *x /= norm;
    }
    Some(v)
}

/// The store together with the jobs accepted and not yet run.
struct Harness {
    core: Core<Vec<f32>>,
    jobs: Vec<EmbedJob>,
    calls: u64,
}

impl Harness {
    fn new() -> Harness {
        Harness { core: Core::new(), jobs: Vec::new(), calls: 0 }
    }

    /// Run every queued job, as the background worker would.
    fn drain(&mut self) {
        for job in std::mem::take(&mut self.jobs) {
            let vectors: Vec<Option<Vec<f32>>> =
                job.embed_texts().iter().map(|t| embed(t)).collect();
            apply_job(&mut self.core, job, Some(vectors));
        }
    }

    fn ready(&self, collection: &str) -> bool {
        ready_state(&self.core, collection) == ReadyState::Ready
    }

    /// The dense candidates with their similarity to the query.
    fn dense_scored(&self, req: &SearchRequest) -> (Vec<SegRef>, Vec<f32>) {
        let (cands, _) = dense_candidates(&self.core, req);
        let q = embed(&req.query).unwrap_or_else(|| vec![0.0; MOCK_DIM]);
        let scores = cands
            .iter()
            .map(|r| {
                let seg = &self.core.collections[r.coll].1.docs[r.doc].segments[r.seg];
                seg.vector.as_ref().map(|v| v.iter().zip(&q).map(|(a, b)| a * b).sum()).unwrap_or(0.0)
            })
            .collect();
        (cands, scores)
    }

    /// A search in any mode, with the hits' scores, and whether it is partial.
    fn search(&self, req: &SearchRequest, min: Option<f32>) -> (Vec<(Hit, f32)>, bool) {
        let desc = |a: f32, b: f32| b.partial_cmp(&a).unwrap_or(std::cmp::Ordering::Equal);
        let partial = search_partial(&self.core, req);
        let scored = match req.mode {
            SearchMode::Dense => {
                let (cands, scores) = self.dense_scored(req);
                let mut order: Vec<usize> =
                    (0..cands.len()).filter(|&i| min.map_or(true, |m| scores[i] >= m)).collect();
                order.sort_by(|&a, &b| desc(scores[a], scores[b]));
                select_hits(&self.core, &cands, &order, req.k, req.max_per_doc, req.include_text)
                    .into_iter()
                    .map(|(h, i)| (h, scores[i]))
                    .collect()
            }
            SearchMode::Keyword => {
                let min_tenths = min.map(|m| {
                    let t = (m as f64 * 10.0).ceil();
                    let mut t = if t <= 0.0 { 0u128 } else { t as u128 };
                    while t > 0 && ((t - 1) as f64 / 10.0) as f32 >= m {
                        t -= 1;
                    }
                    t
                });
                keyword_search(&self.core, req, min_tenths)
                    .into_iter()
                    .map(|(h, s)| (h, s.distinct_present as f32 + 0.1 * s.total_occurrences as f32))
                    .collect()
            }
            SearchMode::Hybrid => {
                let (cands, scores) = self.dense_scored(req);
                let mut order: Vec<usize> = (0..cands.len()).collect();
                order.sort_by(|&a, &b| desc(scores[a], scores[b]));
                let fused = hybrid_rank(&self.core, req, &cands, &order);
                let ranked: Vec<(SegRef, f32)> = fused
                    .iter()
                    .map(|e| (e.item.r, (e.num as f64 / e.den as f64) as f32))
                    .filter(|(_, s)| min.map_or(true, |m| *s >= m))
                    .collect();
                let refs: Vec<SegRef> = ranked.iter().map(|x| x.0).collect();
                let chosen = select(&refs, req.k, req.max_per_doc);
                let hits = make_hits(&self.core, &chosen, req.include_text);
                hits.into_iter()
                    .zip(chosen.iter())
                    .map(|(h, r)| (h, ranked.iter().find(|x| x.0 == *r).map(|x| x.1).unwrap_or(0.0)))
                    .collect()
            }
        };
        (scored, partial)
    }

    /// One call: route the method, answer with the envelope as JSON.
    fn call(&mut self, method: &str, payload: &str) -> serde_json::Value {
        self.calls += 1;
        let p = if payload.trim().is_empty() { Json::Null } else { js(payload) };
        let env: Envelope = match method_of(method) {
            Method::Ping => handle_ping(p),
            Method::Stats => handle_stats(&self.core, self.calls),
            Method::Reset => handle_reset(&mut self.core),
            Method::Configure => match configure_request(&p) {
                Ok(config) => handle_configure(&mut self.core, config, MOCK_DIM),
                Err(e) => e,
            },
            Method::IndexSegments => {
                let (e, job) = handle_index_segments(&mut self.core, &p);
                self.jobs.extend(job);
                e
            }
            Method::IndexRaw => {
                let (e, job) = handle_index_raw(&mut self.core, &p);
                self.jobs.extend(job);
                e
            }
            Method::GetSegment => handle_get_segment(&self.core, &p),
            Method::Grep => handle_grep(&self.core, &p),
            Method::DeleteDocument => handle_delete_document(&mut self.core, &p),
            Method::DeleteCollection => handle_delete_collection(&mut self.core, &p),
            Method::ListCollections => handle_list_collections(&self.core),
            Method::ListModels => handle_list_models(),
            Method::TrimMemory => handle_trim_memory(&self.core),
            Method::Search => match search_request(&p) {
                Err(e) => e,
                Ok(req) => {
                    let raw: serde_json::Value = serde_json::from_str(payload).unwrap();
                    let min = raw.get("min_score").and_then(|x| x.as_f64()).map(|x| x as f32);
                    let include_text = req.include_text;
                    let (scored, partial) = self.search(&req, min);
                    let hits: Vec<Json> = scored
                        .iter()
                        .map(|(h, s)| {
                            search_hit_json(h, Json::Float((*s as f64).to_bits()), include_text)
                        })
                        .collect();
                    search_reply(hits, partial)
                }
            },
            Method::Unknown => handle_unknown_method(method),
        };
        back(&env.into_json())
    }
}

fn hits(v: &serde_json::Value) -> Vec<serde_json::Value> {
    v["result"]["hits"].as_array().cloned().unwrap_or_default()
}

#[test]
fn configure_echoes_dim_and_config() {
    let mut h = Harness::new();
    let v = h.call(
        "configure",
        r#"{"model_path":"/models/bge","normalize":true,"device":"cpu","max_seq_len":512}"#,
    );
    assert_eq!(v["ok"], serde_json::Value::Bool(true));
    assert_eq!(v["result"]["configured"], serde_json::Value::Bool(true));
    assert!(v["result"]["dim"].as_u64().unwrap() > 0);
    assert_eq!(v["result"]["model_path"].as_str(), Some("/models/bge"));
    assert_eq!(v["result"]["device"].as_str(), Some("cpu"));
    assert_eq!(v["result"]["max_seq_len"].as_u64(), Some(512));
}

#[test]
fn index_segments_requires_doc_id() {
    let mut h = Harness::new();
    let v = h.call("index_segments", r#"{"collection":"c","segments":[{"text":"x"}]}"#);
    assert_eq!(v["ok"], serde_json::Value::Bool(false));
    assert_eq!(v["error"]["code"].as_str(), Some(BAD_PAYLOAD));
}

fn seed_grep_doc(h: &mut Harness) {
    h.call("configure", "{}");
    h.call(
        "index_segments",
        r#"{"collection":"docs","doc_id":"g1","name":"log",
            "meta":{"kind":"manual"},
            "segments":[{"text":"first line ERROR here\r\nsecond plain line\r\nthird Error again\r\nfourth done"}]}"#,
    );
    h.drain();
    assert!(h.ready("docs"));
}

#[test]
fn grep_basic_match() {
    let mut h = Harness::new();
    seed_grep_doc(&mut h);
    let v = h.call("grep", r#"{"pattern":"ERROR","collection":"docs"}"#);
    assert_eq!(v["ok"], serde_json::Value::Bool(true));
    let hs = hits(&v);
    assert_eq!(hs.len(), 1, "only the exact-case ERROR line matches");
    assert_eq!(hs[0]["doc_id"].as_str(), Some("g1"));
    assert_eq!(hs[0]["line_number"].as_u64(), Some(1));
    assert_eq!(hs[0]["line_text"].as_str(), Some("first line ERROR here"));
    assert_eq!(v["result"]["truncated"], serde_json::Value::Bool(false));
    assert_eq!(v["result"]["total_found"].as_u64(), Some(1));
}

#[test]
fn grep_ignore_case() {
    let mut h = Harness::new();
    seed_grep_doc(&mut h);
    let v = h.call("grep", r#"{"pattern":"error","collection":"docs","ignore_case":true}"#);
    let hs = hits(&v);
    assert_eq!(hs.len(), 2, "case-insensitive matches both ERROR and Error");
    assert_eq!(hs[0]["line_number"].as_u64(), Some(1));
    assert_eq!(hs[1]["line_number"].as_u64(), Some(3));
}

#[test]
fn grep_context_lines() {
    let mut h = Harness::new();
    seed_grep_doc(&mut h);
    let v = h.call("grep", r#"{"pattern":"third","collection":"docs","context_lines":1}"#);
    let hs = hits(&v);
    assert_eq!(hs.len(), 1);
    let hit = &hs[0];
    assert_eq!(hit["line_number"].as_u64(), Some(3));
    assert_eq!(hit["context_before"], serde_json::Value::from(vec!["second plain line"]));
    assert_eq!(hit["context_after"], serde_json::Value::from(vec!["fourth done"]));
}

#[test]
fn grep_max_matches_truncates() {
    let mut h = Harness::new();
    seed_grep_doc(&mut h);
    let v = h.call("grep", r#"{"pattern":"line","collection":"docs","max_matches":1}"#);
    assert_eq!(hits(&v).len(), 1, "max_matches caps hits");
    assert_eq!(v["result"]["truncated"], serde_json::Value::Bool(true));
}

#[test]
fn grep_broken_pattern_is_structural_error() {
    let mut h = Harness::new();
    seed_grep_doc(&mut h);
    let v = h.call("grep", r#"{"pattern":"(unclosed","collection":"docs"}"#);
    assert_eq!(v["ok"], serde_json::Value::Bool(false));
    assert_eq!(v["error"]["code"].as_str(), Some(BAD_PATTERN));
    let msg = v["error"]["message"].as_str().unwrap();
    assert!(msg.starts_with("invalid grep pattern: "));
    assert!(msg.contains("unclosed group"), "the engine's message comes along: {msg}");
}

#[test]
fn grep_meta_filtered() {
    let mut h = Harness::new();
    h.call("configure", "{}");
    h.call(
        "index_segments",
        r#"{"collection":"docs","doc_id":"m1","name":"a","meta":{"kind":"manual"},
            "segments":[{"text":"keyword target one"}]}"#,
    );
    h.call(
        "index_segments",
        r#"{"collection":"docs","doc_id":"n1","name":"b","meta":{"kind":"note"},
            "segments":[{"text":"keyword target two"}]}"#,
    );
    h.drain();
    assert!(h.ready("docs"));
    let v = h.call(
        "grep",
        r#"{"pattern":"keyword","collection":"docs","filter":{"all":{"kind":"manual"}}}"#,
    );
    let hs = hits(&v);
    assert_eq!(hs.len(), 1, "meta filter must scope grep");
    assert_eq!(hs[0]["doc_id"].as_str(), Some("m1"));
}

#[test]
fn index_raw_returns_doc_id_and_segment_count() {
    let mut h = Harness::new();
    h.call("configure", "{}");
    let v = h.call("index_raw", r#"{"collection":"raw","name":"manual","text":"line a\nline b\nline c"}"#);
    assert_eq!(v["ok"], serde_json::Value::Bool(true));
    assert_eq!(v["result"]["accepted"], serde_json::Value::Bool(true));
    assert_eq!(v["result"]["collection"].as_str(), Some("raw"));
    let doc_id = v["result"]["doc_id"].as_str().unwrap();
    assert!(!doc_id.is_empty(), "auto doc_id must be returned in the ack");
    assert!(v["result"]["segment_count"].as_u64().unwrap() >= 1);
}

#[test]
fn index_raw_get_segment_works_right_after_accept() {
    let mut h = Harness::new();
    h.call("configure", "{}");
    let v = h.call(
        "index_raw",
        r#"{"collection":"raw","doc_id":"d1","name":"manual",
            "text":"first line\r\nsecond line\r\nthird line\r\nfourth line"}"#,
    );
    assert_eq!(v["result"]["doc_id"].as_str(), Some("d1"));
    let v = h.call("get_segment", r#"{"doc_id":"d1","line_start":2,"line_end":3}"#);
    assert_eq!(v["ok"], serde_json::Value::Bool(true));
    assert_eq!(v["result"]["line_start"].as_u64(), Some(2));
    assert_eq!(v["result"]["line_end"].as_u64(), Some(3));
    assert_eq!(v["result"]["line_count"].as_u64(), Some(4));
    assert_eq!(v["result"]["text"].as_str(), Some("second line\nthird line"));
}

#[test]
fn get_segment_clamps_out_of_range_and_returns_actual() {
    let mut h = Harness::new();
    h.call("configure", "{}");
    h.call("index_raw", r#"{"collection":"raw","doc_id":"d2","name":"n","text":"a\nb\nc"}"#);
    let v = h.call("get_segment", r#"{"doc_id":"d2","line_start":2,"line_end":900}"#);
    assert_eq!(v["result"]["line_start"].as_u64(), Some(2));
    assert_eq!(v["result"]["line_end"].as_u64(), Some(3));
    assert_eq!(v["result"]["text"].as_str(), Some("b\nc"));
    let v = h.call("get_segment", r#"{"doc_id":"d2","line_start":1,"line_end":3,"max_lines":1}"#);
    assert_eq!(v["result"]["line_start"].as_u64(), Some(1));
    assert_eq!(v["result"]["line_end"].as_u64(), Some(1));
    assert_eq!(v["result"]["text"].as_str(), Some("a"));
}

#[test]
fn get_segment_on_atomic_record_is_structural_error() {
    let mut h = Harness::new();
    h.call("configure", "{}");
    h.call(
        "index_segments",
        r#"{"collection":"docs","doc_id":"atomic","name":"a",
            "segments":[{"text":"a segment with no document line index"}]}"#,
    );
    let v = h.call("get_segment", r#"{"doc_id":"atomic","line_start":1,"line_end":1}"#);
    assert_eq!(v["ok"], serde_json::Value::Bool(false));
    assert_eq!(v["error"]["code"].as_str(), Some(NO_LINE_INDEX));
    assert_eq!(
        v["error"]["message"].as_str(),
        Some("doc_id 'atomic' has no line index (not an index_raw document)")
    );
}

#[test]
fn lib_get_segment_unknown_doc_is_not_found() {
    let mut h = Harness::new();
    h.call("configure", "{}");
    let v = h.call("get_segment", r#"{"doc_id":"ghost","line_start":1,"line_end":1}"#);
    assert_eq!(v["ok"], serde_json::Value::Bool(false));
    assert_eq!(v["error"]["code"].as_str(), Some(NOT_FOUND));
    assert_eq!(v["error"]["message"].as_str(), Some("no document with doc_id 'ghost'"));
}

#[test]
fn index_raw_oversized_line_truncates_embed_but_get_segment_returns_whole() {
    let mut h = Harness::new();
    h.call("configure", r#"{"max_seq_len":5}"#);
    let long_line = "word ".repeat(60);
    let payload = format!(
        r#"{{"collection":"raw","doc_id":"ov","name":"oversized","text":"short head\n{}\nshort tail"}}"#,
        long_line.trim()
    );
    let v = h.call("index_raw", &payload);
    assert_eq!(v["ok"], serde_json::Value::Bool(true));
    let v = h.call("get_segment", r#"{"doc_id":"ov","line_start":2,"line_end":2}"#);
    let text = v["result"]["text"].as_str().unwrap();
    assert_eq!(text, long_line.trim(), "get_segment returns the oversized line in full, untruncated");
    h.drain();
    assert!(h.ready("raw"));
}

#[test]
fn keyword_mode_ranks_by_term_match() {
    let mut h = Harness::new();
    h.call("configure", "{}");
    h.call("index_segments", r#"{"collection":"c","doc_id":"m","name":"m","segments":[{"text":"alpha beta gamma"}]}"#);
    h.call("index_segments", r#"{"collection":"c","doc_id":"o","name":"o","segments":[{"text":"alpha delta epsilon"}]}"#);
    h.call("index_segments", r#"{"collection":"c","doc_id":"z","name":"z","segments":[{"text":"nothing relevant here"}]}"#);
    h.drain();
    assert!(h.ready("c"));
    let v = h.call("search", r#"{"query":"alpha beta","collection":"c","mode":"keyword","k":10}"#);
    assert_eq!(v["ok"], serde_json::Value::Bool(true));
    assert_eq!(v["result"]["partial"], serde_json::Value::Bool(false));
    let ids: Vec<String> =
        hits(&v).iter().map(|x| x["doc_id"].as_str().unwrap().to_string()).collect();
    assert_eq!(ids.len(), 2, "only docs containing a query term match");
    assert_eq!(ids[0], "m", "two-term doc outranks one-term doc");
    assert_eq!(ids[1], "o");
    assert!(!ids.contains(&"z".to_string()), "non-matching doc is excluded");
}

#[test]
fn keyword_mode_works_while_building() {
    let mut h = Harness::new();
    h.call("configure", "{}");
    h.call(
        "index_segments",
        r#"{"collection":"c","doc_id":"b1","name":"b","segments":[{"text":"exact token magicword present"}]}"#,
    );
    let v = h.call("search", r#"{"query":"magicword","collection":"c","mode":"keyword","k":5}"#);
    assert_eq!(v["ok"], serde_json::Value::Bool(true));
    let hs = hits(&v);
    assert!(!hs.is_empty(), "keyword works before vectors are ready");
    assert_eq!(hs[0]["doc_id"].as_str(), Some("b1"));
}

#[test]
fn delete_document_removes_from_search_grep_and_get_segment() {
    let mut h = Harness::new();
    h.call("configure", "{}");
    h.call(
        "index_raw",
        r#"{"collection":"c","doc_id":"d1","name":"guide","text":"database connection tuning\nsecond informative line"}"#,
    );
    h.call(
        "index_segments",
        r#"{"collection":"c","doc_id":"d2","name":"keep","segments":[{"text":"keep me around"}]}"#,
    );
    h.drain();
    assert!(h.ready("c"));
    assert!(!hits(&h.call("grep", r#"{"pattern":"database","collection":"c"}"#)).is_empty());
    assert!(!hits(&h.call(
        "search",
        r#"{"query":"database connection","collection":"c","mode":"keyword","k":10}"#
    ))
    .is_empty());
    assert_eq!(
        h.call("get_segment", r#"{"doc_id":"d1","line_start":1,"line_end":1}"#)["ok"],
        serde_json::Value::Bool(true)
    );
    let v = h.call("delete_document", r#"{"doc_id":"d1"}"#);
    assert_eq!(v["ok"], serde_json::Value::Bool(true));
    assert_eq!(v["result"]["deleted"], serde_json::Value::Bool(true));
    assert_eq!(v["result"]["collection"].as_str(), Some("c"));
    assert!(v["result"]["removed_segments"].as_u64().unwrap() >= 1);
    assert_eq!(v["result"]["collection_dropped"], serde_json::Value::Bool(false), "d2 keeps it alive");
    assert!(hits(&h.call("grep", r#"{"pattern":"database","collection":"c"}"#)).is_empty());
    assert!(hits(&h.call(
        "search",
        r#"{"query":"database connection","collection":"c","mode":"keyword","k":10}"#
    ))
    .is_empty());
    let g = h.call("get_segment", r#"{"doc_id":"d1","line_start":1,"line_end":1}"#);
    assert_eq!(g["ok"], serde_json::Value::Bool(false));
    assert_eq!(g["error"]["code"].as_str(), Some(NOT_FOUND));
    assert!(!hits(&h.call("grep", r#"{"pattern":"keep","collection":"c"}"#)).is_empty());
}

#[test]
fn delete_document_drops_empty_collection() {
    let mut h = Harness::new();
    h.call("configure", "{}");
    h.call(
        "index_segments",
        r#"{"collection":"solo","doc_id":"only","name":"n","segments":[{"text":"lonely doc"}]}"#,
    );
    h.drain();
    assert!(h.ready("solo"));
    let v = h.call("delete_document", r#"{"doc_id":"only"}"#);
    assert_eq!(v["result"]["deleted"], serde_json::Value::Bool(true));
    assert_eq!(v["result"]["collection_dropped"], serde_json::Value::Bool(true), "last doc → drop collection");
    let s = h.call("stats", "");
    assert!(s["result"]["collections"].get("solo").is_none(), "empty collection gone from stats");
}

#[test]
fn lib_delete_unknown_document_is_structural_false() {
    let mut h = Harness::new();
    h.call("configure", "{}");
    let v = h.call("delete_document", r#"{"doc_id":"ghost"}"#);
    assert_eq!(v["ok"], serde_json::Value::Bool(true));
    assert_eq!(v["result"]["deleted"], serde_json::Value::Bool(false));
    assert_eq!(v["result"]["removed_segments"].as_u64(), Some(0));
    assert_eq!(v["result"]["collection"], serde_json::Value::Null);
}

#[test]
fn delete_collection_clears_it_and_unknown_is_false() {
    let mut h = Harness::new();
    h.call("configure", "{}");
    h.call("index_segments", r#"{"collection":"c","doc_id":"d1","name":"a","segments":[{"text":"one"},{"text":"two"}]}"#);
    h.call("index_segments", r#"{"collection":"c","doc_id":"d2","name":"b","segments":[{"text":"three"}]}"#);
    h.drain();
    assert!(h.ready("c"));
    let v = h.call("delete_collection", r#"{"collection":"c"}"#);
    assert_eq!(v["ok"], serde_json::Value::Bool(true));
    assert_eq!(v["result"]["deleted"], serde_json::Value::Bool(true));
    assert_eq!(v["result"]["removed_docs"].as_u64(), Some(2));
    assert_eq!(v["result"]["removed_segments"].as_u64(), Some(3));
    assert!(hits(&h.call("search", r#"{"query":"one two three","collection":"c","mode":"keyword","k":10}"#)).is_empty());
    let s = h.call("stats", "");
    assert!(s["result"]["collections"].get("c").is_none());
    let v = h.call("delete_collection", r#"{"collection":"nope"}"#);
    assert_eq!(v["ok"], serde_json::Value::Bool(true));
    assert_eq!(v["result"]["deleted"], serde_json::Value::Bool(false));
    assert_eq!(v["result"]["removed_docs"].as_u64(), Some(0));
}

#[test]
fn delete_document_requires_doc_id() {
    let mut h = Harness::new();
    let v = h.call("delete_document", r#"{}"#);
    assert_eq!(v["ok"], serde_json::Value::Bool(false));
    assert_eq!(v["error"]["code"].as_str(), Some(BAD_PAYLOAD));
}

// ---------------------------------------------------------------------------
// The rest of the protocol
// ---------------------------------------------------------------------------

#[test]
fn ping_echoes_payload() {
    let mut h = Harness::new();
    let v = h.call("ping", r#"{"hello":"world"}"#);
    assert_eq!(v["ok"], serde_json::Value::Bool(true));
    assert_eq!(v["result"]["pong"], serde_json::Value::Bool(true));
    assert_eq!(v["result"]["echo"]["hello"].as_str(), Some("world"));
}

#[test]
fn unknown_method_is_structural_error_not_panic() {
    let mut h = Harness::new();
    let v = h.call("does_not_exist", "");
    assert_eq!(v["ok"], serde_json::Value::Bool(false));
    assert_eq!(v["error"]["code"].as_str(), Some(UNKNOWN_METHOD));
    assert_eq!(v["error"]["message"].as_str(), Some("no such method: 'does_not_exist'"));
}

#[test]
fn reset_and_stats_share_singleton_state() {
    let mut h = Harness::new();
    h.call("configure", "{}");
    h.call("index_segments", r#"{"collection":"c","doc_id":"d","segments":[{"text":"x"}]}"#);
    let r = h.call("reset", "");
    assert_eq!(r["result"]["reset"], serde_json::Value::Bool(true));
    let v = h.call("stats", "");
    assert_eq!(v["ok"], serde_json::Value::Bool(true));
    assert_eq!(v["result"]["configured"], serde_json::Value::Bool(false));
    assert_eq!(v["result"]["dim"].as_u64(), Some(0));
    assert_eq!(v["result"]["n_docs"].as_u64(), Some(0));
    assert!(v["result"]["callsHandled"].as_u64().unwrap() >= 1);
}

#[test]
fn stats_reports_per_collection_counters() {
    let mut h = Harness::new();
    h.call("configure", "{}");
    h.call(
        "index_segments",
        r#"{"collection":"docs","doc_id":"d1","name":"DB guide","meta":{"kind":"manual"},
            "segments":[{"text":"database connection pooling and tuning","line_start":1,"line_end":3},
                        {"text":"banana orange apple smoothie"}]}"#,
    );
    h.drain();
    let v = h.call("stats", "");
    let r = &v["result"];
    assert_eq!(r["configured"], serde_json::Value::Bool(true));
    assert_eq!(r["dim"].as_u64(), Some(64));
    assert_eq!(r["n_docs"].as_u64(), Some(1));
    assert_eq!(r["n_segments"].as_u64(), Some(2));
    let coll = &r["collections"]["docs"];
    assert_eq!(coll["text_ready"], serde_json::Value::Bool(true));
    assert_eq!(coll["vector_status"].as_str(), Some("ready"));
    assert_eq!(coll["embedded"].as_u64(), Some(2));
    assert_eq!(coll["failed"].as_u64(), Some(0));
    assert_eq!(coll["skipped"].as_u64(), Some(0));
    assert_eq!(coll["n_docs"].as_u64(), Some(1));
    assert_eq!(coll["n_segments"].as_u64(), Some(2));
    assert!(coll.get("error").is_none());
}

#[test]
fn keyword_hits_carry_metadata_line_range_and_preview() {
    let mut h = Harness::new();
    h.call("configure", "{}");
    h.call(
        "index_segments",
        r#"{"collection":"docs","doc_id":"d1","name":"DB guide","meta":{"kind":"manual","lang":"en"},
            "segments":[{"text":"database connection pooling and tuning","line_start":1,"line_end":3,"meta":{"lang":"ru"}}]}"#,
    );
    let v = h.call("search", r#"{"query":"database","collection":"docs","mode":"keyword","k":5}"#);
    let hs = hits(&v);
    assert_eq!(hs[0]["name"].as_str(), Some("DB guide"));
    assert_eq!(hs[0]["collection"].as_str(), Some("docs"));
    assert_eq!(hs[0]["meta"]["kind"].as_str(), Some("manual"));
    assert_eq!(hs[0]["meta"]["lang"].as_str(), Some("ru"), "segment meta wins");
    assert_eq!(hs[0]["line_start"].as_u64(), Some(1));
    assert_eq!(hs[0]["line_end"].as_u64(), Some(3));
    assert!(hs[0]["text"].as_str().unwrap().contains("database"));
    let v = h.call(
        "search",
        r#"{"query":"database","collection":"docs","mode":"keyword","k":1,"include_text":false}"#,
    );
    let hs = hits(&v);
    assert!(hs[0].get("text").is_none());
    assert!(hs[0].get("preview").is_some());
}

#[test]
fn search_without_query_is_bad_payload() {
    let mut h = Harness::new();
    let v = h.call("search", r#"{"k":3}"#);
    assert_eq!(v["error"]["code"].as_str(), Some(BAD_PAYLOAD));
    assert_eq!(v["error"]["message"].as_str(), Some("missing 'query'"));
}

#[test]
fn grep_without_pattern_is_bad_payload() {
    let mut h = Harness::new();
    let v = h.call("grep", r#"{"pattern":""}"#);
    assert_eq!(v["error"]["code"].as_str(), Some(BAD_PAYLOAD));
    assert_eq!(v["error"]["message"].as_str(), Some("missing or empty 'pattern'"));
}

#[test]
fn index_segments_reports_missing_segment_text() {
    let mut h = Harness::new();
    let v = h.call("index_segments", r#"{"collection":"c","doc_id":"d","segments":[{"text":"a"},{"meta":{}}]}"#);
    assert_eq!(v["error"]["code"].as_str(), Some(BAD_PAYLOAD));
    assert_eq!(v["error"]["message"].as_str(), Some("segment[1] missing 'text'"));
    let v = h.call("index_segments", r#"{"collection":"  ","doc_id":"d","segments":[]}"#);
    assert_eq!(v["error"]["message"].as_str(), Some("missing or empty 'collection'"));
    let v = h.call("index_segments", r#"{"collection":"c","doc_id":"d"}"#);
    assert_eq!(v["error"]["message"].as_str(), Some("missing 'segments' array"));
}

#[test]
fn index_raw_requires_collection_and_text() {
    let mut h = Harness::new();
    let v = h.call("index_raw", r#"{"text":"x"}"#);
    assert_eq!(v["error"]["message"].as_str(), Some("missing or empty 'collection'"));
    let v = h.call("index_raw", r#"{"collection":"c"}"#);
    assert_eq!(v["error"]["message"].as_str(), Some("missing 'text'"));
}

#[test]
fn configure_rejects_unknown_model() {
    let mut h = Harness::new();
    let v = h.call("configure", r#"{"model":"bge-zzz"}"#);
    assert_eq!(v["ok"], serde_json::Value::Bool(false));
    assert_eq!(v["error"]["code"].as_str(), Some(BAD_MODEL));
    assert!(v["error"]["message"].as_str().unwrap().contains("unknown model 'bge-zzz'"));
    let s = h.call("stats", "");
    assert_eq!(s["result"]["configured"], serde_json::Value::Bool(false), "store untouched");
    let ok = h.call("configure", r#"{"model":" Multilingual-E5-Small "}"#);
    assert_eq!(ok["ok"], serde_json::Value::Bool(true));
}

#[test]
fn list_models_and_collections() {
    let mut h = Harness::new();
    let v = h.call("list_models", "");
    assert_eq!(v["result"]["default"].as_str(), Some("multilingual-e5-small"));
    assert_eq!(v["result"]["models"].as_array().unwrap().len(), 3);
    h.call(
        "index_segments",
        r#"{"collection":"qa","doc_id":"d","collection_description":"steps","segments":[{"text":"a"},{"text":"b"}]}"#,
    );
    h.call("index_segments", r#"{"collection":"empty","doc_id":"e","segments":[]}"#);
    let v = h.call("list_collections", "");
    let cs = v["result"]["collections"].as_array().unwrap().clone();
    assert_eq!(cs.len(), 2);
    assert_eq!(cs[0]["name"].as_str(), Some("qa"));
    assert_eq!(cs[0]["description"].as_str(), Some("steps"));
    assert_eq!(cs[0]["n_docs"].as_u64(), Some(1));
    assert_eq!(cs[0]["n_segments"].as_u64(), Some(2));
    assert_eq!(cs[0]["text_ready"], serde_json::Value::Bool(true));
    assert_eq!(cs[0]["vector_status"].as_str(), Some("building"));
    assert_eq!(cs[1]["vector_status"].as_str(), Some("empty"));
    assert_eq!(cs[1]["description"], serde_json::Value::Null);
    h.drain();
    let v = h.call("list_collections", "");
    assert_eq!(v["result"]["collections"][0]["vector_status"].as_str(), Some("ready"));
}

#[test]
fn envelopes_have_the_protocol_shape() {
    let ok = back(&Envelope::ok(Json::PosInt(7)).into_json());
    assert_eq!(ok["ok"], serde_json::Value::Bool(true));
    assert_eq!(ok["result"].as_u64(), Some(7));
    let err = back(&Envelope::err(BAD_PAYLOAD, "why".to_string()).into_json());
    assert_eq!(err["ok"], serde_json::Value::Bool(false));
    assert_eq!(err["error"]["code"].as_str(), Some("bad_payload"));
    assert_eq!(err["error"]["message"].as_str(), Some("why"));
    assert!(err.get("result").is_none());
}

#[test]
fn json_maps_keep_keys_ordered_and_unique() {
    let mut m = JsonMap::new();
    m.insert("b".to_string(), Json::PosInt(1));
    m.insert("a".to_string(), Json::PosInt(2));
    m.insert("b".to_string(), Json::PosInt(3));
    assert_eq!(m.len(), 2);
    assert_eq!(m.key_at(0), "a");
    assert_eq!(m.key_at(1), "b");
    assert_eq!(m.get("b").and_then(|v| v.as_u64()), Some(3));
    assert!(m.get("c").is_none());
}

#[test]
fn search_scope_accepts_a_collections_array() {
    let mut h = Harness::new();
    h.call("index_segments", r#"{"collection":"a","doc_id":"da","segments":[{"text":"alpha one"}]}"#);
    h.call("index_segments", r#"{"collection":"b","doc_id":"db","segments":[{"text":"alpha two"}]}"#);
    h.call("index_segments", r#"{"collection":"c","doc_id":"dc","segments":[{"text":"alpha three"}]}"#);
    let ids = |v: &serde_json::Value| -> Vec<String> {
        let mut ids: Vec<String> =
            hits(v).iter().map(|x| x["doc_id"].as_str().unwrap().to_string()).collect();
        ids.sort();
        ids
    };
    let v = h.call("search", r#"{"query":"alpha","mode":"keyword","collections":["a","c"]}"#);
    assert_eq!(ids(&v), vec!["da", "dc"]);
    let v = h.call("search", r#"{"query":"alpha","mode":"keyword","collection":"b, c"}"#);
    assert_eq!(ids(&v), vec!["db", "dc"]);
    let v = h.call("search", r#"{"query":"alpha","mode":"keyword"}"#);
    assert_eq!(ids(&v), vec!["da", "db", "dc"]);
    let v = h.call("search", r#"{"query":"alpha","mode":"keyword","collections":[]}"#);
    assert!(ids(&v).is_empty());
}

// ---------------------------------------------------------------------------
// Dense and hybrid search, with the hashing embedder's vectors
// ---------------------------------------------------------------------------

fn sreq(query: &str, collection: Option<&str>, mode: SearchMode, k: usize, max_per_doc: Option<usize>) -> SearchRequest {
    SearchRequest {
        query: query.to_string(),
        collection: collection.map(String::from),
        mode,
        k,
        max_per_doc,
        include_text: true,
        filter: MetaFilter::default(),
    }
}

fn index_texts(h: &mut Harness, collection: &str, doc_id: &str, texts: &[&str]) {
    let segs: Vec<String> = texts.iter().map(|t| format!(r#"{{"text":"{t}"}}"#)).collect();
    let payload = format!(
        r#"{{"collection":"{collection}","doc_id":"{doc_id}","name":"doc {doc_id}","segments":[{}]}}"#,
        segs.join(",")
    );
    let v = h.call("index_segments", &payload);
    assert_eq!(v["ok"], serde_json::Value::Bool(true));
}

#[test]
fn search_finds_shared_token_doc() {
    let mut h = Harness::new();
    index_texts(&mut h, "docs", "db", &["database connection pool tuning"]);
    index_texts(&mut h, "docs", "fruit", &["banana orange apple smoothie"]);
    h.drain();
    assert!(h.ready("docs"));
    let (hits, partial) = h.search(&sreq("database connection", Some("docs"), SearchMode::Dense, 10, None), None);
    assert!(!partial);
    assert!(!hits.is_empty());
    assert_eq!(hits[0].0.doc_id, "db", "db doc should rank first");
}

#[test]
fn search_respects_k_min_score_max_per_doc() {
    let mut h = Harness::new();
    index_texts(&mut h, "docs", "d1", &["alpha beta gamma", "alpha beta delta", "alpha epsilon"]);
    index_texts(&mut h, "docs", "d2", &["alpha beta gamma"]);
    h.drain();
    assert!(h.ready("docs"));
    let (hits, _) = h.search(&sreq("alpha beta gamma", None, SearchMode::Dense, 2, None), None);
    assert_eq!(hits.len(), 2, "k must cap hits");
    let (hits, _) = h.search(&sreq("alpha beta gamma", None, SearchMode::Dense, 10, Some(1)), None);
    let mut counts = std::collections::HashMap::new();
    for (hit, _) in &hits {
        *counts.entry(hit.doc_id.clone()).or_insert(0usize) += 1;
    }
    assert!(counts.values().all(|&n| n <= 1), "max_per_doc must hold");
    let (hits, _) = h.search(&sreq("alpha beta gamma", None, SearchMode::Dense, 10, None), Some(0.99));
    assert!(hits.iter().all(|(_, s)| *s >= 0.99), "all hits must meet min_score");
}

#[test]
fn hybrid_rrf_surfaces_both_keyword_only_and_dense_only_strong_docs() {
    let mut h = Harness::new();
    index_texts(&mut h, "docs", "dwin", &["database connection pooling and tuning guide"]);
    index_texts(&mut h, "docs", "kwin", &["sku7701234567 inventory record"]);
    index_texts(&mut h, "docs", "noise", &["completely irrelevant banana smoothie"]);
    h.drain();
    assert!(h.ready("docs"));
    let (hits, _) = h.search(
        &sreq("database connection sku7701234567", Some("docs"), SearchMode::Hybrid, 50, None),
        None,
    );
    let ids: Vec<&str> = hits.iter().map(|(x, _)| x.doc_id.as_str()).collect();
    assert!(ids.contains(&"dwin"), "dense-strong doc must surface via RRF");
    assert!(ids.contains(&"kwin"), "keyword-strong doc must surface via RRF");
    let pos = |id: &str| ids.iter().position(|x| *x == id);
    if let (Some(k), Some(n)) = (pos("kwin"), pos("noise")) {
        assert!(k < n, "exact-id doc must outrank noise under fusion");
    }
}

#[test]
fn full_pipeline_index_search_stats() {
    let mut h = Harness::new();
    h.call("configure", "{}");
    let v = h.call(
        "index_segments",
        r#"{"collection":"docs","doc_id":"d1","name":"DB guide",
            "meta":{"kind":"manual"},
            "segments":[
              {"text":"database connection pooling and tuning","line_start":1,"line_end":3},
              {"text":"banana orange apple smoothie"}
            ]}"#,
    );
    assert_eq!(v["ok"], serde_json::Value::Bool(true));
    assert_eq!(v["result"]["accepted"], serde_json::Value::Bool(true));
    assert_eq!(v["result"]["collection"].as_str(), Some("docs"));
    assert_eq!(v["result"]["segment_count"].as_u64(), Some(2));
    h.drain();
    assert!(h.ready("docs"));
    let v = h.call("search", r#"{"query":"database connection","collection":"docs","k":5,"include_text":true}"#);
    assert_eq!(v["ok"], serde_json::Value::Bool(true));
    assert_eq!(v["result"]["partial"], serde_json::Value::Bool(false));
    let hs = hits(&v);
    assert!(!hs.is_empty());
    assert_eq!(hs[0]["doc_id"].as_str(), Some("d1"));
    assert_eq!(hs[0]["name"].as_str(), Some("DB guide"));
    assert_eq!(hs[0]["collection"].as_str(), Some("docs"));
    assert_eq!(hs[0]["meta"]["kind"].as_str(), Some("manual"));
    assert!(hs[0]["text"].as_str().unwrap().contains("database"));
    assert_eq!(hs[0]["line_start"].as_u64(), Some(1));
    let v = h.call("search", r#"{"query":"database connection","collection":"docs","k":1,"include_text":false}"#);
    let hs = hits(&v);
    assert!(hs[0].get("text").is_none());
    assert!(hs[0].get("preview").is_some());
    let v = h.call("stats", "");
    let r = &v["result"];
    assert_eq!(r["configured"], serde_json::Value::Bool(true));
    assert!(r["dim"].as_u64().unwrap() > 0);
    assert_eq!(r["n_docs"].as_u64(), Some(1));
    assert_eq!(r["n_segments"].as_u64(), Some(2));
    let coll = &r["collections"]["docs"];
    assert_eq!(coll["text_ready"], serde_json::Value::Bool(true));
    assert_eq!(coll["vector_status"].as_str(), Some("ready"));
    assert_eq!(coll["embedded"].as_u64(), Some(2));
    assert_eq!(coll["failed"].as_u64(), Some(0));
    assert_eq!(coll["skipped"].as_u64(), Some(0));
    assert_eq!(coll["n_docs"].as_u64(), Some(1));
    assert_eq!(coll["n_segments"].as_u64(), Some(2));
}

fn seed_meta_docs(h: &mut Harness) {
    h.call("configure", "{}");
    h.call(
        "index_segments",
        r#"{"collection":"c","doc_id":"en1","name":"english",
            "meta":{"lang":"en","status":"draft"},
            "segments":[{"text":"shared token alpha beta"}]}"#,
    );
    h.call(
        "index_segments",
        r#"{"collection":"c","doc_id":"ru1","name":"russian",
            "meta":{"lang":"ru","status":"published"},
            "segments":[{"text":"shared token alpha beta"}]}"#,
    );
    h.drain();
    assert!(h.ready("c"));
}

#[test]
fn search_meta_filter_all_is_and() {
    let mut h = Harness::new();
    seed_meta_docs(&mut h);
    let v = h.call(
        "search",
        r#"{"query":"shared token","collection":"c","k":10,"filter":{"all":{"lang":"en","status":"draft"}}}"#,
    );
    let hs = hits(&v);
    assert_eq!(hs.len(), 1, "AND filter must select exactly one doc");
    assert_eq!(hs[0]["doc_id"].as_str(), Some("en1"));
}

#[test]
fn search_meta_filter_any_is_or() {
    let mut h = Harness::new();
    seed_meta_docs(&mut h);
    let v = h.call(
        "search",
        r#"{"query":"shared token","collection":"c","k":10,"filter":{"any":{"lang":"ru","status":"draft"}}}"#,
    );
    let hs = hits(&v);
    let ids: Vec<&str> = hs.iter().map(|x| x["doc_id"].as_str().unwrap()).collect();
    assert_eq!(hs.len(), 2, "OR filter should match both");
    assert!(ids.contains(&"en1") && ids.contains(&"ru1"));
}

#[test]
fn search_meta_filter_combined() {
    let mut h = Harness::new();
    seed_meta_docs(&mut h);
    let v = h.call(
        "search",
        r#"{"query":"shared token","collection":"c","k":10,"filter":{"all":{"lang":"en"},"any":{"status":["draft","review"]}}}"#,
    );
    let hs = hits(&v);
    assert_eq!(hs.len(), 1);
    assert_eq!(hs[0]["doc_id"].as_str(), Some("en1"));
    let v = h.call(
        "search",
        r#"{"query":"shared token","collection":"c","k":10,"filter":{"all":{"lang":"en"},"any":{"status":["review"]}}}"#,
    );
    assert!(hits(&v).is_empty());
}

#[test]
fn hybrid_mode_rrf_surfaces_both_channels() {
    let mut h = Harness::new();
    h.call("configure", "{}");
    h.call("index_segments", r#"{"collection":"c","doc_id":"dwin","name":"db","segments":[{"text":"database connection pooling and tuning guide"}]}"#);
    h.call("index_segments", r#"{"collection":"c","doc_id":"kwin","name":"sku","segments":[{"text":"sku7701234567 inventory record"}]}"#);
    h.call("index_segments", r#"{"collection":"c","doc_id":"noise","name":"x","segments":[{"text":"completely irrelevant banana smoothie"}]}"#);
    h.drain();
    assert!(h.ready("c"));
    let v = h.call(
        "search",
        r#"{"query":"database connection sku7701234567","collection":"c","mode":"hybrid","k":10}"#,
    );
    assert_eq!(v["ok"], serde_json::Value::Bool(true));
    let ids: Vec<String> = hits(&v).iter().map(|x| x["doc_id"].as_str().unwrap().to_string()).collect();
    assert!(ids.contains(&"dwin".to_string()), "dense-strong doc must surface");
    assert!(ids.contains(&"kwin".to_string()), "keyword-only-strong doc must surface");
}

#[test]
fn keyword_and_hybrid_honor_filter_k_and_max_per_doc() {
    let mut h = Harness::new();
    h.call("configure", "{}");
    h.call(
        "index_segments",
        r#"{"collection":"c","doc_id":"en1","name":"en","meta":{"lang":"en"},
            "segments":[{"text":"shared keyword one"},{"text":"shared keyword two"}]}"#,
    );
    h.call(
        "index_segments",
        r#"{"collection":"c","doc_id":"ru1","name":"ru","meta":{"lang":"ru"},
            "segments":[{"text":"shared keyword three"},{"text":"shared keyword four"}]}"#,
    );
    h.drain();
    assert!(h.ready("c"));
    let v = h.call(
        "search",
        r#"{"query":"shared keyword","collection":"c","mode":"keyword","k":10,"filter":{"all":{"lang":"en"}}}"#,
    );
    let hs = hits(&v);
    assert!(!hs.is_empty());
    assert!(hs.iter().all(|x| x["doc_id"].as_str() == Some("en1")), "keyword must respect the meta filter");
    let v = h.call("search", r#"{"query":"shared keyword","collection":"c","mode":"keyword","k":1}"#);
    assert_eq!(hits(&v).len(), 1, "k caps keyword");
    let v = h.call(
        "search",
        r#"{"query":"shared keyword","collection":"c","mode":"hybrid","k":10,"max_per_doc":1}"#,
    );
    let mut per_doc = std::collections::HashMap::new();
    for x in hits(&v) {
        *per_doc.entry(x["doc_id"].as_str().unwrap().to_string()).or_insert(0) += 1;
    }
    assert!(per_doc.values().all(|&n| n <= 1), "hybrid must respect max_per_doc");
}

#[test]
fn index_raw_doc_is_greppable_immediately_and_searchable_when_ready() {
    let mut h = Harness::new();
    h.call("configure", "{}");
    h.call(
        "index_raw",
        r#"{"collection":"raw","doc_id":"big","name":"guide",
            "text":"intro paragraph\ndatabase connection pooling and tuning\nunrelated banana smoothie\nclosing notes"}"#,
    );
    let v = h.call("grep", r#"{"pattern":"database","collection":"raw"}"#);
    assert_eq!(v["ok"], serde_json::Value::Bool(true));
    let hs = hits(&v);
    assert!(!hs.is_empty(), "raw-doc text must be greppable right after accept");
    assert_eq!(hs[0]["doc_id"].as_str(), Some("big"));
    h.drain();
    assert!(h.ready("raw"));
    let v = h.call("search", r#"{"query":"database connection","collection":"raw","k":5}"#);
    assert_eq!(v["ok"], serde_json::Value::Bool(true));
    assert_eq!(v["result"]["partial"], serde_json::Value::Bool(false));
    let hs = hits(&v);
    assert!(!hs.is_empty(), "raw-doc chunks must be dense-searchable when ready");
    assert_eq!(hs[0]["doc_id"].as_str(), Some("big"));
    assert!(hs[0]["line_start"].as_u64().is_some());
    assert!(hs[0]["line_end"].as_u64().is_some());
}

#[test]
fn dense_search_before_any_embedder_is_empty() {
    let h = Harness::new();
    let (hits, partial) = h.search(&sreq("anything", None, SearchMode::Dense, 5, None), None);
    assert!(hits.is_empty());
    assert!(!partial);
}

#[test]
fn exhausted_segment_ids_are_an_internal_error() {
    let mut h = Harness::new();
    h.core.next_segment_id = u64::MAX;
    let v = h.call("index_segments", r#"{"collection":"c","doc_id":"d","segments":[{"text":"x"}]}"#);
    assert_eq!(v["ok"], serde_json::Value::Bool(false));
    assert_eq!(v["error"]["code"].as_str(), Some(INTERNAL));
    assert_eq!(v["error"]["message"].as_str(), Some("segment id space exhausted"));
    assert!(h.jobs.is_empty());
    let v = h.call("index_raw", r#"{"collection":"c","text":"x"}"#);
    assert_eq!(v["error"]["code"].as_str(), Some(INTERNAL));
    let v = h.call("index_segments", r#"{"collection":"c","doc_id":"d","segments":[]}"#);
    assert_eq!(v["ok"], serde_json::Value::Bool(true), "no segment needs no id");
}

#[test]
fn hybrid_scores_are_reciprocal_rank_sums() {
    let mut h = Harness::new();
    // One segment found by both channels at rank 0, one only by keyword
    // (its embed text is blank, so it has no vector).
    h.call(
        "index_segments",
        r#"{"collection":"c","doc_id":"both","segments":[{"text":"alpha"}]}"#,
    );
    h.call(
        "index_segments",
        r#"{"collection":"c","doc_id":"kw","segments":[{"text":"alpha beta","embed_text":"  "}]}"#,
    );
    h.drain();
    let (hits, _) = h.search(&sreq("alpha", Some("c"), SearchMode::Hybrid, 10, None), None);
    assert_eq!(hits.len(), 2);
    assert_eq!(hits[0].0.doc_id, "both");
    assert!((hits[0].1 - 2.0 / 60.0).abs() < 1e-6, "1/60 + 1/60, got {}", hits[0].1);
    assert_eq!(hits[1].0.doc_id, "kw");
    assert!((hits[1].1 - 1.0 / 61.0).abs() < 1e-6, "keyword rank 1 only, got {}", hits[1].1);
}

#[test]
fn index_raw_boundary_regex_starts_chunks() {
    let mut h = Harness::new();
    h.call("configure", "{}");
    let v = h.call(
        "index_raw",
        r#"{"collection":"f","doc_id":"spec","text":"Feature: x\nScenario: a\nstep 1\nScenario: b\nstep 2",
            "chunk_cfg":{"target_tokens":100,"boundary_regex":"^Scenario:"}}"#,
    );
    assert_eq!(v["ok"], serde_json::Value::Bool(true));
    // Chunks: line 1, lines 2-3, lines 4-5, and the overlap tail line 5.
    assert_eq!(v["result"]["segment_count"].as_u64(), Some(4));
    let g = h.call("get_segment", r#"{"doc_id":"spec","line_start":2,"line_end":3}"#);
    assert_eq!(g["result"]["text"].as_str(), Some("Scenario: a\nstep 1"));
}

#[test]
fn index_raw_bad_boundary_regex_is_bad_pattern_and_changes_nothing() {
    let mut h = Harness::new();
    h.call("configure", "{}");
    let v = h.call(
        "index_raw",
        r#"{"collection":"c","doc_id":"d","text":"a\nb","chunk_cfg":{"boundary_regex":"(unclosed"}}"#,
    );
    assert_eq!(v["ok"], serde_json::Value::Bool(false));
    assert_eq!(v["error"]["code"].as_str(), Some(BAD_PATTERN));
    let msg = v["error"]["message"].as_str().unwrap();
    assert!(msg.starts_with("invalid boundary_regex: "));
    let l = h.call("list_collections", "{}");
    assert_eq!(l["result"]["collections"].as_array().map(|a| a.len()), Some(0));
    let g = h.call("get_segment", r#"{"doc_id":"d","line_start":1,"line_end":2}"#);
    assert_eq!(g["ok"], serde_json::Value::Bool(false));
}

#[test]
fn trim_memory_reports_whether_an_embedder_exists() {
    let mut h = Harness::new();
    let v = h.call("trim_memory", "{}");
    assert_eq!(v["ok"], serde_json::Value::Bool(true));
    assert_eq!(v["result"]["trimmed"], serde_json::Value::Bool(false));
    h.call("configure", "{}");
    let v = h.call("trim_memory", "{}");
    assert_eq!(v["result"]["trimmed"], serde_json::Value::Bool(true));
    let again = h.call("trim_memory", "{}");
    assert_eq!(again, v, "trimming twice answers the same");
}

#[test]
fn grep_max_per_doc_zero_allows_no_hit() {
    let mut h = Harness::new();
    seed_grep_doc(&mut h);
    let v = h.call("grep", r#"{"pattern":"line","collection":"docs","max_per_doc":0}"#);
    assert_eq!(v["ok"], serde_json::Value::Bool(true));
    assert_eq!(hits(&v).len(), 0);
    let v = h.call("grep", r#"{"pattern":"line","collection":"docs","max_per_doc":1}"#);
    assert_eq!(hits(&v).len(), 1);
}

#[test]
fn keyword_coverage_outranks_repetition() {
    let mut h = Harness::new();
    h.call("configure", "{}");
    let rep = "alpha ".repeat(20);
    let payload = format!(
        r#"{{"collection":"k","doc_id":"rep","segments":[{{"text":"{}"}}]}}"#,
        rep.trim()
    );
    h.call("index_segments", &payload);
    h.call("index_segments", r#"{"collection":"k","doc_id":"both","segments":[{"text":"alpha beta"}]}"#);
    let v = h.call("search", r#"{"query":"alpha beta","collection":"k","mode":"keyword","k":5}"#);
    let hs = hits(&v);
    assert_eq!(hs.len(), 2);
    assert_eq!(hs[0]["doc_id"].as_str(), Some("both"), "two distinct terms beat twenty repeats");
    assert_eq!(hs[1]["doc_id"].as_str(), Some("rep"));
}

#[test]
fn keyword_min_score_keeps_a_score_equal_to_the_floor() {
    let mut h = Harness::new();
    h.call("configure", "{}");
    h.call("index_segments", r#"{"collection":"k","doc_id":"one","segments":[{"text":"alpha"}]}"#);
    let v = h.call("search", r#"{"query":"alpha","collection":"k","mode":"keyword","k":5,"min_score":1.1}"#);
    assert_eq!(hits(&v).len(), 1, "a score of 1.1 meets a floor of 1.1");
    let v = h.call("search", r#"{"query":"alpha","collection":"k","mode":"keyword","k":5,"min_score":1.15}"#);
    assert_eq!(hits(&v).len(), 0);
}
