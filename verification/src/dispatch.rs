//! The method handlers of the JSON protocol: each reads its payload, acts on
//! the store and answers with the envelope the protocol defines.
//!
//! A payload the method cannot read is answered with `bad_payload` and the
//! store left as it was. The work that needs the embedder (turning text into
//! vectors, scoring by similarity) is done by the caller, which hands the
//! library the results.

use vstd::prelude::*;

use crate::grep::{
    compile, grep, grep_answer, regex_compiles, regex_error_message, GrepError, GrepHit, GrepRequest,
    GrepResult,
};
use crate::json::{entries_map, lemma_seq_jv_push, obj, seq_jv, Json, JsonMap, JsonV, jv};
use crate::keyed::{has_key, keyed, keys_distinct, lemma_keyed_push};
use crate::protocol::{
    envelope_v, err_v, ok_v, Envelope, BAD_MODEL, BAD_PATTERN, BAD_PAYLOAD, INTERNAL, NOT_FOUND,
    NO_LINE_INDEX, UNKNOWN_METHOD,
};
use crate::request::{
    chunk_boundary, field_named, field_str, grep_request_of, index_error_of, index_request_of, ostr_view,
    parse_delete_collection_request, parse_delete_document_request, parse_get_segment_request,
    parse_config, parse_grep_request, parse_index_request, parse_raw_index_request,
    parse_search_request, raw_request_of, config_of, search_request_of, segment_request_of,
    segments_arr, segments_ok,
};
use crate::search::{dense_candidates, partial_spec, Hit, SearchMode, SearchRequest, PREVIEW_CHARS};
use crate::store::{
    accept_index, accept_index_raw, coll_deletion, core_wf, delete_collection, delete_document,
    doc_deletion, get_segment, index_accepted, raw_accepted, segment_lookup, AcceptResult, Core,
    DeleteCollectionResult, DeleteDocResult, EmbedJob, GetSegmentError, GetSegmentRequest,
    GetSegmentResult, IndexRequest, RawAcceptResult, RawIndexRequest, cap, coll_entries, colls,
    configure, configured_to, current_dim, doc_total, seg_sum, seg_total, totals, Collection,
    Config, ConfigureResult, VectorStatus,
};
use crate::text::{
    chars_of, copy_str, line_bounds, line_ranges, lower_ascii, normalize_newlines, normalize_nl,
    push_str, str_eq, string_of, to_ascii_lowercase, trim, trimmed, views,
};

verus! {

broadcast use vstd::seq_lib::group_seq_properties;

// ---------------------------------------------------------------------------
// Methods
// ---------------------------------------------------------------------------

/// The methods of the protocol.
#[derive(Clone, Copy, Debug, PartialEq, Eq, Structural)]
pub enum Method {
    Ping,
    Stats,
    Reset,
    Configure,
    IndexSegments,
    IndexRaw,
    GetSegment,
    Search,
    Grep,
    DeleteDocument,
    DeleteCollection,
    ListCollections,
    ListModels,
    TrimMemory,
    Unknown,
}

/// The method a name selects.
pub open spec fn method_for(name: Seq<char>) -> Method {
    if name == "ping"@ {
        Method::Ping
    } else if name == "stats"@ {
        Method::Stats
    } else if name == "reset"@ {
        Method::Reset
    } else if name == "configure"@ {
        Method::Configure
    } else if name == "index_segments"@ {
        Method::IndexSegments
    } else if name == "index_raw"@ {
        Method::IndexRaw
    } else if name == "get_segment"@ {
        Method::GetSegment
    } else if name == "search"@ {
        Method::Search
    } else if name == "grep"@ {
        Method::Grep
    } else if name == "delete_document"@ {
        Method::DeleteDocument
    } else if name == "delete_collection"@ {
        Method::DeleteCollection
    } else if name == "list_collections"@ {
        Method::ListCollections
    } else if name == "list_models"@ {
        Method::ListModels
    } else if name == "trim_memory"@ {
        Method::TrimMemory
    } else {
        Method::Unknown
    }
}

/// Route a method name.
pub fn method_of(name: &str) -> (m: Method)
    ensures
        m == method_for(name@),
{
    if str_eq(name, "ping") {
        Method::Ping
    } else if str_eq(name, "stats") {
        Method::Stats
    } else if str_eq(name, "reset") {
        Method::Reset
    } else if str_eq(name, "configure") {
        Method::Configure
    } else if str_eq(name, "index_segments") {
        Method::IndexSegments
    } else if str_eq(name, "index_raw") {
        Method::IndexRaw
    } else if str_eq(name, "get_segment") {
        Method::GetSegment
    } else if str_eq(name, "search") {
        Method::Search
    } else if str_eq(name, "grep") {
        Method::Grep
    } else if str_eq(name, "delete_document") {
        Method::DeleteDocument
    } else if str_eq(name, "delete_collection") {
        Method::DeleteCollection
    } else if str_eq(name, "list_collections") {
        Method::ListCollections
    } else if str_eq(name, "list_models") {
        Method::ListModels
    } else if str_eq(name, "trim_memory") {
        Method::TrimMemory
    } else {
        Method::Unknown
    }
}

// ---------------------------------------------------------------------------
// Values
// ---------------------------------------------------------------------------

/// An optional string as JSON: the string, or `null`.
pub open spec fn opt_str_v(o: Option<Seq<char>>) -> JsonV {
    match o {
        Some(s) => JsonV::Str(s),
        None => JsonV::Null,
    }
}

/// An optional integer as JSON: the number, or `null`.
pub open spec fn opt_u64_v(o: Option<u64>) -> JsonV {
    match o {
        Some(n) => JsonV::PosInt(n),
        None => JsonV::Null,
    }
}

/// A count as a JSON number.
pub open spec fn count_v(n: usize) -> JsonV {
    JsonV::PosInt(n as u64)
}

fn opt_str_json(o: &Option<String>) -> (j: Json)
    ensures
        jv(j) == opt_str_v(ostr_view(*o)),
{
    match o {
        Some(s) => Json::Str(s.clone()),
        None => Json::Null,
    }
}

fn opt_u64_json(o: Option<u64>) -> (j: Json)
    ensures
        jv(j) == opt_u64_v(o),
{
    match o {
        Some(n) => Json::PosInt(n),
        None => Json::Null,
    }
}

fn count_json(n: usize) -> (j: Json)
    ensures
        jv(j) == count_v(n),
{
    Json::PosInt(n as u64)
}

fn text_json(s: &str) -> (j: Json)
    ensures
        jv(j) == JsonV::Str(s@),
{
    Json::Str(copy_str(s))
}

/// `a` followed by `b` and `c`.
fn concat3(a: &str, b: &str, c: &str) -> (s: String)
    ensures
        s@ == a@ + b@ + c@,
{
    let mut s = copy_str(a);
    push_str(&mut s, b);
    push_str(&mut s, c);
    s
}

// ---------------------------------------------------------------------------
// ping / unknown method / reset
// ---------------------------------------------------------------------------

/// What `ping` answers: `{"pong": true, "echo": <payload>}`.
pub open spec fn pong_v(payload: JsonV) -> JsonV {
    obj(map!["pong"@ => JsonV::Bool(true), "echo"@ => payload])
}

/// Liveness probe: echo the payload back.
pub fn handle_ping(payload: Json) -> (r: Envelope)
    ensures
        envelope_v(r) == ok_v(pong_v(jv(payload))),
{
    let mut m = JsonMap::new();
    m.set("pong", Json::Bool(true));
    m.set("echo", payload);
    Envelope::ok(m.into_value())
}

/// The message of an unknown method.
pub open spec fn unknown_method_msg(name: Seq<char>) -> Seq<char> {
    "no such method: '"@ + name + "'"@
}

/// The answer to a method the protocol does not know.
pub fn handle_unknown_method(name: &str) -> (r: Envelope)
    ensures
        envelope_v(r) == err_v(UNKNOWN_METHOD@, unknown_method_msg(name@)),
{
    Envelope::err(UNKNOWN_METHOD, concat3("no such method: '", name, "'"))
}

/// Clear the store back to its initial state.
pub fn handle_reset<V>(core: &mut Core<V>) -> (r: Envelope)
    ensures
        crate::store::initial(*final(core)),
        core_wf(*final(core)),
        envelope_v(r) == ok_v(obj(map!["reset"@ => JsonV::Bool(true)])),
{
    core.reset();
    let mut m = JsonMap::new();
    m.set("reset", Json::Bool(true));
    Envelope::ok(m.into_value())
}

/// Answer `trim_memory`, the call that lets the embedder give back the
/// memory of its bulk sessions once an ingest is done (the caller, which
/// owns the embedder, releases them). The store is left as it was; the
/// answer says whether there was an embedder to trim (`false` before the
/// first one exists).
pub fn handle_trim_memory<V>(core: &Core<V>) -> (r: Envelope)
    ensures
        envelope_v(r) == ok_v(obj(map!["trimmed"@ => JsonV::Bool(core.embedder_dim is Some)])),
{
    let mut m = JsonMap::new();
    m.set("trimmed", Json::Bool(core.embedder_dim.is_some()));
    Envelope::ok(m.into_value())
}

// ---------------------------------------------------------------------------
// models
// ---------------------------------------------------------------------------

/// The built-in model the embedder falls back to.
pub const DEFAULT_MODEL: &'static str = "multilingual-e5-small";

/// The names of the built-in models, the default first.
pub open spec fn model_names() -> Seq<Seq<char>> {
    seq!["multilingual-e5-small"@, "multilingual-e5-base"@, "multilingual-e5-large"@]
}

/// The built-in model names, the default first.
pub fn supported_model_names() -> (v: Vec<String>)
    ensures
        crate::text::views(v@) == model_names(),
{
    let mut v: Vec<String> = Vec::new();
    v.push(copy_str("multilingual-e5-small"));
    v.push(copy_str("multilingual-e5-base"));
    v.push(copy_str("multilingual-e5-large"));
    assert(crate::text::views(v@) =~= model_names());
    v
}

/// The model a configured name selects: a blank name is the default, any
/// other is matched trimmed and ASCII-case-insensitively against the
/// built-in names; `None` when nothing matches.
pub open spec fn model_choice(name: Seq<char>) -> Option<Seq<char>> {
    let t = trimmed(name);
    let l = lower_ascii(t);
    if t.len() == 0 {
        Some(DEFAULT_MODEL@)
    } else if l == "multilingual-e5-small"@ || l == "multilingual-e5-base"@ || l
        == "multilingual-e5-large"@ {
        Some(l)
    } else {
        None
    }
}

/// The message for a model name not on the list.
pub open spec fn unknown_model_msg(trimmed_name: Seq<char>) -> Seq<char> {
    "unknown model '"@ + trimmed_name
        + "'; supported: multilingual-e5-small, multilingual-e5-base, multilingual-e5-large"@
}

/// Check a model name against the built-in list: the canonical name it
/// selects, or the message naming it and listing the supported ones.
pub fn validate_model_name(name: &str) -> (r: Result<String, String>)
    ensures
        match r {
            Ok(c) => model_choice(name@) == Some(c@),
            Err(msg) => model_choice(name@) is None && msg@ == unknown_model_msg(trimmed(name@)),
        },
{
    let t = trim(name);
    if t.as_str().is_empty() {
        return Ok(copy_str(DEFAULT_MODEL));
    }
    let l = to_ascii_lowercase(t.as_str());
    if str_eq(l.as_str(), "multilingual-e5-small") || str_eq(l.as_str(), "multilingual-e5-base")
        || str_eq(l.as_str(), "multilingual-e5-large") {
        Ok(l)
    } else {
        Err(
            concat3(
                "unknown model '",
                t.as_str(),
                "'; supported: multilingual-e5-small, multilingual-e5-base, multilingual-e5-large",
            ),
        )
    }
}

/// What `list_models` answers: the default and the whole list.
pub open spec fn models_v() -> JsonV {
    obj(
        map![
            "default"@ => JsonV::Str(DEFAULT_MODEL@),
            "models"@ => JsonV::Array(model_names().map_values(|n: Seq<char>| JsonV::Str(n))),
        ],
    )
}

/// List the built-in models.
pub fn handle_list_models() -> (r: Envelope)
    ensures
        envelope_v(r) == ok_v(models_v()),
{
    let mut arr: Vec<Json> = Vec::new();
    arr.push(text_json("multilingual-e5-small"));
    arr.push(text_json("multilingual-e5-base"));
    arr.push(text_json("multilingual-e5-large"));
    proof {
        reveal_with_fuel(crate::json::seq_jv, 4);
        assert(arr@.drop_last().drop_last().drop_last() =~= Seq::<Json>::empty());
        assert(crate::json::seq_jv(arr@) =~= model_names().map_values(
            |n: Seq<char>| JsonV::Str(n),
        ));
    }
    let mut m = JsonMap::new();
    m.set("default", Json::Str(copy_str(DEFAULT_MODEL)));
    m.set("models", Json::Array(arr));
    Envelope::ok(m.into_value())
}

// ---------------------------------------------------------------------------
// delete_document / delete_collection
// ---------------------------------------------------------------------------

/// What `delete_document` answers for the document `doc_id`.
pub open spec fn doc_deleted_v(doc_id: Seq<char>, r: DeleteDocResult) -> JsonV {
    obj(
        map![
            "deleted"@ => JsonV::Bool(r.deleted),
            "doc_id"@ => JsonV::Str(doc_id),
            "collection"@ => opt_str_v(ostr_view(r.collection)),
            "removed_segments"@ => count_v(r.removed_segments),
            "collection_dropped"@ => JsonV::Bool(r.collection_dropped),
        ],
    )
}

/// Delete one document by `doc_id`. An unknown id is answered
/// `deleted: false`, not an error.
pub fn handle_delete_document<V>(core: &mut Core<V>, payload: &Json) -> (r: Envelope)
    requires
        core_wf(*old(core)),
    ensures
        core_wf(*final(core)),
        match field_named(jv(*payload), "doc_id"@) {
            None => envelope_v(r) == err_v(BAD_PAYLOAD@, "missing or empty 'doc_id'"@)
                && *final(core) == *old(core),
            Some(id) => exists|res: DeleteDocResult|
                #[trigger] doc_deletion(*old(core), *final(core), id, res) && envelope_v(r)
                    == ok_v(doc_deleted_v(id, res)),
        },
{
    match parse_delete_document_request(payload) {
        Err(msg) => Envelope::err(BAD_PAYLOAD, msg),
        Ok(doc_id) => {
            let res = delete_document(core, doc_id.as_str());
            let mut m = JsonMap::new();
            m.set("deleted", Json::Bool(res.deleted));
            m.set("doc_id", text_json(doc_id.as_str()));
            m.set("collection", opt_str_json(&res.collection));
            m.set("removed_segments", count_json(res.removed_segments));
            m.set("collection_dropped", Json::Bool(res.collection_dropped));
            let e = Envelope::ok(m.into_value());
            assert(doc_deletion(*old(core), *core, doc_id@, res));
            e
        },
    }
}

/// What `delete_collection` answers for the collection `name`.
pub open spec fn coll_deleted_v(name: Seq<char>, r: DeleteCollectionResult) -> JsonV {
    obj(
        map![
            "deleted"@ => JsonV::Bool(r.deleted),
            "collection"@ => JsonV::Str(name),
            "removed_docs"@ => count_v(r.removed_docs),
            "removed_segments"@ => count_v(r.removed_segments),
        ],
    )
}

/// Delete a whole collection. An unknown name is answered `deleted: false`.
pub fn handle_delete_collection<V>(core: &mut Core<V>, payload: &Json) -> (r: Envelope)
    requires
        core_wf(*old(core)),
    ensures
        core_wf(*final(core)),
        match field_named(jv(*payload), "collection"@) {
            None => envelope_v(r) == err_v(BAD_PAYLOAD@, "missing or empty 'collection'"@)
                && *final(core) == *old(core),
            Some(name) => exists|res: DeleteCollectionResult|
                #[trigger] coll_deletion(*old(core), *final(core), name, res) && envelope_v(r)
                    == ok_v(coll_deleted_v(name, res)),
        },
{
    match parse_delete_collection_request(payload) {
        Err(msg) => Envelope::err(BAD_PAYLOAD, msg),
        Ok(name) => {
            let res = delete_collection(core, name.as_str());
            let mut m = JsonMap::new();
            m.set("deleted", Json::Bool(res.deleted));
            m.set("collection", text_json(name.as_str()));
            m.set("removed_docs", count_json(res.removed_docs));
            m.set("removed_segments", count_json(res.removed_segments));
            let e = Envelope::ok(m.into_value());
            assert(coll_deletion(*old(core), *core, name@, res));
            e
        },
    }
}

// ---------------------------------------------------------------------------
// get_segment
// ---------------------------------------------------------------------------

/// What `get_segment` answers for a slice.
pub open spec fn slice_v(g: GetSegmentResult) -> JsonV {
    obj(
        map![
            "doc_id"@ => JsonV::Str(g.doc_id@),
            "line_start"@ => JsonV::PosInt(g.line_start),
            "line_end"@ => JsonV::PosInt(g.line_end),
            "line_count"@ => JsonV::PosInt(g.line_count),
            "text"@ => JsonV::Str(g.text@),
        ],
    )
}

/// The message for an unknown document.
pub open spec fn not_found_msg(id: Seq<char>) -> Seq<char> {
    "no document with doc_id '"@ + id + "'"@
}

/// The message for a document stored without its full text.
pub open spec fn no_line_index_msg(id: Seq<char>) -> Seq<char> {
    "doc_id '"@ + id + "' has no line index (not an index_raw document)"@
}

/// The envelope a `get_segment` outcome is answered with.
pub open spec fn segment_reply_v(id: Seq<char>, r: Result<GetSegmentResult, GetSegmentError>) -> JsonV {
    match r {
        Ok(g) => ok_v(slice_v(g)),
        Err(GetSegmentError::NotFound) => err_v(NOT_FOUND@, not_found_msg(id)),
        Err(GetSegmentError::NoLineIndex) => err_v(NO_LINE_INDEX@, no_line_index_msg(id)),
    }
}

/// Slice lines of a document ingested whole.
pub fn handle_get_segment<V>(core: &Core<V>, payload: &Json) -> (r: Envelope)
    requires
        core_wf(*core),
    ensures
        match field_named(jv(*payload), "doc_id"@) {
            None => envelope_v(r) == err_v(BAD_PAYLOAD@, "missing or empty 'doc_id'"@),
            Some(id) => exists|req: GetSegmentRequest, res: Result<GetSegmentResult, GetSegmentError>|
                #[trigger] segment_request_of(jv(*payload), req) && #[trigger] segment_lookup(
                    *core,
                    req,
                    res,
                ) && envelope_v(r) == segment_reply_v(id, res),
        },
{
    match parse_get_segment_request(payload) {
        Err(msg) => Envelope::err(BAD_PAYLOAD, msg),
        Ok(req) => {
            let res = get_segment(core, &req);
            let e = match &res {
                Ok(g) => {
                    let mut m = JsonMap::new();
                    m.set("doc_id", text_json(g.doc_id.as_str()));
                    m.set("line_start", Json::PosInt(g.line_start));
                    m.set("line_end", Json::PosInt(g.line_end));
                    m.set("line_count", Json::PosInt(g.line_count));
                    m.set("text", text_json(g.text.as_str()));
                    Envelope::ok(m.into_value())
                },
                Err(GetSegmentError::NotFound) => Envelope::err(
                    NOT_FOUND,
                    concat3("no document with doc_id '", req.doc_id.as_str(), "'"),
                ),
                Err(GetSegmentError::NoLineIndex) => Envelope::err(
                    NO_LINE_INDEX,
                    concat3(
                        "doc_id '",
                        req.doc_id.as_str(),
                        "' has no line index (not an index_raw document)",
                    ),
                ),
            };
            assert(segment_request_of(jv(*payload), req));
            assert(segment_lookup(*core, req, res));
            e
        },
    }
}

// ---------------------------------------------------------------------------
// grep
// ---------------------------------------------------------------------------

/// A list of strings as a JSON array.
pub open spec fn strs_v(s: Seq<Seq<char>>) -> JsonV {
    JsonV::Array(s.map_values(|t: Seq<char>| JsonV::Str(t)))
}

fn strings_json(v: &Vec<String>) -> (j: Json)
    ensures
        jv(j) == strs_v(views(v@)),
{
    let ghost f = |t: Seq<char>| JsonV::Str(t);
    let mut arr: Vec<Json> = Vec::new();
    let mut i: usize = 0;
    while i < v.len()
        invariant
            0 <= i <= v@.len(),
            f == (|t: Seq<char>| JsonV::Str(t)),
            seq_jv(arr@) == views(v@).take(i as int).map_values(f),
        decreases v@.len() - i,
    {
        let ghost before = arr@;
        let x = Json::Str(v[i].clone());
        arr.push(x);
        proof {
            lemma_seq_jv_push(before, x);
            assert(views(v@).take(i + 1).map_values(f) =~= views(v@).take(i as int).map_values(
                f,
            ).push(JsonV::Str(views(v@)[i as int])));
        }
        i = i + 1;
    }
    assert(views(v@).take(v@.len() as int) =~= views(v@));
    Json::Array(arr)
}

/// The object a grep hit is written as; the context lists appear only when
/// they are not empty.
pub open spec fn grep_hit_v(h: GrepHit) -> JsonV {
    let base = map![
        "doc_id"@ => JsonV::Str(h.doc_id@),
        "name"@ => JsonV::Str(h.name@),
        "collection"@ => JsonV::Str(h.collection@),
        "segment_id"@ => JsonV::PosInt(h.segment_id),
        "line_number"@ => count_v(h.line_number),
        "line_text"@ => JsonV::Str(h.line_text@),
    ];
    let m1 = if h.context_before@.len() > 0 {
        base.insert("context_before"@, strs_v(views(h.context_before@)))
    } else {
        base
    };
    let m2 = if h.context_after@.len() > 0 {
        m1.insert("context_after"@, strs_v(views(h.context_after@)))
    } else {
        m1
    };
    obj(m2)
}

/// Write a grep hit as JSON.
pub fn hit_to_json(h: &GrepHit) -> (j: Json)
    ensures
        jv(j) == grep_hit_v(*h),
{
    let mut m = JsonMap::new();
    m.set("doc_id", text_json(h.doc_id.as_str()));
    m.set("name", text_json(h.name.as_str()));
    m.set("collection", text_json(h.collection.as_str()));
    m.set("segment_id", Json::PosInt(h.segment_id));
    m.set("line_number", count_json(h.line_number));
    m.set("line_text", text_json(h.line_text.as_str()));
    if h.context_before.len() > 0 {
        m.set("context_before", strings_json(&h.context_before));
    }
    if h.context_after.len() > 0 {
        m.set("context_after", strings_json(&h.context_after));
    }
    m.into_value()
}

/// The object a grep result is written as.
pub open spec fn grep_result_v(g: GrepResult) -> JsonV {
    obj(
        map![
            "hits"@ => JsonV::Array(g.hits@.map_values(|h: GrepHit| grep_hit_v(h))),
            "truncated"@ => JsonV::Bool(g.truncated),
            "total_found"@ => count_v(g.total_found),
        ],
    )
}

/// The envelope a grep outcome is answered with.
pub open spec fn grep_reply_v(res: Result<GrepResult, GrepError>) -> JsonV {
    match res {
        Ok(g) => ok_v(grep_result_v(g)),
        Err(GrepError::BadPattern(m)) => err_v(BAD_PATTERN@, "invalid grep pattern: "@ + m@),
    }
}

/// A non-empty `pattern` field.
pub open spec fn has_pattern(p: JsonV) -> bool {
    field_str(p, "pattern"@) matches Some(s) && s.len() > 0
}

/// Regex search over the stored text. A pattern that does not compile is
/// answered `bad_pattern`.
pub fn handle_grep<V>(core: &Core<V>, payload: &Json) -> (r: Envelope)
    requires
        core_wf(*core),
    ensures
        !has_pattern(jv(*payload)) ==> envelope_v(r) == err_v(
            BAD_PAYLOAD@,
            "missing or empty 'pattern'"@,
        ),
        has_pattern(jv(*payload)) ==> exists|req: GrepRequest, res: Result<GrepResult, GrepError>|
            #[trigger] grep_request_of(jv(*payload), req) && #[trigger] grep_answer(*core, req, res)
                && envelope_v(r) == grep_reply_v(res),
{
    match parse_grep_request(payload) {
        Err(msg) => Envelope::err(BAD_PAYLOAD, msg),
        Ok(req) => {
            let res = grep(core, &req);
            let ghost res0 = res;
            let e = match res {
                Ok(g) => {
                    let mut hits: Vec<Json> = Vec::new();
                    let mut i: usize = 0;
                    while i < g.hits.len()
                        invariant
                            0 <= i <= g.hits@.len(),
                            seq_jv(hits@) == g.hits@.take(i as int).map_values(
                                |h: GrepHit| grep_hit_v(h),
                            ),
                        decreases g.hits@.len() - i,
                    {
                        let ghost before = hits@;
                        let x = hit_to_json(&g.hits[i]);
                        hits.push(x);
                        proof {
                            lemma_seq_jv_push(before, x);
                            assert(g.hits@.take(i + 1).map_values(|h: GrepHit| grep_hit_v(h))
                                =~= g.hits@.take(i as int).map_values(
                                |h: GrepHit| grep_hit_v(h),
                            ).push(grep_hit_v(g.hits@[i as int])));
                        }
                        i = i + 1;
                    }
                    assert(g.hits@.take(g.hits@.len() as int) =~= g.hits@);
                    let mut m = JsonMap::new();
                    m.set("hits", Json::Array(hits));
                    m.set("truncated", Json::Bool(g.truncated));
                    m.set("total_found", count_json(g.total_found));
                    Envelope::ok(m.into_value())
                },
                Err(GrepError::BadPattern(msg)) => {
                    let mut t = copy_str("invalid grep pattern: ");
                    push_str(&mut t, msg.as_str());
                    Envelope::err(BAD_PATTERN, t)
                },
            };
            assert(grep_request_of(jv(*payload), req));
            assert(grep_answer(*core, req, res0));
            e
        },
    }
}

// ---------------------------------------------------------------------------
// index_segments / index_raw
// ---------------------------------------------------------------------------

/// An `index_segments` payload that can be read.
pub open spec fn index_payload_ok(p: JsonV) -> bool {
    &&& field_named(p, "collection"@) is Some
    &&& field_named(p, "doc_id"@) is Some
    &&& segments_arr(p) matches Some(a) && segments_ok(a)
}

/// What `index_segments` answers once the request is accepted.
pub open spec fn accepted_v(r: AcceptResult) -> JsonV {
    obj(
        map![
            "accepted"@ => JsonV::Bool(true),
            "collection"@ => JsonV::Str(r.collection@),
            "segment_count"@ => count_v(r.segment_count),
        ],
    )
}

/// The message when segment ids would run past `u64::MAX`.
pub open spec fn id_space_msg() -> Seq<char> {
    "segment id space exhausted"@
}

/// Accept a document given as segments. The text is installed at once; the
/// job returned carries the texts to embed, for the caller to run and hand
/// back to `apply_job`.
pub fn handle_index_segments<V>(core: &mut Core<V>, payload: &Json) -> (r: (
    Envelope,
    Option<EmbedJob>,
))
    requires
        core_wf(*old(core)),
    ensures
        core_wf(*final(core)),
        !index_payload_ok(jv(*payload)) ==> r.1 is None && *final(core) == *old(core) && exists|
            msg: Seq<char>,
        |
            #[trigger] index_error_of(jv(*payload), msg) && envelope_v(r.0) == err_v(
                BAD_PAYLOAD@,
                msg,
            ),
        index_payload_ok(jv(*payload)) && old(core).next_segment_id + segments_arr(
            jv(*payload),
        )->0.len() > u64::MAX ==> r.1 is None && *final(core) == *old(core) && envelope_v(r.0)
            == err_v(INTERNAL@, id_space_msg()),
        index_payload_ok(jv(*payload)) && old(core).next_segment_id + segments_arr(
            jv(*payload),
        )->0.len() <= u64::MAX ==> exists|req: IndexRequest, res: (AcceptResult, EmbedJob)|
            #[trigger] index_request_of(jv(*payload), req) && #[trigger] index_accepted(
                *old(core),
                *final(core),
                req,
                res,
            ) && r.1 == Some(res.1) && envelope_v(r.0) == ok_v(accepted_v(res.0)),
{
    match parse_index_request(payload) {
        Err(msg) => {
            let e = Envelope::err(BAD_PAYLOAD, msg);
            assert(index_error_of(jv(*payload), msg@));
            (e, None)
        },
        Ok(req) => {
            let n = req.segments.len();
            let room = u64::MAX - (n as u64);
            if core.next_segment_id > room {
                (Envelope::err(INTERNAL, copy_str("segment id space exhausted")), None)
            } else {
                let ghost req0 = req;
                let res = accept_index(core, req);
                let ghost res0 = res;
                let (acc, job) = res;
                let mut m = JsonMap::new();
                m.set("accepted", Json::Bool(true));
                m.set("collection", text_json(acc.collection.as_str()));
                m.set("segment_count", count_json(acc.segment_count));
                let e = Envelope::ok(m.into_value());
                assert(index_request_of(jv(*payload), req0));
                assert(index_accepted(*old(core), *core, req0, res0));
                (e, Some(job))
            }
        },
    }
}

/// An `index_raw` payload that can be read.
pub open spec fn raw_payload_ok(p: JsonV) -> bool {
    field_named(p, "collection"@) is Some && field_str(p, "text"@) is Some
}

/// The message an unreadable `index_raw` payload gets.
pub open spec fn raw_error_msg(p: JsonV) -> Seq<char> {
    if field_named(p, "collection"@) is None {
        "missing or empty 'collection'"@
    } else {
        "missing 'text'"@
    }
}

/// The segment ids accepting an `index_raw` payload hands out at most: one
/// per line of its normalized text, and one more when no `doc_id` is given.
pub open spec fn raw_ids_of(p: JsonV) -> int {
    line_bounds(normalize_nl(field_str(p, "text"@)->0)).len() + if field_named(p, "doc_id"@) is None {
        1int
    } else {
        0int
    }
}

/// The boundary pattern of an `index_raw` payload, if any, compiles.
pub open spec fn raw_boundary_ok(p: JsonV) -> bool {
    chunk_boundary(p) matches Some(b) ==> regex_compiles(b, false, false)
}

/// The message a boundary pattern that does not compile gets.
pub open spec fn boundary_error_msg(p: JsonV) -> Seq<char> {
    "invalid boundary_regex: "@ + regex_error_message(chunk_boundary(p)->0, false, false)
}

/// What `index_raw` answers once the request is accepted.
pub open spec fn raw_accepted_v(r: RawAcceptResult) -> JsonV {
    obj(
        map![
            "accepted"@ => JsonV::Bool(true),
            "collection"@ => JsonV::Str(r.collection@),
            "doc_id"@ => JsonV::Str(r.doc_id@),
            "segment_count"@ => count_v(r.segment_count),
        ],
    )
}

/// Accept a whole document: it is normalized, indexed by line and chunked
/// at once; the job returned carries the chunk texts to embed. A boundary
/// pattern that does not compile fails the call with `bad_pattern` before
/// the store is touched.
pub fn handle_index_raw<V>(core: &mut Core<V>, payload: &Json) -> (r: (
    Envelope,
    Option<EmbedJob>,
))
    requires
        core_wf(*old(core)),
    ensures
        core_wf(*final(core)),
        !raw_payload_ok(jv(*payload)) ==> r.1 is None && *final(core) == *old(core)
            && envelope_v(r.0) == err_v(BAD_PAYLOAD@, raw_error_msg(jv(*payload))),
        raw_payload_ok(jv(*payload)) && !raw_boundary_ok(jv(*payload)) ==> r.1 is None
            && *final(core) == *old(core) && envelope_v(r.0) == err_v(
            BAD_PATTERN@,
            boundary_error_msg(jv(*payload)),
        ),
        raw_payload_ok(jv(*payload)) && raw_boundary_ok(jv(*payload)) && old(core).next_segment_id
            + raw_ids_of(jv(*payload)) > u64::MAX ==> r.1 is None && *final(core) == *old(core)
            && envelope_v(r.0) == err_v(INTERNAL@, id_space_msg()),
        raw_payload_ok(jv(*payload)) && raw_boundary_ok(jv(*payload)) && old(core).next_segment_id
            + raw_ids_of(jv(*payload)) <= u64::MAX ==> exists|
            req: RawIndexRequest,
            res: (RawAcceptResult, EmbedJob),
        |
            #[trigger] raw_request_of(jv(*payload), req) && #[trigger] raw_accepted(
                *old(core),
                *final(core),
                req,
                res,
            ) && r.1 == Some(res.1) && envelope_v(r.0) == ok_v(raw_accepted_v(res.0)),
{
    match parse_raw_index_request(payload) {
        Err(msg) => (Envelope::err(BAD_PAYLOAD, msg), None),
        Ok(req) => {
            let bad = match &req.boundary_regex {
                Some(b) => match compile(b.as_str(), false, false) {
                    Ok(_) => None,
                    Err(msg) => Some(msg),
                },
                None => None,
            };
            if let Some(msg) = bad {
                let mut t = copy_str("invalid boundary_regex: ");
                push_str(&mut t, msg.as_str());
                return (Envelope::err(BAD_PATTERN, t), None);
            }
            let ft = normalize_newlines(req.text.as_str());
            let chars = chars_of(ft.as_str());
            let lines = line_ranges(&chars).len() as u64;
            let extra: u64 = if req.doc_id.is_none() {
                1
            } else {
                0
            };
            if lines > u64::MAX - extra || core.next_segment_id > u64::MAX - extra - lines {
                (Envelope::err(INTERNAL, copy_str("segment id space exhausted")), None)
            } else {
                let ghost req0 = req;
                let res = accept_index_raw(core, req);
                let ghost res0 = res;
                let (acc, job) = res;
                let mut m = JsonMap::new();
                m.set("accepted", Json::Bool(true));
                m.set("collection", text_json(acc.collection.as_str()));
                m.set("doc_id", text_json(acc.doc_id.as_str()));
                m.set("segment_count", count_json(acc.segment_count));
                let e = Envelope::ok(m.into_value());
                assert(raw_request_of(jv(*payload), req0));
                assert(raw_accepted(*old(core), *core, req0, res0));
                (e, Some(job))
            }
        },
    }
}


// ---------------------------------------------------------------------------
// configure
// ---------------------------------------------------------------------------

/// The `model` field, when present, names a built-in model.
pub open spec fn model_ok(p: JsonV) -> bool {
    field_str(p, "model"@) matches Some(m) ==> model_choice(m) is Some
}

/// Read a `configure` payload. A `model` that is not a built-in one is
/// answered `bad_model` before anything else happens.
pub fn configure_request(payload: &Json) -> (r: Result<Config, Envelope>)
    ensures
        r is Ok <==> model_ok(jv(*payload)),
        r matches Ok(c) ==> config_of(jv(*payload), c),
        r matches Err(e) ==> envelope_v(e) == err_v(
            BAD_MODEL@,
            unknown_model_msg(trimmed(field_str(jv(*payload), "model"@)->0)),
        ),
{
    let config = parse_config(payload);
    let bad = match &config.model {
        Some(m) => match validate_model_name(m.as_str()) {
            Ok(_) => None,
            Err(msg) => Some(msg),
        },
        None => None,
    };
    match bad {
        Some(msg) => Err(Envelope::err(BAD_MODEL, msg)),
        None => Ok(config),
    }
}

/// What `configure` answers: the dimension, whether the index was reset and
/// the settings now in force.
pub open spec fn configured_v(c: Config, r: ConfigureResult) -> JsonV {
    obj(
        map![
            "configured"@ => JsonV::Bool(true),
            "dim"@ => count_v(r.dim),
            "reset"@ => JsonV::Bool(r.reset_due_to_dim_change),
            "model"@ => opt_str_v(ostr_view(c.model)),
            "model_path"@ => opt_str_v(ostr_view(c.model_path)),
            "normalize"@ => JsonV::Bool(c.normalize),
            "max_seq_len"@ => opt_u64_v(c.max_seq_len),
            "device"@ => JsonV::Str(c.device@),
            "intra_threads"@ => opt_u64_v(c.intra_threads),
        ],
    )
}

/// Install `config` with an embedder of dimension `dim` and echo the
/// settings.
pub fn handle_configure<V>(core: &mut Core<V>, config: Config, dim: usize) -> (r: Envelope)
    requires
        core_wf(*old(core)),
    ensures
        core_wf(*final(core)),
        exists|res: ConfigureResult|
            #[trigger] configured_to(*old(core), *final(core), config, dim, res) && envelope_v(r)
                == ok_v(configured_v(config, res)),
{
    let ghost c0 = config;
    let res = configure(core, config, dim);
    let mut m = JsonMap::new();
    m.set("configured", Json::Bool(true));
    m.set("dim", count_json(res.dim));
    m.set("reset", Json::Bool(res.reset_due_to_dim_change));
    m.set("model", opt_str_json(&core.config.model));
    m.set("model_path", opt_str_json(&core.config.model_path));
    m.set("normalize", Json::Bool(core.config.normalize));
    m.set("max_seq_len", opt_u64_json(core.config.max_seq_len));
    m.set("device", text_json(core.config.device.as_str()));
    m.set("intra_threads", opt_u64_json(core.config.intra_threads));
    let e = Envelope::ok(m.into_value());
    assert(configured_to(*old(core), *core, c0, dim, res));
    e
}

// ---------------------------------------------------------------------------
// stats / list_collections
// ---------------------------------------------------------------------------

/// The wire name of a vector status.
pub open spec fn status_name(s: VectorStatus) -> Seq<char> {
    match s {
        VectorStatus::Building => "building"@,
        VectorStatus::Ready => "ready"@,
    }
}

/// The progress counters of one collection; `error` appears only after a
/// fault.
pub open spec fn coll_stats_v<V>(c: Collection<V>) -> JsonV {
    let base = map![
        "text_ready"@ => JsonV::Bool(c.text_ready),
        "vector_status"@ => JsonV::Str(status_name(c.vector_status)),
        "embedded"@ => JsonV::PosInt(c.embedded),
        "failed"@ => JsonV::PosInt(c.failed),
        "skipped"@ => JsonV::PosInt(c.skipped),
        "n_docs"@ => count_v(c.docs@.len() as usize),
        "n_segments"@ => count_v(cap(seg_sum(c.docs@) as int)),
    ];
    obj(
        match c.error {
            Some(e) => base.insert("error"@, JsonV::Str(e@)),
            None => base,
        },
    )
}

fn coll_stats_json<V>(c: &Collection<V>) -> (j: Json)
    ensures
        jv(j) == coll_stats_v(*c),
{
    let mut m = JsonMap::new();
    m.set("text_ready", Json::Bool(c.text_ready));
    m.set("vector_status", text_json(c.vector_status.as_str()));
    m.set("embedded", Json::PosInt(c.embedded));
    m.set("failed", Json::PosInt(c.failed));
    m.set("skipped", Json::PosInt(c.skipped));
    m.set("n_docs", count_json(c.docs.len()));
    m.set("n_segments", count_json(c.n_segments()));
    match &c.error {
        Some(e) => {
            m.set("error", text_json(e.as_str()));
        },
        None => {},
    }
    m.into_value()
}

/// What `stats` answers: whether the store is configured, the dimension,
/// the totals, per-collection counters and the number of calls handled.
pub open spec fn stats_v<V>(core: Core<V>, calls: u64) -> JsonV {
    obj(
        map![
            "configured"@ => JsonV::Bool(core.configured),
            "dim"@ => count_v(
                match core.embedder_dim {
                    Some(x) => x,
                    None => 0,
                },
            ),
            "n_docs"@ => count_v(cap(doc_total(core.collections@) as int)),
            "n_segments"@ => count_v(cap(seg_total(core.collections@) as int)),
            "collections"@ => obj(colls(core).map_values(|c: Collection<V>| coll_stats_v(c))),
            "callsHandled"@ => JsonV::PosInt(calls),
        ],
    )
}

/// A prefix of distinct-key entries has distinct keys and lacks the key
/// that follows it.
proof fn lemma_prefix_keys<T>(s: Seq<(Seq<char>, T)>, i: int)
    requires
        keys_distinct(s),
        0 <= i < s.len(),
    ensures
        keys_distinct(s.take(i)),
        !has_key(s.take(i), s[i].0),
        s.take(i + 1) == s.take(i).push(s[i]),
{
    assert(s.take(i + 1) =~= s.take(i).push(s[i]));
    if has_key(s.take(i), s[i].0) {
        let j = choose|j: int| 0 <= j < s.take(i).len() && #[trigger] s.take(i)[j].0 == s[i].0;
        assert(s[j].0 == s[i].0);
    }
}

/// Report the store's state and the number of calls handled so far.
pub fn handle_stats<V>(core: &Core<V>, calls: u64) -> (r: Envelope)
    requires
        core_wf(*core),
    ensures
        envelope_v(r) == ok_v(stats_v(*core, calls)),
{
    let ghost f = |c: Collection<V>| coll_stats_v(c);
    let ghost all = coll_entries(core.collections@);
    let mut cm = JsonMap::new();
    let mut i: usize = 0;
    while i < core.collections.len()
        invariant
            core_wf(*core),
            all == coll_entries(core.collections@),
            f == (|c: Collection<V>| coll_stats_v(c)),
            0 <= i <= core.collections@.len(),
            cm.wf(),
            entries_map(cm.entries_v()) == keyed(all.take(i as int)).map_values(f),
        decreases core.collections@.len() - i,
    {
        let ghost pre = all.take(i as int);
        let ghost prev_map = entries_map(cm.entries_v());
        cm.set(core.collections[i].0.as_str(), coll_stats_json(&core.collections[i].1));
        proof {
            assert(all[i as int] == (core.collections@[i as int].0@, core.collections@[i as int].1));
            lemma_prefix_keys(all, i as int);
            lemma_keyed_push(pre, all[i as int].0, all[i as int].1);
            assert(keyed(all.take(i + 1)).map_values(f) =~= keyed(pre).map_values(f).insert(
                all[i as int].0,
                f(all[i as int].1),
            ));
        }
        i = i + 1;
    }
    assert(all.take(all.len() as int) =~= all);
    let (docs, segs) = totals(core);
    let mut m = JsonMap::new();
    m.set("configured", Json::Bool(core.configured));
    m.set("dim", count_json(current_dim(core)));
    m.set("n_docs", count_json(docs));
    m.set("n_segments", count_json(segs));
    m.set("collections", cm.into_value());
    m.set("callsHandled", Json::PosInt(calls));
    Envelope::ok(m.into_value())
}

/// The status the collection registry reports: `error` after a fault,
/// `empty` with no segments, otherwise `building` or `ready`.
pub open spec fn registry_status<V>(c: Collection<V>) -> Seq<char> {
    if c.error is Some {
        "error"@
    } else if seg_sum(c.docs@) == 0 {
        "empty"@
    } else {
        status_name(c.vector_status)
    }
}

/// One entry of the collection registry.
pub open spec fn registry_entry_v<V>(name: Seq<char>, c: Collection<V>) -> JsonV {
    obj(
        map![
            "name"@ => JsonV::Str(name),
            "description"@ => opt_str_v(ostr_view(c.description)),
            "n_docs"@ => count_v(c.docs@.len() as usize),
            "n_segments"@ => count_v(cap(seg_sum(c.docs@) as int)),
            "text_ready"@ => JsonV::Bool(c.text_ready),
            "vector_status"@ => JsonV::Str(registry_status(c)),
        ],
    )
}

/// What `list_collections` answers: every collection, in store order.
pub open spec fn registry_v<V>(core: Core<V>) -> JsonV {
    obj(
        map![
            "collections"@ => JsonV::Array(
                core.collections@.map_values(
                    |p: (String, Collection<V>)| registry_entry_v(p.0@, p.1),
                ),
            ),
        ],
    )
}

/// The collection registry: what is searchable, with each collection's
/// description, counts and status.
pub fn handle_list_collections<V>(core: &Core<V>) -> (r: Envelope)
    ensures
        envelope_v(r) == ok_v(registry_v(*core)),
{
    let ghost g = |p: (String, Collection<V>)| registry_entry_v(p.0@, p.1);
    let mut arr: Vec<Json> = Vec::new();
    let mut i: usize = 0;
    while i < core.collections.len()
        invariant
            0 <= i <= core.collections@.len(),
            g == (|p: (String, Collection<V>)| registry_entry_v(p.0@, p.1)),
            seq_jv(arr@) == core.collections@.take(i as int).map_values(g),
        decreases core.collections@.len() - i,
    {
        let name = &core.collections[i].0;
        let c = &core.collections[i].1;
        let n = c.n_segments();
        let status = if c.error.is_some() {
            "error"
        } else if n == 0 {
            "empty"
        } else {
            c.vector_status.as_str()
        };
        let mut m = JsonMap::new();
        m.set("name", text_json(name.as_str()));
        m.set("description", opt_str_json(&c.description));
        m.set("n_docs", count_json(c.docs.len()));
        m.set("n_segments", count_json(n));
        m.set("text_ready", Json::Bool(c.text_ready));
        m.set("vector_status", text_json(status));
        let x = m.into_value();
        let ghost before = arr@;
        arr.push(x);
        proof {
            lemma_seq_jv_push(before, x);
            assert(core.collections@.take(i + 1).map_values(g) =~= core.collections@.take(
                i as int,
            ).map_values(g).push(g(core.collections@[i as int])));
        }
        i = i + 1;
    }
    assert(core.collections@.take(core.collections@.len() as int) =~= core.collections@);
    let mut m = JsonMap::new();
    m.set("collections", Json::Array(arr));
    Envelope::ok(m.into_value())
}

// ---------------------------------------------------------------------------
// search
// ---------------------------------------------------------------------------

/// Read a `search` payload; a payload without a `query` is answered
/// `bad_payload`.
pub fn search_request(payload: &Json) -> (r: Result<SearchRequest, Envelope>)
    ensures
        r is Ok <==> field_str(jv(*payload), "query"@) is Some,
        r matches Ok(req) ==> search_request_of(jv(*payload), req),
        r matches Err(e) ==> envelope_v(e) == err_v(BAD_PAYLOAD@, "missing 'query'"@),
{
    match parse_search_request(payload) {
        Ok(req) => Ok(req),
        Err(msg) => Err(Envelope::err(BAD_PAYLOAD, msg)),
    }
}

/// The first [`PREVIEW_CHARS`] characters of a text.
pub open spec fn preview(t: Seq<char>) -> Seq<char> {
    if t.len() <= PREVIEW_CHARS {
        t
    } else {
        t.take(PREVIEW_CHARS as int)
    }
}

/// The object a search hit with `score` is written as: the full text, or
/// only a preview of it; the line range only where the segment has one.
pub open spec fn search_hit_v(h: Hit, score: JsonV, include_text: bool) -> JsonV {
    let base = map![
        "doc_id"@ => JsonV::Str(h.doc_id@),
        "name"@ => JsonV::Str(h.name@),
        "collection"@ => JsonV::Str(h.collection@),
        "meta"@ => jv(h.meta),
        "segment_id"@ => JsonV::PosInt(h.segment_id),
        "score"@ => score,
    ];
    let m1 = match h.line_start {
        Some(v) => base.insert("line_start"@, JsonV::PosInt(v)),
        None => base,
    };
    let m2 = match h.line_end {
        Some(v) => m1.insert("line_end"@, JsonV::PosInt(v)),
        None => m1,
    };
    obj(
        if include_text {
            m2.insert("text"@, JsonV::Str(h.text@))
        } else {
            m2.insert("preview"@, JsonV::Str(preview(h.text@)))
        },
    )
}

/// Write a search hit with its score as JSON.
pub fn search_hit_json(h: &Hit, score: Json, include_text: bool) -> (j: Json)
    ensures
        jv(j) == search_hit_v(*h, jv(score), include_text),
{
    let mut m = JsonMap::new();
    m.set("doc_id", text_json(h.doc_id.as_str()));
    m.set("name", text_json(h.name.as_str()));
    m.set("collection", text_json(h.collection.as_str()));
    m.set("meta", h.meta.deep_copy());
    m.set("segment_id", Json::PosInt(h.segment_id));
    m.set("score", score);
    match h.line_start {
        Some(v) => {
            m.set("line_start", Json::PosInt(v));
        },
        None => {},
    }
    match h.line_end {
        Some(v) => {
            m.set("line_end", Json::PosInt(v));
        },
        None => {},
    }
    if include_text {
        m.set("text", text_json(h.text.as_str()));
    } else {
        let cs = chars_of(h.text.as_str());
        let p = if cs.len() <= PREVIEW_CHARS {
            copy_str(h.text.as_str())
        } else {
            string_of(&cs, 0, PREVIEW_CHARS)
        };
        m.set("preview", Json::Str(p));
    }
    m.into_value()
}

/// What `search` answers: the hits, and whether some collection searched
/// was still building its vectors.
pub open spec fn search_result_v(hits: Seq<JsonV>, partial: bool) -> JsonV {
    obj(map!["hits"@ => JsonV::Array(hits), "partial"@ => JsonV::Bool(partial)])
}

/// The envelope of a search's hits.
pub fn search_reply(hits: Vec<Json>, partial: bool) -> (r: Envelope)
    ensures
        envelope_v(r) == ok_v(search_result_v(seq_jv(hits@), partial)),
{
    let mut m = JsonMap::new();
    m.set("hits", Json::Array(hits));
    m.set("partial", Json::Bool(partial));
    Envelope::ok(m.into_value())
}


/// Whether a search's results may be incomplete: a search that reads
/// vectors (dense or hybrid) over a collection still building them.
pub fn search_partial<V>(core: &Core<V>, req: &SearchRequest) -> (p: bool)
    ensures
        p == (req.mode != SearchMode::Keyword && core.embedder_dim is Some && partial_spec(
            *core,
            *req,
        )),
{
    match req.mode {
        SearchMode::Keyword => false,
        _ => dense_candidates(core, req).1,
    }
}

} // verus!
