//! Reading typed requests out of JSON payloads. Each parser returns the
//! request, or the message of a `bad_payload` error.

use vstd::prelude::*;

use crate::filter::MetaFilter;
use crate::grep::GrepRequest;
use crate::json::{jget, jstr, ju64, jbool, jv, Json, JsonMap, JsonV};
use crate::search::{mode_of, SearchMode, SearchRequest};
use crate::store::{
    Config, GetSegmentRequest, IndexRequest, RawIndexRequest, SegmentInput,
};
use crate::text::{blank, copy_str, decimal, decimal_string, is_blank, push_str};

verus! {

broadcast use vstd::seq_lib::group_seq_properties;

/// The string field `key` of a payload.
pub open spec fn field_str(p: JsonV, key: Seq<char>) -> Option<Seq<char>> {
    match jget(p, key) {
        Some(v) => jstr(v),
        None => None,
    }
}

/// The non-negative integer field `key` of a payload.
pub open spec fn field_u64(p: JsonV, key: Seq<char>) -> Option<u64> {
    match jget(p, key) {
        Some(v) => ju64(v),
        None => None,
    }
}

/// The boolean field `key` of a payload, or `default`.
pub open spec fn field_bool(p: JsonV, key: Seq<char>, default: bool) -> bool {
    match jget(p, key) {
        Some(v) => match jbool(v) {
            Some(b) => b,
            None => default,
        },
        None => default,
    }
}

/// The string field `key`, when present and not blank.
pub open spec fn field_named(p: JsonV, key: Seq<char>) -> Option<Seq<char>> {
    match field_str(p, key) {
        Some(s) => if blank(s) {
            None
        } else {
            Some(s)
        },
        None => None,
    }
}

/// The metadata field `key`: its value when an object, else an empty object.
pub open spec fn field_meta(p: JsonV, key: Seq<char>) -> JsonV {
    match jget(p, key) {
        Some(JsonV::Object(s)) => JsonV::Object(s),
        _ => JsonV::Object(Seq::empty()),
    }
}

/// The optional string field as a `String` view.
pub open spec fn ostr_view(o: Option<String>) -> Option<Seq<char>> {
    match o {
        Some(s) => Some(s@),
        None => None,
    }
}

/// The string field `key` of a payload, copied.
pub fn opt_str(v: &Json, key: &str) -> (r: Option<String>)
    ensures
        ostr_view(r) == field_str(jv(*v), key@),
{
    match v.get(key) {
        Some(x) => match x.as_str() {
            Some(s) => Some(copy_str(s.as_str())),
            None => None,
        },
        None => None,
    }
}

/// The non-negative integer field `key` of a payload.
pub fn opt_u64(v: &Json, key: &str) -> (r: Option<u64>)
    ensures
        r == field_u64(jv(*v), key@),
{
    match v.get(key) {
        Some(x) => x.as_u64(),
        None => None,
    }
}

/// The boolean field `key` of a payload, or `default`.
pub fn bool_or(v: &Json, key: &str, default: bool) -> (r: bool)
    ensures
        r == field_bool(jv(*v), key@, default),
{
    match v.get(key) {
        Some(x) => match x.as_bool() {
            Some(b) => b,
            None => default,
        },
        None => default,
    }
}

/// The string field `key`, when present and not blank.
pub fn opt_named(v: &Json, key: &str) -> (r: Option<String>)
    ensures
        ostr_view(r) == field_named(jv(*v), key@),
{
    match opt_str(v, key) {
        Some(s) => if is_blank(s.as_str()) {
            None
        } else {
            Some(s)
        },
        None => None,
    }
}

/// The metadata field `key`: a copy of its value when an object, else an
/// empty object.
pub fn meta_or_empty(v: &Json, key: &str) -> (r: Json)
    ensures
        jv(r) == field_meta(jv(*v), key@),
{
    match v.get(key) {
        Some(m) => if m.is_object() {
            m.deep_copy()
        } else {
            Json::Object(JsonMap::new())
        },
        None => Json::Object(JsonMap::new()),
    }
}

/// An error message.
fn message(s: &str) -> (r: String)
    ensures
        r@ == s@,
{
    copy_str(s)
}

/// The optional `u64` as a `usize` (`as usize`).
pub open spec fn as_usize(o: Option<u64>) -> Option<usize> {
    match o {
        Some(v) => Some(v as usize),
        None => None,
    }
}

fn to_usize(o: Option<u64>) -> (r: Option<usize>)
    ensures
        r == as_usize(o),
{
    match o {
        Some(v) => Some(v as usize),
        None => None,
    }
}

// ---------------------------------------------------------------------------
// configure
// ---------------------------------------------------------------------------

/// `c` is the configuration payload `p` describes.
pub open spec fn config_of(p: JsonV, c: Config) -> bool {
    &&& ostr_view(c.model) == field_str(p, "model"@)
    &&& ostr_view(c.model_path) == field_str(p, "model_path"@)
    &&& c.normalize == field_bool(p, "normalize"@, true)
    &&& c.max_seq_len == field_u64(p, "max_seq_len"@)
    &&& c.device@ == match field_str(p, "device"@) {
        Some(d) => d,
        None => "auto"@,
    }
    &&& c.intra_threads == field_u64(p, "intra_threads"@)
    &&& c.embed_workers == field_u64(p, "embed_workers"@)
}

/// Read a `configure` payload. Every field is optional: `normalize`
/// defaults to `true` and `device` to `"auto"`.
pub fn parse_config(payload: &Json) -> (c: Config)
    ensures
        config_of(jv(*payload), c),
{
    let device = match opt_str(payload, "device") {
        Some(d) => d,
        None => message("auto"),
    };
    Config {
        model: opt_str(payload, "model"),
        model_path: opt_str(payload, "model_path"),
        normalize: bool_or(payload, "normalize", true),
        max_seq_len: opt_u64(payload, "max_seq_len"),
        device,
        intra_threads: opt_u64(payload, "intra_threads"),
        embed_workers: opt_u64(payload, "embed_workers"),
    }
}

// ---------------------------------------------------------------------------
// index_segments / index_raw
// ---------------------------------------------------------------------------

/// The message for a segment without text.
pub open spec fn missing_text_msg(i: nat) -> Seq<char> {
    "segment["@ + decimal(i) + "] missing 'text'"@
}

/// Element `i` is the first of `a` without a string `text`.
pub open spec fn missing_at(a: Seq<JsonV>, i: nat) -> bool {
    &&& i < a.len()
    &&& field_str(a[i as int], "text"@) is None
    &&& forall|j: int| 0 <= j < i ==> field_str(#[trigger] a[j], "text"@) is Some
}

/// The segment inputs a payload's `segments` array describes, or the index
/// of the first element without a string `text`.
pub open spec fn segments_ok(a: Seq<JsonV>) -> bool {
    forall|i: int| 0 <= i < a.len() ==> field_str(#[trigger] a[i], "text"@) is Some
}

/// Input `s` was read from element `e` of `segments`.
pub open spec fn input_from(s: SegmentInput, e: JsonV) -> bool {
    &&& Some(s.text@) == field_str(e, "text"@)
    &&& ostr_view(s.embed_text) == field_str(e, "embed_text"@)
    &&& s.line_start == field_u64(e, "line_start"@)
    &&& s.line_end == field_u64(e, "line_end"@)
    &&& jv(s.meta) == field_meta(e, "meta"@)
}

/// The `segments` array of a payload.
pub open spec fn segments_arr(p: JsonV) -> Option<Seq<JsonV>> {
    match jget(p, "segments"@) {
        Some(JsonV::Array(a)) => Some(a),
        _ => None,
    }
}

/// `req` is the `index_segments` request payload `p` describes.
pub open spec fn index_request_of(p: JsonV, req: IndexRequest) -> bool {
    &&& field_named(p, "collection"@) == Some(req.collection@)
    &&& field_named(p, "doc_id"@) == Some(req.doc_id@)
    &&& req.name@ == match field_str(p, "name"@) {
        Some(n) => n,
        None => Seq::empty(),
    }
    &&& jv(req.meta) == field_meta(p, "meta"@)
    &&& ostr_view(req.description) == field_str(p, "collection_description"@)
    &&& (segments_arr(p) matches Some(a) && a.len() == req.segments@.len() && forall|i: int|
        0 <= i < a.len() ==> input_from(#[trigger] req.segments@[i], a[i]))
}

/// `msg` is the error an invalid `index_segments` payload `p` gets: the
/// first missing field, in the order collection, doc id, segments, and the
/// text of each segment.
pub open spec fn index_error_of(p: JsonV, msg: Seq<char>) -> bool {
    if field_named(p, "collection"@) is None {
        msg == "missing or empty 'collection'"@
    } else if field_named(p, "doc_id"@) is None {
        msg == "missing or empty 'doc_id' (required for upsert/delete)"@
    } else if segments_arr(p) is None {
        msg == "missing 'segments' array"@
    } else {
        exists|i: nat| #[trigger] missing_at(segments_arr(p)->0, i) && msg == missing_text_msg(i)
    }
}

proof fn lemma_index_error(p: JsonV, a: Seq<JsonV>, i: nat, m: Seq<char>)
    requires
        field_named(p, "collection"@) is Some,
        field_named(p, "doc_id"@) is Some,
        segments_arr(p) == Some(a),
        missing_at(a, i),
        m == missing_text_msg(i),
    ensures
        index_error_of(p, m),
{
    assert(missing_at(segments_arr(p)->0, i));
}

/// Read an `index_segments` payload: `collection` and `doc_id` are required
/// and not blank; `segments` is a required array whose every element has a
/// string `text`; `name` defaults to empty and `meta` to an empty object;
/// `collection_description` labels the collection.
pub fn parse_index_request(payload: &Json) -> (r: Result<IndexRequest, String>)
    ensures
        r matches Ok(req) ==> index_request_of(jv(*payload), req),
        r matches Err(msg) ==> index_error_of(jv(*payload), msg@),
        r is Ok <==> (field_named(jv(*payload), "collection"@) is Some && field_named(
            jv(*payload),
            "doc_id"@,
        ) is Some && (segments_arr(jv(*payload)) matches Some(a) && segments_ok(a))),
{
    let collection = match opt_named(payload, "collection") {
        Some(c) => c,
        None => {
            return Err(message("missing or empty 'collection'"));
        },
    };
    let doc_id = match opt_named(payload, "doc_id") {
        Some(d) => d,
        None => {
            return Err(message("missing or empty 'doc_id' (required for upsert/delete)"));
        },
    };
    let name = match opt_str(payload, "name") {
        Some(n) => n,
        None => String::new(),
    };
    let meta = meta_or_empty(payload, "meta");
    let arr = match payload.get("segments") {
        Some(s) => match s.as_array() {
            Some(a) => a,
            None => {
                return Err(message("missing 'segments' array"));
            },
        },
        None => {
            return Err(message("missing 'segments' array"));
        },
    };
    let ghost a = crate::json::seq_jv(arr@);
    proof {
        crate::json::lemma_seq_jv(arr@);
        assert(segments_arr(jv(*payload)) == Some(a));
    }
    let mut segments: Vec<SegmentInput> = Vec::new();
    let mut i: usize = 0;
    while i < arr.len()
        invariant
            segments_arr(jv(*payload)) == Some(a),
            field_named(jv(*payload), "collection"@) is Some,
            field_named(jv(*payload), "doc_id"@) is Some,
            a == crate::json::seq_jv(arr@),
            a.len() == arr@.len(),
            forall|k: int| 0 <= k < a.len() ==> #[trigger] a[k] == jv(arr@[k]),
            0 <= i <= arr@.len(),
            segments@.len() == i,
            forall|k: int| 0 <= k < i ==> input_from(#[trigger] segments@[k], a[k]),
            forall|k: int| 0 <= k < i ==> field_str(#[trigger] a[k], "text"@) is Some,
        decreases arr@.len() - i,
    {
        let e = &arr[i];
        let text = match opt_str(e, "text") {
            Some(t) => t,
            None => {
                let mut m = String::new();
                push_str(&mut m, "segment[");
                let digits = decimal_string(i as u64);
                push_str(&mut m, digits.as_str());
                push_str(&mut m, "] missing 'text'");
                proof {
                    assert(m@ =~= missing_text_msg(i as nat));
                    assert(field_str(a[i as int], "text"@) is None);
                    assert(!segments_ok(a));
                    assert(missing_at(a, i as nat));
                    lemma_index_error(jv(*payload), a, i as nat, m@);
                }
                return Err(m);
            },
        };
        segments.push(
            SegmentInput {
                text,
                embed_text: opt_str(e, "embed_text"),
                line_start: opt_u64(e, "line_start"),
                line_end: opt_u64(e, "line_end"),
                meta: meta_or_empty(e, "meta"),
            },
        );
        i = i + 1;
    }
    let description = opt_str(payload, "collection_description");
    Ok(IndexRequest { collection, doc_id, name, meta, segments, description })
}

/// The chunker override `key` of a payload's `chunk_cfg` object.
pub open spec fn chunk_field(p: JsonV, key: Seq<char>) -> Option<usize> {
    match jget(p, "chunk_cfg"@) {
        Some(c) => as_usize(field_u64(c, key)),
        None => None,
    }
}

/// The boundary pattern of a payload's `chunk_cfg` object (a blank one
/// counts as absent).
pub open spec fn chunk_boundary(p: JsonV) -> Option<Seq<char>> {
    match jget(p, "chunk_cfg"@) {
        Some(c) => field_named(c, "boundary_regex"@),
        None => None,
    }
}

/// `req` is the `index_raw` request payload `p` describes.
pub open spec fn raw_request_of(p: JsonV, req: RawIndexRequest) -> bool {
    &&& field_named(p, "collection"@) == Some(req.collection@)
    &&& ostr_view(req.doc_id) == field_named(p, "doc_id"@)
    &&& req.name@ == match field_str(p, "name"@) {
        Some(n) => n,
        None => Seq::empty(),
    }
    &&& jv(req.meta) == field_meta(p, "meta"@)
    &&& field_str(p, "text"@) == Some(req.text@)
    &&& req.target_tokens == chunk_field(p, "target_tokens"@)
    &&& req.max_tokens == chunk_field(p, "max_tokens"@)
    &&& req.overlap_lines == chunk_field(p, "overlap_lines"@)
    &&& ostr_view(req.boundary_regex) == chunk_boundary(p)
    &&& ostr_view(req.description) == field_str(p, "collection_description"@)
}

/// Read an `index_raw` payload: `collection` is required and not blank;
/// `text` is required (an empty string is allowed); `doc_id` is optional
/// (a blank one counts as absent); `name` defaults to empty and `meta` to an
/// empty object; `chunk_cfg` may override `target_tokens`, `max_tokens`
/// and `overlap_lines` and give a `boundary_regex` (a blank one counts as
/// absent); `collection_description` labels the collection.
pub fn parse_raw_index_request(payload: &Json) -> (r: Result<RawIndexRequest, String>)
    ensures
        ({
            let p = jv(*payload);
            match r {
                Ok(req) => raw_request_of(p, req),
                Err(msg) => if field_named(p, "collection"@) is None {
                    msg@ == "missing or empty 'collection'"@
                } else {
                    msg@ == "missing 'text'"@
                },
            }
        }),
        r is Ok <==> (field_named(jv(*payload), "collection"@) is Some && field_str(
            jv(*payload),
            "text"@,
        ) is Some),
{
    let collection = match opt_named(payload, "collection") {
        Some(c) => c,
        None => {
            return Err(message("missing or empty 'collection'"));
        },
    };
    let doc_id = opt_named(payload, "doc_id");
    let name = match opt_str(payload, "name") {
        Some(n) => n,
        None => String::new(),
    };
    let meta = meta_or_empty(payload, "meta");
    let text = match opt_str(payload, "text") {
        Some(t) => t,
        None => {
            return Err(message("missing 'text'"));
        },
    };
    let (target_tokens, max_tokens, overlap_lines, boundary_regex) = match payload.get("chunk_cfg") {
        Some(c) => (
            to_usize(opt_u64(c, "target_tokens")),
            to_usize(opt_u64(c, "max_tokens")),
            to_usize(opt_u64(c, "overlap_lines")),
            opt_named(c, "boundary_regex"),
        ),
        None => (None, None, None, None),
    };
    let description = opt_str(payload, "collection_description");
    Ok(
        RawIndexRequest {
            collection,
            doc_id,
            name,
            meta,
            text,
            target_tokens,
            max_tokens,
            overlap_lines,
            boundary_regex,
            description,
        },
    )
}

// ---------------------------------------------------------------------------
// get_segment / delete
// ---------------------------------------------------------------------------

/// `req` is the `get_segment` request payload `p` describes.
pub open spec fn segment_request_of(p: JsonV, req: GetSegmentRequest) -> bool {
    let ls = match field_u64(p, "line_start"@) {
        Some(v) => v,
        None => 1,
    };
    &&& field_named(p, "doc_id"@) == Some(req.doc_id@)
    &&& req.line_start == ls
    &&& req.line_end == match field_u64(p, "line_end"@) {
        Some(v) => v,
        None => ls,
    }
    &&& req.max_lines == as_usize(field_u64(p, "max_lines"@))
}

/// Read a `get_segment` payload: `doc_id` is required and not blank;
/// `line_start` defaults to 1 and `line_end` to `line_start`.
pub fn parse_get_segment_request(payload: &Json) -> (r: Result<GetSegmentRequest, String>)
    ensures
        ({
            let p = jv(*payload);
            match r {
                Ok(req) => segment_request_of(p, req),
                Err(msg) => field_named(p, "doc_id"@) is None && msg@ == "missing or empty 'doc_id'"@,
            }
        }),
        r is Ok <==> field_named(jv(*payload), "doc_id"@) is Some,
{
    let doc_id = match opt_named(payload, "doc_id") {
        Some(d) => d,
        None => {
            return Err(message("missing or empty 'doc_id'"));
        },
    };
    let line_start = match opt_u64(payload, "line_start") {
        Some(v) => v,
        None => 1,
    };
    let line_end = match opt_u64(payload, "line_end") {
        Some(v) => v,
        None => line_start,
    };
    let max_lines = to_usize(opt_u64(payload, "max_lines"));
    Ok(GetSegmentRequest { doc_id, line_start, line_end, max_lines })
}

/// Read a `delete_document` payload: the required, non-blank `doc_id`.
pub fn parse_delete_document_request(payload: &Json) -> (r: Result<String, String>)
    ensures
        match r {
            Ok(d) => field_named(jv(*payload), "doc_id"@) == Some(d@),
            Err(msg) => field_named(jv(*payload), "doc_id"@) is None && msg@
                == "missing or empty 'doc_id'"@,
        },
{
    match opt_named(payload, "doc_id") {
        Some(d) => Ok(d),
        None => Err(message("missing or empty 'doc_id'")),
    }
}

/// Read a `delete_collection` payload: the required, non-blank `collection`.
pub fn parse_delete_collection_request(payload: &Json) -> (r: Result<String, String>)
    ensures
        match r {
            Ok(c) => field_named(jv(*payload), "collection"@) == Some(c@),
            Err(msg) => field_named(jv(*payload), "collection"@) is None && msg@
                == "missing or empty 'collection'"@,
        },
{
    match opt_named(payload, "collection") {
        Some(c) => Ok(c),
        None => Err(message("missing or empty 'collection'")),
    }
}

// ---------------------------------------------------------------------------
// search / grep
// ---------------------------------------------------------------------------

/// `o` or `default`, and at least `lo`.
pub open spec fn or_at_least(o: Option<usize>, default: usize, lo: usize) -> usize {
    let v = match o {
        Some(x) => x,
        None => default,
    };
    if v >= lo {
        v
    } else {
        lo
    }
}

/// Names joined with commas.
pub open spec fn comma_joined(parts: Seq<Seq<char>>) -> Seq<char>
    decreases parts.len(),
{
    if parts.len() == 0 {
        Seq::empty()
    } else if parts.len() == 1 {
        parts[0]
    } else {
        comma_joined(parts.drop_last()) + seq![','] + parts.last()
    }
}

/// The collections a search is scoped to: its `collection` string (a
/// comma-separated list), else the strings of its `collections` array
/// joined with commas; `None` means every collection.
pub open spec fn search_scope(p: JsonV) -> Option<Seq<char>> {
    match field_str(p, "collection"@) {
        Some(c) => Some(c),
        None => match jget(p, "collections"@) {
            Some(JsonV::Array(a)) => Some(comma_joined(crate::filter::str_elems(a))),
            _ => None,
        },
    }
}

/// The scope of a search payload.
fn scope_of(payload: &Json) -> (r: Option<String>)
    ensures
        ostr_view(r) == search_scope(jv(*payload)),
{
    match opt_str(payload, "collection") {
        Some(c) => Some(c),
        None => match payload.get("collections") {
            Some(v) => match v.as_array() {
                Some(a) => {
                    let ghost av = crate::json::seq_jv(a@);
                    proof {
                        crate::json::lemma_seq_jv(a@);
                    }
                    let mut out = String::new();
                    let mut n: usize = 0;
                    let mut i: usize = 0;
                    while i < a.len()
                        invariant
                            av == crate::json::seq_jv(a@),
                            av.len() == a@.len(),
                            forall|j: int| 0 <= j < a@.len() ==> #[trigger] av[j] == jv(a@[j]),
                            0 <= i <= a@.len(),
                            n == crate::filter::str_elems(av.take(i as int)).len(),
                            n <= i,
                            out@ == comma_joined(crate::filter::str_elems(av.take(i as int))),
                        decreases a@.len() - i,
                    {
                        assert(av.take(i + 1).drop_last() =~= av.take(i as int));
                        match a[i].as_str() {
                            Some(t) => {
                                if n > 0 {
                                    crate::text::push_char(&mut out, ',');
                                }
                                push_str(&mut out, t.as_str());
                                proof {
                                    let parts = crate::filter::str_elems(av.take(i + 1));
                                    assert(parts.drop_last() =~= crate::filter::str_elems(
                                        av.take(i as int),
                                    ));
                                }
                                n = n + 1;
                            },
                            None => {
                                assert(crate::filter::str_elems(av.take(i + 1))
                                    =~= crate::filter::str_elems(av.take(i as int)));
                            },
                        }
                        i = i + 1;
                    }
                    assert(av.take(a@.len() as int) =~= av);
                    Some(out)
                },
                None => None,
            },
            None => None,
        },
    }
}

/// `req` is the `search` request payload `p` describes.
pub open spec fn search_request_of(p: JsonV, req: SearchRequest) -> bool {
    &&& field_str(p, "query"@) == Some(req.query@)
    &&& ostr_view(req.collection) == search_scope(p)
    &&& req.mode == mode_of(field_str(p, "mode"@))
    &&& req.k == or_at_least(as_usize(field_u64(p, "k"@)), 10, 1)
    &&& req.max_per_doc == as_usize(field_u64(p, "max_per_doc"@))
    &&& req.include_text == field_bool(p, "include_text"@, true)
    &&& req.filter@ == crate::filter::parsed_filter(p)
}

/// Read a `search` payload: `query` is required; `k` defaults to 10 and is
/// at least 1; `mode` defaults to dense; `include_text` defaults to `true`;
/// `filter` gives the metadata filter. (`min_score` is a floating-point
/// field and is read by the caller.)
pub fn parse_search_request(payload: &Json) -> (r: Result<SearchRequest, String>)
    ensures
        ({
            let p = jv(*payload);
            match r {
                Ok(req) => search_request_of(p, req),
                Err(msg) => field_str(p, "query"@) is None && msg@ == "missing 'query'"@,
            }
        }),
        r is Ok <==> field_str(jv(*payload), "query"@) is Some,
{
    let query = match opt_str(payload, "query") {
        Some(q) => q,
        None => {
            return Err(message("missing 'query'"));
        },
    };
    let k0 = match to_usize(opt_u64(payload, "k")) {
        Some(k) => k,
        None => 10,
    };
    let k = if k0 >= 1 {
        k0
    } else {
        1
    };
    let mode = match payload.get("mode") {
        Some(m) => match m.as_str() {
            Some(s) => SearchMode::parse(Some(s.as_str())),
            None => SearchMode::parse(None),
        },
        None => SearchMode::parse(None),
    };
    Ok(
        SearchRequest {
            query,
            collection: scope_of(payload),
            mode,
            k,
            max_per_doc: to_usize(opt_u64(payload, "max_per_doc")),
            include_text: bool_or(payload, "include_text", true),
            filter: MetaFilter::parse(payload),
        },
    )
}

/// `req` is the `grep` request payload `p` describes.
pub open spec fn grep_request_of(p: JsonV, req: GrepRequest) -> bool {
    &&& field_str(p, "pattern"@) == Some(req.pattern@)
    &&& req.pattern@.len() > 0
    &&& ostr_view(req.collection) == field_str(p, "collection"@)
    &&& req.filter@ == crate::filter::parsed_filter(p)
    &&& req.ignore_case == field_bool(p, "ignore_case"@, false)
    &&& req.multiline == field_bool(p, "multiline"@, true)
    &&& req.context_lines == or_at_least(as_usize(field_u64(p, "context_lines"@)), 0, 0)
    &&& req.max_matches == or_at_least(as_usize(field_u64(p, "max_matches"@)), 200, 1)
    &&& req.max_per_doc == as_usize(field_u64(p, "max_per_doc"@))
}

/// Read a `grep` payload: `pattern` is required and not empty;
/// `max_matches` defaults to 200 and is at least 1; `context_lines`
/// defaults to 0; `ignore_case` defaults to `false` and `multiline` to
/// `true`.
pub fn parse_grep_request(payload: &Json) -> (r: Result<GrepRequest, String>)
    ensures
        ({
            let p = jv(*payload);
            match r {
                Ok(req) => grep_request_of(p, req),
                Err(msg) => msg@ == "missing or empty 'pattern'"@,
            }
        }),
        r is Ok <==> (field_str(jv(*payload), "pattern"@) matches Some(s) && s.len() > 0),
{
    let pattern = match opt_str(payload, "pattern") {
        Some(s) => if s.as_str().is_empty() {
            return Err(message("missing or empty 'pattern'"));
        } else {
            s
        },
        None => {
            return Err(message("missing or empty 'pattern'"));
        },
    };
    let m0 = match to_usize(opt_u64(payload, "max_matches")) {
        Some(m) => m,
        None => 200,
    };
    let max_matches = if m0 >= 1 {
        m0
    } else {
        1
    };
    let context_lines = match to_usize(opt_u64(payload, "context_lines")) {
        Some(c) => c,
        None => 0,
    };
    Ok(
        GrepRequest {
            pattern,
            collection: opt_str(payload, "collection"),
            filter: MetaFilter::parse(payload),
            ignore_case: bool_or(payload, "ignore_case", false),
            multiline: bool_or(payload, "multiline", true),
            context_lines,
            max_matches,
            max_per_doc: to_usize(opt_u64(payload, "max_per_doc")),
        },
    )
}

} // verus!
