//! The store: named collections of documents, each a bundle of text
//! segments, with the two-axis build state of each collection.
//!
//! Text is installed synchronously when a document is accepted; embedding
//! vectors arrive later, one job per accepted document, and fill the
//! already-installed segments in place, matched by segment id. A vector is
//! held as an opaque `V`: the store only records whether a segment has one.
//!
//! Collections are addressed by name and documents by `doc_id`; each is kept
//! once. Segment ids are handed out in increasing order: no id occurs twice
//! in the store, and every one is below the next to hand out (a reset, or a
//! change of embedder dimension that empties the store, starts them over). Seen through [`colls`] and [`docs_of`], the store is the map that a
//! hash map keyed the same way would hold.

use vstd::prelude::*;

use crate::json::{jv, Json, JsonV};

use crate::keyed::{
    has_key, key_pos, keyed, keys_distinct, lemma_keyed_at, lemma_keyed_empty, lemma_keyed_push,
    lemma_keyed_remove, lemma_keyed_update,
};
use crate::keyword::{occurrences, token_multiset, TokenCounts};
use crate::chunk::{
    boundary_of, chunk_text_at_boundaries, chunking, lemma_chunk_count, lines_text, resolved, BoundaryV,
    Chunk, ChunkConfig,
};
use crate::grep::{compile, regex_compiles, Matcher};
use crate::json::JsonMap;
use crate::text::{
    blank, build_line_offsets, byte_line_starts, chars_of, copy_str, lemma_bounds_mono, lemma_line_count_pos, lemma_offsets_count_lines, line_bounds, line_ranges, string_of, decimal, decimal_string, is_blank,
    keyword_terms,
    normalize_newlines, normalize_nl, push_str, str_eq, truncate_to_tokens, truncated, views,
};

verus! {

broadcast use vstd::seq_lib::group_seq_properties;

/// The mock embedder's dimension: what an embedder that was never
/// configured explicitly produces.
pub const MOCK_DIM: usize = 64;

/// One indexed segment: a piece of text, its metadata, and its vector once
/// the embedding job has filled it.
pub struct Segment<V> {
    /// Stable id; ids increase within a document.
    pub segment_id: u64,
    /// The text shown in results.
    pub text: String,
    /// Alternate text to embed in place of `text`.
    pub embed_text: Option<String>,
    /// The source line range, echoed in hits.
    pub line_start: Option<u64>,
    pub line_end: Option<u64>,
    /// Segment-level metadata.
    pub meta: Json,
    /// The embedding; `None` until filled, and for blank or failed segments.
    pub vector: Option<V>,
    /// The token multiset of `text`, built when the segment is installed.
    pub kw_counts: TokenCounts,
}

/// One document: a `doc_id`-keyed bundle of segments. A document ingested
/// whole (`index_raw`) also keeps its normalized full text and the byte
/// offset of each of its lines.
pub struct Document<V> {
    pub doc_id: String,
    pub name: String,
    pub meta: Json,
    pub segments: Vec<Segment<V>>,
    pub full_text: Option<String>,
    pub line_offsets: Option<Vec<usize>>,
}

/// Whether a collection's vectors are complete.
#[derive(Clone, Copy, PartialEq, Eq, Debug, Structural)]
pub enum VectorStatus {
    /// Text accepted; some embedding jobs are still pending.
    Building,
    /// Every accepted job has been applied.
    Ready,
}

impl VectorStatus {
    /// The lower-case name used on the wire.
    pub fn as_str(self) -> (r: &'static str)
        ensures
            r@ == (match self {
                VectorStatus::Building => "building"@,
                VectorStatus::Ready => "ready"@,
            }),
    {
        match self {
            VectorStatus::Building => "building",
            VectorStatus::Ready => "ready",
        }
    }
}

/// A named collection of documents plus its build state.
pub struct Collection<V> {
    /// The documents, each `doc_id` once.
    pub docs: Vec<Document<V>>,
    /// Text is queryable from the moment a document is accepted.
    pub text_ready: bool,
    /// Vectors go from `Building` to `Ready` as jobs are applied.
    pub vector_status: VectorStatus,
    /// Set only on a fatal fault.
    pub error: Option<String>,
    /// Jobs accepted and not yet applied.
    pub pending_jobs: u32,
    /// Segments that got a vector.
    pub embedded: u64,
    /// Segments whose vector was invalid or missing.
    pub failed: u64,
    /// Segments whose text to embed was blank.
    pub skipped: u64,
    /// What the collection holds, in the caller's words.
    pub description: Option<String>,
}

/// The knobs of the last `configure`, echoed back.
pub struct Config {
    pub model: Option<String>,
    pub model_path: Option<String>,
    pub normalize: bool,
    pub max_seq_len: Option<u64>,
    pub device: String,
    pub intra_threads: Option<u64>,
    pub embed_workers: Option<u64>,
}

/// The whole store.
pub struct Core<V> {
    /// Whether `configure` has been called.
    pub configured: bool,
    /// The dimension of the active embedder; `None` while there is none.
    pub embedder_dim: Option<usize>,
    /// The config of the last `configure`.
    pub config: Config,
    /// The collections, each name once.
    pub collections: Vec<(String, Collection<V>)>,
    /// The next segment id to hand out.
    pub next_segment_id: u64,
}

// ---------------------------------------------------------------------------
// The model
// ---------------------------------------------------------------------------

/// The collections as `(name, collection)` entries.
pub open spec fn coll_entries<V>(cs: Seq<(String, Collection<V>)>) -> Seq<(Seq<char>, Collection<V>)> {
    cs.map_values(|p: (String, Collection<V>)| (p.0@, p.1))
}

/// The collections by name.
pub open spec fn colls<V>(core: Core<V>) -> Map<Seq<char>, Collection<V>> {
    keyed(coll_entries(core.collections@))
}

/// The documents as `(doc_id, document)` entries.
pub open spec fn doc_entries<V>(ds: Seq<Document<V>>) -> Seq<(Seq<char>, Document<V>)> {
    ds.map_values(|d: Document<V>| (d.doc_id@, d))
}

/// A collection's documents by `doc_id`.
pub open spec fn docs_of<V>(c: Collection<V>) -> Map<Seq<char>, Document<V>> {
    keyed(doc_entries(c.docs@))
}

/// The byte offsets of the lines of `t`.
pub open spec fn offsets_match(t: String, o: Vec<usize>) -> bool {
    let starts = byte_line_starts(vstd::utf8::encode_utf8(t@));
    &&& o@.len() == starts.len()
    &&& forall|k: int| 0 <= k < o@.len() ==> #[trigger] o@[k] as int == starts[k]
}

/// A segment's token multiset is that of its text.
pub open spec fn seg_wf<V>(s: Segment<V>) -> bool {
    &&& s.kw_counts.wf()
    &&& forall|t: Seq<char>| #[trigger] s.kw_counts.count(t) == occurrences(keyword_terms(s.text@), t)
}

/// A document's segments are well formed with increasing ids, and its full
/// text and line offsets are present together and agree.
pub open spec fn doc_wf<V>(d: Document<V>) -> bool {
    &&& forall|i: int| 0 <= i < d.segments@.len() ==> seg_wf(#[trigger] d.segments@[i])
    &&& forall|i: int, j: int|
        0 <= i < j < d.segments@.len() ==> #[trigger] d.segments@[i].segment_id
            < #[trigger] d.segments@[j].segment_id
    &&& (d.full_text is Some <==> d.line_offsets is Some)
    &&& d.full_text is Some ==> offsets_match(d.full_text->0, d.line_offsets->0)
}

/// Segment `k` of document `i` of `c` exists.
pub open spec fn holds<V>(c: Collection<V>, i: int, k: int) -> bool {
    0 <= i < c.docs@.len() && 0 <= k < c.docs@[i].segments@.len()
}

/// The id of segment `k` of document `i` of `c`.
pub open spec fn sid<V>(c: Collection<V>, i: int, k: int) -> u64 {
    c.docs@[i].segments@[k].segment_id
}

/// No two segments of `c` share an id.
pub open spec fn docs_apart<V>(c: Collection<V>) -> bool {
    forall|i: int, k: int, j: int, l: int|
        holds(c, i, k) && holds(c, j, l) && #[trigger] sid(c, i, k) == #[trigger] sid(c, j, l) ==> i == j
            && k == l
}

/// Every segment id of `c` is below `n`.
pub open spec fn ids_below<V>(c: Collection<V>, n: int) -> bool {
    forall|i: int, k: int| holds(c, i, k) ==> #[trigger] sid(c, i, k) < n
}

/// No segment of `a` shares its id with a segment of `b`.
pub open spec fn colls_apart<V>(a: Collection<V>, b: Collection<V>) -> bool {
    forall|i: int, k: int, j: int, l: int|
        holds(a, i, k) && holds(b, j, l) ==> #[trigger] sid(a, i, k) != #[trigger] sid(b, j, l)
}

/// Every segment id of the collections is below `n`, and no two
/// collections share one.
pub open spec fn ids_apart<V>(cs: Seq<(String, Collection<V>)>, n: int) -> bool {
    &&& forall|x: int| 0 <= x < cs.len() ==> ids_below(#[trigger] cs[x].1, n)
    &&& forall|x: int, y: int|
        0 <= x < cs.len() && 0 <= y < cs.len() && x != y ==> colls_apart(#[trigger] cs[x].1, #[trigger] cs[y].1)
}

/// Each `doc_id` once, every document well formed, no segment id twice.
pub open spec fn coll_wf<V>(c: Collection<V>) -> bool {
    &&& keys_distinct(doc_entries(c.docs@))
    &&& forall|i: int| 0 <= i < c.docs@.len() ==> doc_wf(#[trigger] c.docs@[i])
    &&& docs_apart(c)
}

/// Each collection name once, every collection well formed; no segment id
/// occurs twice in the whole store, and every one is below the next id to
/// hand out.
pub open spec fn core_wf<V>(core: Core<V>) -> bool {
    &&& keys_distinct(coll_entries(core.collections@))
    &&& forall|i: int| 0 <= i < core.collections@.len() ==> coll_wf(#[trigger] core.collections@[i].1)
    &&& ids_apart(core.collections@, core.next_segment_id as int)
}

/// A collection's ids stay apart and below a bound once its documents are
/// cut down by removing one.
proof fn lemma_docs_remove<V>(c0: Collection<V>, c: Collection<V>, d: int)
    requires
        0 <= d < c0.docs@.len(),
        c.docs@ == c0.docs@.remove(d),
    ensures
        docs_apart(c0) ==> docs_apart(c),
        forall|n: int| ids_below(c0, n) ==> #[trigger] ids_below(c, n),
        forall|o: Collection<V>| colls_apart(c0, o) ==> #[trigger] colls_apart(c, o),
        forall|o: Collection<V>| colls_apart(o, c0) ==> #[trigger] colls_apart(o, c),
{
    assert forall|i: int, k: int| holds(c, i, k) implies {
        let m = if i < d { i } else { i + 1 };
        holds(c0, m, k) && #[trigger] sid(c, i, k) == sid(c0, m, k)
    } by {
        if i < d {
            assert(c.docs@[i] == c0.docs@[i]);
        } else {
            assert(c.docs@[i] == c0.docs@[i + 1]);
        }
    }
    if docs_apart(c0) {
        assert forall|i: int, k: int, j: int, l: int|
            holds(c, i, k) && holds(c, j, l) && #[trigger] sid(c, i, k) == #[trigger] sid(c, j, l) implies i
            == j && k == l by {
            let mi = if i < d { i } else { i + 1 };
            let mj = if j < d { j } else { j + 1 };
            assert(sid(c0, mi, k) == sid(c0, mj, l));
        }
    }
    assert forall|n: int| ids_below(c0, n) implies #[trigger] ids_below(c, n) by {
        assert forall|i: int, k: int| holds(c, i, k) implies #[trigger] sid(c, i, k) < n by {
            let mi = if i < d { i } else { i + 1 };
            assert(sid(c0, mi, k) < n);
        }
    }
    assert forall|o: Collection<V>| colls_apart(c0, o) implies #[trigger] colls_apart(c, o) by {
        assert forall|i: int, k: int, j: int, l: int| holds(c, i, k) && holds(o, j, l) implies #[trigger] sid(
            c,
            i,
            k,
        ) != #[trigger] sid(o, j, l) by {
            let mi = if i < d { i } else { i + 1 };
            assert(sid(c0, mi, k) != sid(o, j, l));
        }
    }
    assert forall|o: Collection<V>| colls_apart(o, c0) implies #[trigger] colls_apart(o, c) by {
        assert forall|j: int, l: int, i: int, k: int| holds(o, j, l) && holds(c, i, k) implies #[trigger] sid(
            o,
            j,
            l,
        ) != #[trigger] sid(c, i, k) by {
            let mi = if i < d { i } else { i + 1 };
            assert(sid(o, j, l) != sid(c0, mi, k));
        }
    }
}

/// The ids stay apart when one collection is replaced by one whose ids are
/// below the bound and apart from every other collection's.
proof fn lemma_apart_update<V>(cs: Seq<(String, Collection<V>)>, i: int, nm: String, c: Collection<V>, n: int)
    requires
        ids_apart(cs, n),
        0 <= i < cs.len(),
        ids_below(c, n),
        forall|y: int| 0 <= y < cs.len() && y != i ==> colls_apart(c, #[trigger] cs[y].1) && colls_apart(cs[y].1, c),
    ensures
        ids_apart(cs.update(i, (nm, c)), n),
{
    let cs2 = cs.update(i, (nm, c));
    assert forall|x: int| 0 <= x < cs2.len() implies ids_below(#[trigger] cs2[x].1, n) by {
        if x != i {
            assert(cs2[x] == cs[x]);
        }
    }
    assert forall|x: int, y: int| 0 <= x < cs2.len() && 0 <= y < cs2.len() && x != y implies colls_apart(
        #[trigger] cs2[x].1,
        #[trigger] cs2[y].1,
    ) by {
        if x != i && y != i {
            assert(cs2[x] == cs[x] && cs2[y] == cs[y]);
            assert(colls_apart(cs[x].1, cs[y].1));
        } else if x == i {
            assert(cs2[y] == cs[y]);
            assert(colls_apart(c, cs[y].1));
        } else {
            assert(cs2[x] == cs[x]);
            assert(colls_apart(cs[x].1, c));
        }
    }
}

/// The ids stay apart when a collection whose ids are below the bound and
/// apart from every other collection's is added.
proof fn lemma_apart_push<V>(cs: Seq<(String, Collection<V>)>, nm: String, c: Collection<V>, n: int)
    requires
        ids_apart(cs, n),
        ids_below(c, n),
        forall|y: int| 0 <= y < cs.len() ==> colls_apart(c, #[trigger] cs[y].1) && colls_apart(cs[y].1, c),
    ensures
        ids_apart(cs.push((nm, c)), n),
{
    let cs2 = cs.push((nm, c));
    let i = cs.len() as int;
    assert forall|x: int| 0 <= x < cs2.len() implies ids_below(#[trigger] cs2[x].1, n) by {
        if x != i {
            assert(cs2[x] == cs[x]);
        }
    }
    assert forall|x: int, y: int| 0 <= x < cs2.len() && 0 <= y < cs2.len() && x != y implies colls_apart(
        #[trigger] cs2[x].1,
        #[trigger] cs2[y].1,
    ) by {
        if x != i && y != i {
            assert(cs2[x] == cs[x] && cs2[y] == cs[y]);
            assert(colls_apart(cs[x].1, cs[y].1));
        } else if x == i {
            assert(cs2[y] == cs[y]);
            assert(colls_apart(c, cs[y].1));
        } else {
            assert(cs2[x] == cs[x]);
            assert(colls_apart(cs[x].1, c));
        }
    }
}

/// The ids stay apart when a collection is removed.
proof fn lemma_apart_remove<V>(cs: Seq<(String, Collection<V>)>, i: int, n: int)
    requires
        ids_apart(cs, n),
        0 <= i < cs.len(),
    ensures
        ids_apart(cs.remove(i), n),
{
    let cs2 = cs.remove(i);
    assert forall|x: int| 0 <= x < cs2.len() implies ids_below(#[trigger] cs2[x].1, n) by {
        if x < i {
            assert(cs2[x] == cs[x]);
        } else {
            assert(cs2[x] == cs[x + 1]);
        }
    }
    assert forall|x: int, y: int| 0 <= x < cs2.len() && 0 <= y < cs2.len() && x != y implies colls_apart(
        #[trigger] cs2[x].1,
        #[trigger] cs2[y].1,
    ) by {
        let mx = if x < i { x } else { x + 1 };
        let my = if y < i { y } else { y + 1 };
        assert(cs2[x] == cs[mx] && cs2[y] == cs[my]);
        assert(colls_apart(cs[mx].1, cs[my].1));
    }
}

/// The ids stay apart under a larger bound.
proof fn lemma_apart_grow<V>(cs: Seq<(String, Collection<V>)>, n: int, m: int)
    requires
        ids_apart(cs, n),
        n <= m,
    ensures
        ids_apart(cs, m),
{
    assert forall|x: int| 0 <= x < cs.len() implies ids_below(#[trigger] cs[x].1, m) by {
        assert forall|i: int, k: int| holds(cs[x].1, i, k) implies #[trigger] sid(cs[x].1, i, k) < m by {
            assert(ids_below(cs[x].1, n));
        }
    }
}

/// A collection whose documents carry the same segment ids, position by
/// position, as another's keeps all of its id properties.
proof fn lemma_same_ids<V>(c0: Collection<V>, c: Collection<V>)
    requires
        c.docs@.len() == c0.docs@.len(),
        forall|i: int| 0 <= i < c0.docs@.len() ==> (#[trigger] c.docs@[i]).segments@.len() == c0.docs@[i].segments@.len(),
        forall|i: int, k: int| holds(c0, i, k) ==> #[trigger] sid(c, i, k) == sid(c0, i, k),
    ensures
        docs_apart(c0) ==> docs_apart(c),
        forall|n: int| ids_below(c0, n) ==> #[trigger] ids_below(c, n),
        forall|o: Collection<V>| colls_apart(c0, o) ==> #[trigger] colls_apart(c, o),
        forall|o: Collection<V>| colls_apart(o, c0) ==> #[trigger] colls_apart(o, c),
{
    assert forall|i: int, k: int| holds(c, i, k) implies holds(c0, i, k) && #[trigger] sid(c, i, k) == sid(c0, i, k) by {
        assert(c.docs@[i].segments@.len() == c0.docs@[i].segments@.len());
    }
    if docs_apart(c0) {
        assert forall|i: int, k: int, j: int, l: int|
            holds(c, i, k) && holds(c, j, l) && #[trigger] sid(c, i, k) == #[trigger] sid(c, j, l) implies i
            == j && k == l by {
            assert(sid(c0, i, k) == sid(c0, j, l));
        }
    }
    assert forall|n: int| ids_below(c0, n) implies #[trigger] ids_below(c, n) by {
        assert forall|i: int, k: int| holds(c, i, k) implies #[trigger] sid(c, i, k) < n by {
            assert(sid(c0, i, k) < n);
        }
    }
    assert forall|o: Collection<V>| colls_apart(c0, o) implies #[trigger] colls_apart(c, o) by {
        assert forall|i: int, k: int, j: int, l: int| holds(c, i, k) && holds(o, j, l) implies #[trigger] sid(
            c,
            i,
            k,
        ) != #[trigger] sid(o, j, l) by {
            assert(sid(c0, i, k) != sid(o, j, l));
        }
    }
    assert forall|o: Collection<V>| colls_apart(o, c0) implies #[trigger] colls_apart(o, c) by {
        assert forall|j: int, l: int, i: int, k: int| holds(o, j, l) && holds(c, i, k) implies #[trigger] sid(
            o,
            j,
            l,
        ) != #[trigger] sid(c, i, k) by {
            assert(sid(o, j, l) != sid(c0, i, k));
        }
    }
}

/// In a well-formed store no two segments share an id: two positions
/// holding the same id are the same position.
pub proof fn lemma_ids_unique<V>(core: Core<V>, x: int, i: int, k: int, y: int, j: int, l: int)
    requires
        core_wf(core),
        0 <= x < core.collections@.len(),
        0 <= y < core.collections@.len(),
        holds(core.collections@[x].1, i, k),
        holds(core.collections@[y].1, j, l),
        sid(core.collections@[x].1, i, k) == sid(core.collections@[y].1, j, l),
    ensures
        x == y && i == j && k == l,
{
    if x != y {
        assert(colls_apart(core.collections@[x].1, core.collections@[y].1));
    } else {
        assert(coll_wf(core.collections@[x].1));
    }
}

/// A collection as first created.
pub open spec fn fresh_coll<V>(c: Collection<V>) -> bool {
    &&& c.docs@.len() == 0
    &&& !c.text_ready
    &&& c.vector_status == VectorStatus::Building
    &&& c.error is None
    &&& c.pending_jobs == 0
    &&& c.embedded == 0
    &&& c.failed == 0
    &&& c.skipped == 0
    &&& c.description is None
}

/// The default config.
pub open spec fn default_config(c: Config) -> bool {
    &&& c.model is None
    &&& c.model_path is None
    &&& !c.normalize
    &&& c.max_seq_len is None
    &&& c.device@ == Seq::<char>::empty()
    &&& c.intra_threads is None
    &&& c.embed_workers is None
}

/// The empty, unconfigured store.
pub open spec fn initial<V>(core: Core<V>) -> bool {
    &&& !core.configured
    &&& core.embedder_dim is None
    &&& default_config(core.config)
    &&& core.collections@.len() == 0
    &&& core.next_segment_id == 1
}

/// Adds `b` to `a`, stopping at `u64::MAX`.
pub open spec fn sat_add(a: u64, b: int) -> u64 {
    if a + b > u64::MAX {
        u64::MAX
    } else {
        (a + b) as u64
    }
}

impl<V> Collection<V> {
    /// An empty collection.
    pub fn new() -> (c: Collection<V>)
        ensures
            fresh_coll(c),
            coll_wf(c),
    {
        let c = Collection {
            docs: Vec::new(),
            text_ready: false,
            vector_status: VectorStatus::Building,
            error: None,
            pending_jobs: 0,
            embedded: 0,
            failed: 0,
            skipped: 0,
            description: None,
        };
        proof {
            lemma_keyed_empty(doc_entries(c.docs@));
        }
        c
    }
}

impl Default for Config {
    /// The default config.
    fn default() -> (c: Config)
        ensures
            default_config(c),
    {
        Config {
            model: None,
            model_path: None,
            normalize: false,
            max_seq_len: None,
            device: String::new(),
            intra_threads: None,
            embed_workers: None,
        }
    }
}

impl<V> Core<V> {
    /// The empty, unconfigured store.
    pub fn new() -> (core: Core<V>)
        ensures
            initial(core),
            core_wf(core),
    {
        let core = Core {
            configured: false,
            embedder_dim: None,
            config: Config::default(),
            collections: Vec::new(),
            next_segment_id: 1,
        };
        proof {
            lemma_keyed_empty(coll_entries(core.collections@));
        }
        core
    }

    /// Reset every piece of state back to the empty, unconfigured store.
    pub fn reset(&mut self)
        ensures
            initial(*final(self)),
            core_wf(*final(self)),
    {
        self.configured = false;
        self.embedder_dim = None;
        self.config = Config::default();
        self.collections = Vec::new();
        self.next_segment_id = 1;
        proof {
            lemma_keyed_empty(coll_entries(self.collections@));
        }
    }
}

// ---------------------------------------------------------------------------
// configure
// ---------------------------------------------------------------------------

/// What `configure` did.
pub struct ConfigureResult {
    pub dim: usize,
    pub reset_due_to_dim_change: bool,
}

/// The text is present and not all whitespace.
pub open spec fn named(o: Option<String>) -> bool {
    o matches Some(s) && !blank(s@)
}

/// Whether a config asks for a real model: a non-blank `model` name or
/// `model_path`. Otherwise the mock embedder is used.
pub fn wants_real_embedder(config: &Config) -> (r: bool)
    ensures
        r == (named(config.model) || named(config.model_path)),
{
    let named_model = match &config.model {
        Some(m) => !is_blank(m.as_str()),
        None => false,
    };
    let has_path = match &config.model_path {
        Some(p) => !is_blank(p.as_str()),
        None => false,
    };
    named_model || has_path
}

/// What configuring `before` with `config` and an embedder of dimension
/// `new_dim` did, giving `after` and `r`.
pub open spec fn configured_to<V>(before: Core<V>, after: Core<V>, config: Config, new_dim: usize, r: ConfigureResult) -> bool {
    &&& core_wf(after)
    &&& r.dim == new_dim
    &&& r.reset_due_to_dim_change == (before.embedder_dim matches Some(d) && d != new_dim
        && before.collections@.len() > 0)
    &&& after.configured
    &&& after.embedder_dim == Some(new_dim)
    &&& after.config == config
    &&& r.reset_due_to_dim_change ==> after.collections@.len() == 0
        && after.next_segment_id == 1
    &&& !r.reset_due_to_dim_change ==> after.collections == before.collections
        && after.next_segment_id == before.next_segment_id
}

/// Install a new embedder of dimension `new_dim` with `config`. When an
/// embedder of another dimension was active and data is indexed, the old
/// vectors live in another space: every collection is dropped and segment
/// ids start over.
pub fn configure<V>(core: &mut Core<V>, config: Config, new_dim: usize) -> (r: ConfigureResult)
    requires
        core_wf(*old(core)),
    ensures
        configured_to(*old(core), *final(core), config, new_dim, r),
{
    let dim_changed = match core.embedder_dim {
        Some(d) => d != new_dim,
        None => false,
    };
    let had_data = core.collections.len() > 0;
    let reset_due_to_dim_change = dim_changed && had_data;
    if reset_due_to_dim_change {
        core.collections = Vec::new();
        core.next_segment_id = 1;
        proof {
            lemma_keyed_empty(coll_entries(core.collections@));
        }
    }
    core.embedder_dim = Some(new_dim);
    core.config = config;
    core.configured = true;
    ConfigureResult { dim: new_dim, reset_due_to_dim_change }
}

/// The dimension of the active embedder, or 0 when there is none.
pub fn current_dim<V>(core: &Core<V>) -> (d: usize)
    ensures
        d == match core.embedder_dim {
            Some(x) => x,
            None => 0,
        },
{
    match core.embedder_dim {
        Some(x) => x,
        None => 0,
    }
}

// ---------------------------------------------------------------------------
// Totals
// ---------------------------------------------------------------------------

/// Caps a count at `usize::MAX`.
pub open spec fn cap(n: int) -> usize {
    if n > usize::MAX {
        usize::MAX
    } else {
        n as usize
    }
}

/// Segments over a sequence of documents.
pub open spec fn seg_sum<V>(ds: Seq<Document<V>>) -> nat
    decreases ds.len(),
{
    if ds.len() == 0 {
        0
    } else {
        seg_sum(ds.drop_last()) + ds.last().segments@.len()
    }
}

/// Documents over a sequence of collections.
pub open spec fn doc_total<V>(cs: Seq<(String, Collection<V>)>) -> nat
    decreases cs.len(),
{
    if cs.len() == 0 {
        0
    } else {
        doc_total(cs.drop_last()) + cs.last().1.docs@.len()
    }
}

/// Segments over a sequence of collections.
pub open spec fn seg_total<V>(cs: Seq<(String, Collection<V>)>) -> nat
    decreases cs.len(),
{
    if cs.len() == 0 {
        0
    } else {
        seg_total(cs.drop_last()) + seg_sum(cs.last().1.docs@)
    }
}

impl<V> Collection<V> {
    /// Total segment count across the collection's documents (capped at
    /// `usize::MAX`).
    pub fn n_segments(&self) -> (n: usize)
        ensures
            n == cap(seg_sum(self.docs@) as int),
    {
        let mut n: usize = 0;
        let mut i: usize = 0;
        while i < self.docs.len()
            invariant
                0 <= i <= self.docs@.len(),
                n == cap(seg_sum(self.docs@.take(i as int)) as int),
            decreases self.docs@.len() - i,
        {
            assert(self.docs@.take(i + 1).drop_last() =~= self.docs@.take(i as int));
            n = n.saturating_add(self.docs[i].segments.len());
            i = i + 1;
        }
        assert(self.docs@.take(self.docs@.len() as int) =~= self.docs@);
        n
    }
}

/// Totals over the store: `(documents, segments)`, each capped at
/// `usize::MAX`.
pub fn totals<V>(core: &Core<V>) -> (r: (usize, usize))
    ensures
        r.0 == cap(doc_total(core.collections@) as int),
        r.1 == cap(seg_total(core.collections@) as int),
{
    let mut docs: usize = 0;
    let mut segs: usize = 0;
    let mut i: usize = 0;
    while i < core.collections.len()
        invariant
            0 <= i <= core.collections@.len(),
            docs == cap(doc_total(core.collections@.take(i as int)) as int),
            segs == cap(seg_total(core.collections@.take(i as int)) as int),
        decreases core.collections@.len() - i,
    {
        assert(core.collections@.take(i + 1).drop_last() =~= core.collections@.take(i as int));
        docs = docs.saturating_add(core.collections[i].1.docs.len());
        segs = segs.saturating_add(core.collections[i].1.n_segments());
        i = i + 1;
    }
    assert(core.collections@.take(core.collections@.len() as int) =~= core.collections@);
    (docs, segs)
}

// ---------------------------------------------------------------------------
// Installing an accepted document
// ---------------------------------------------------------------------------

/// The position of the collection named `name`.
fn find_coll<V>(cs: &Vec<(String, Collection<V>)>, name: &str) -> (r: Option<usize>)
    ensures
        match r {
            Some(i) => i < cs@.len() && cs@[i as int].0@ == name@,
            None => !has_key(coll_entries(cs@), name@),
        },
{
    let mut i: usize = 0;
    while i < cs.len()
        invariant
            0 <= i <= cs@.len(),
            forall|k: int| 0 <= k < i ==> cs@[k].0@ != name@,
        decreases cs@.len() - i,
    {
        if str_eq(cs[i].0.as_str(), name) {
            return Some(i);
        }
        i = i + 1;
    }
    proof {
        if has_key(coll_entries(cs@), name@) {
            let k = choose|k: int|
                0 <= k < coll_entries(cs@).len() && #[trigger] coll_entries(cs@)[k].0 == name@;
            assert(cs@[k].0@ == name@);
        }
    }
    None
}

/// The position of the document with id `id`.
fn find_doc<V>(ds: &Vec<Document<V>>, id: &str) -> (r: Option<usize>)
    ensures
        match r {
            Some(i) => i < ds@.len() && ds@[i as int].doc_id@ == id@,
            None => !has_key(doc_entries(ds@), id@),
        },
{
    let mut i: usize = 0;
    while i < ds.len()
        invariant
            0 <= i <= ds@.len(),
            forall|k: int| 0 <= k < i ==> ds@[k].doc_id@ != id@,
        decreases ds@.len() - i,
    {
        if str_eq(ds[i].doc_id.as_str(), id) {
            return Some(i);
        }
        i = i + 1;
    }
    proof {
        if has_key(doc_entries(ds@), id@) {
            let k = choose|k: int|
                0 <= k < doc_entries(ds@).len() && #[trigger] doc_entries(ds@)[k].0 == id@;
            assert(ds@[k].doc_id@ == id@);
        }
    }
    None
}

/// The collection named `name` before a change, if there was one.
pub open spec fn prior<V>(core: Core<V>, name: Seq<char>) -> Option<Collection<V>> {
    if colls(core).contains_key(name) {
        Some(colls(core)[name])
    } else {
        None
    }
}

/// The documents of an optional collection.
pub open spec fn prior_docs<V>(p: Option<Collection<V>>) -> Map<Seq<char>, Document<V>> {
    match p {
        Some(c) => docs_of(c),
        None => Map::empty(),
    }
}

/// The state of a collection after a document was accepted into it: text
/// ready, vectors building, no error, one more pending job, the blank
/// segments counted as skipped, the description replaced by a non-blank
/// one, and the document installed under its id (replacing any earlier
/// document with that id).
pub open spec fn accepted<V>(
    p: Option<Collection<V>>,
    c: Collection<V>,
    doc: Document<V>,
    skipped_now: u64,
    description: Option<String>,
) -> bool {
    &&& c.text_ready
    &&& c.vector_status == VectorStatus::Building
    &&& c.error is None
    &&& c.pending_jobs == match p {
        Some(q) => if q.pending_jobs == u32::MAX {
            u32::MAX
        } else {
            (q.pending_jobs + 1) as u32
        },
        None => 1,
    }
    &&& c.skipped == sat_add(
        match p {
            Some(q) => q.skipped,
            None => 0,
        },
        skipped_now as int,
    )
    &&& c.embedded == match p {
        Some(q) => q.embedded,
        None => 0,
    }
    &&& c.failed == match p {
        Some(q) => q.failed,
        None => 0,
    }
    &&& c.description == if named(description) {
        description
    } else {
        match p {
            Some(q) => q.description,
            None => None,
        }
    }
    &&& docs_of(c) == prior_docs(p).insert(doc.doc_id@, doc)
}

proof fn lemma_coll_entries_update<V>(cs: Seq<(String, Collection<V>)>, i: int, c: Collection<V>)
    requires
        0 <= i < cs.len(),
    ensures
        coll_entries(cs.update(i, (cs[i].0, c))) == coll_entries(cs).update(
            i,
            (coll_entries(cs)[i].0, c),
        ),
{
    assert(coll_entries(cs.update(i, (cs[i].0, c))) =~= coll_entries(cs).update(
        i,
        (coll_entries(cs)[i].0, c),
    ));
}

proof fn lemma_coll_entries_push<V>(cs: Seq<(String, Collection<V>)>, n: String, c: Collection<V>)
    ensures
        coll_entries(cs.push((n, c))) == coll_entries(cs).push((n@, c)),
{
    assert(coll_entries(cs.push((n, c))) =~= coll_entries(cs).push((n@, c)));
}

proof fn lemma_doc_entries_update<V>(ds: Seq<Document<V>>, i: int, d: Document<V>)
    requires
        0 <= i < ds.len(),
        ds[i].doc_id@ == d.doc_id@,
    ensures
        doc_entries(ds.update(i, d)) == doc_entries(ds).update(i, (doc_entries(ds)[i].0, d)),
{
    assert(doc_entries(ds.update(i, d)) =~= doc_entries(ds).update(i, (doc_entries(ds)[i].0, d)));
}

proof fn lemma_doc_entries_push<V>(ds: Seq<Document<V>>, d: Document<V>)
    ensures
        doc_entries(ds.push(d)) == doc_entries(ds).push((d.doc_id@, d)),
{
    assert(doc_entries(ds.push(d)) =~= doc_entries(ds).push((d.doc_id@, d)));
}

/// Every segment id of `d` lies in `lo..hi`.
pub open spec fn doc_ids_within<V>(d: Document<V>, lo: int, hi: int) -> bool {
    forall|k: int| 0 <= k < d.segments@.len() ==> lo <= #[trigger] d.segments@[k].segment_id < hi
}

/// The documents of `c0` with `doc` put at position `p` (appended when `p`
/// is past the end).
pub open spec fn put_at<V>(ds: Seq<Document<V>>, p: int, doc: Document<V>) -> Seq<Document<V>> {
    if p < ds.len() {
        ds.update(p, doc)
    } else {
        ds.push(doc)
    }
}

/// Putting a document whose ids lie in `lo..hi` into a collection whose ids
/// are below `lo` leaves its ids below `hi`, and apart from any collection
/// that was apart from it and whose ids are below `lo`.
proof fn lemma_put_ids<V>(c0: Collection<V>, c: Collection<V>, doc: Document<V>, p: int, lo: int, hi: int)
    requires
        0 <= p <= c0.docs@.len(),
        c.docs@ == put_at(c0.docs@, p, doc),
        ids_below(c0, lo),
        lo <= hi,
        doc_ids_within(doc, lo, hi),
    ensures
        ids_below(c, hi),
        forall|o: Collection<V>| ids_below(o, lo) && colls_apart(c0, o) ==> #[trigger] colls_apart(c, o)
            && colls_apart(o, c),
{
    assert forall|i: int, k: int| holds(c, i, k) implies (if i == p {
        lo <= #[trigger] sid(c, i, k) < hi
    } else {
        holds(c0, i, k) && sid(c, i, k) == sid(c0, i, k)
    }) by {
        if i == p {
            assert(c.docs@[i] == doc);
        } else {
            assert(c.docs@[i] == c0.docs@[i]);
        }
    }
    assert forall|i: int, k: int| holds(c, i, k) implies #[trigger] sid(c, i, k) < hi by {
        if i != p {
            assert(sid(c0, i, k) < lo);
        }
    }
    assert forall|o: Collection<V>| ids_below(o, lo) && colls_apart(c0, o) implies #[trigger] colls_apart(c, o)
        && colls_apart(o, c) by {
        assert forall|i: int, k: int, j: int, l: int| holds(c, i, k) && holds(o, j, l) implies #[trigger] sid(
            c,
            i,
            k,
        ) != #[trigger] sid(o, j, l) by {
            assert(sid(o, j, l) < lo);
            if i != p {
                assert(sid(c0, i, k) != sid(o, j, l));
            }
        }
        assert forall|j: int, l: int, i: int, k: int| holds(o, j, l) && holds(c, i, k) implies #[trigger] sid(
            o,
            j,
            l,
        ) != #[trigger] sid(c, i, k) by {
            assert(sid(o, j, l) < lo);
            if i != p {
                assert(sid(c0, i, k) != sid(o, j, l));
            }
        }
    }
}

/// Upsert `doc` into `c` by its id, at the position it returns (the end
/// when the id is new). The document's ids must lie above every id of `c`.
fn upsert_doc<V>(c: &mut Collection<V>, doc: Document<V>, lo: Ghost<int>) -> (p: usize)
    requires
        coll_wf(*old(c)),
        doc_wf(doc),
        ids_below(*old(c), lo@),
        doc_ids_within(doc, lo@, u64::MAX + 1),
    ensures
        coll_wf(*final(c)),
        p <= old(c).docs@.len(),
        final(c).docs@ == put_at(old(c).docs@, p as int, doc),
        docs_of(*final(c)) == docs_of(*old(c)).insert(doc.doc_id@, doc),
        final(c).text_ready == old(c).text_ready,
        final(c).vector_status == old(c).vector_status,
        final(c).error == old(c).error,
        final(c).pending_jobs == old(c).pending_jobs,
        final(c).embedded == old(c).embedded,
        final(c).failed == old(c).failed,
        final(c).skipped == old(c).skipped,
        final(c).description == old(c).description,
{
    let ghost id = doc.doc_id@;
    let ghost d0 = doc;
    let p = match find_doc(&c.docs, doc.doc_id.as_str()) {
        Some(i) => {
            proof {
                lemma_doc_entries_update(c.docs@, i as int, doc);
                lemma_keyed_update(doc_entries(c.docs@), i as int, doc);
            }
            c.docs.set(i, doc);
            i
        },
        None => {
            proof {
                lemma_doc_entries_push(c.docs@, doc);
                lemma_keyed_push(doc_entries(c.docs@), id, doc);
            }
            let n = c.docs.len();
            c.docs.push(doc);
            n
        },
    };
    assert(c.docs@ == put_at(old(c).docs@, p as int, d0));
    assert forall|i: int| 0 <= i < c.docs@.len() implies doc_wf(#[trigger] c.docs@[i]) by {
        if i != p {
            assert(c.docs@[i] == old(c).docs@[i]);
        }
    }
    proof {
        let c0 = *old(c);
        let c1 = *c;
        assert forall|i: int, k: int| holds(c1, i, k) implies (if i == p {
            c1.docs@[i] == d0 && lo@ <= #[trigger] sid(c1, i, k)
        } else {
            holds(c0, i, k) && sid(c1, i, k) == sid(c0, i, k) && sid(c0, i, k) < lo@
        }) by {
            if i != p {
                assert(c1.docs@[i] == c0.docs@[i]);
            }
        }
        assert forall|i: int, k: int, j: int, l: int|
            holds(c1, i, k) && holds(c1, j, l) && #[trigger] sid(c1, i, k) == #[trigger] sid(c1, j, l) implies i
            == j && k == l by {
            if i == p && j == p {
                if k < l {
                    assert(d0.segments@[k].segment_id < d0.segments@[l].segment_id);
                } else if l < k {
                    assert(d0.segments@[l].segment_id < d0.segments@[k].segment_id);
                }
            } else if i != p && j != p {
                assert(sid(c0, i, k) == sid(c0, j, l));
            }
        }
    }
    p
}

/// Marks `c` as having accepted one more document.
fn mark_accepted<V>(c: &mut Collection<V>, skipped_now: u64, description: Option<String>)
    ensures
        final(c).docs == old(c).docs,
        final(c).text_ready,
        final(c).vector_status == VectorStatus::Building,
        final(c).error is None,
        final(c).pending_jobs == if old(c).pending_jobs == u32::MAX {
            u32::MAX
        } else {
            (old(c).pending_jobs + 1) as u32
        },
        final(c).skipped == sat_add(old(c).skipped, skipped_now as int),
        final(c).embedded == old(c).embedded,
        final(c).failed == old(c).failed,
        final(c).description == if named(description) {
            description
        } else {
            old(c).description
        },
{
    c.text_ready = true;
    c.vector_status = VectorStatus::Building;
    c.error = None;
    c.pending_jobs = c.pending_jobs.saturating_add(1);
    c.skipped = c.skipped.saturating_add(skipped_now);
    let keep = match &description {
        Some(d) => is_blank(d.as_str()),
        None => true,
    };
    if !keep {
        c.description = description;
    }
}

/// Install an accepted document into the collection named `name`
/// (creating the collection when it does not exist), marking the
/// collection as building.
fn install<V>(
    core: &mut Core<V>,
    name: String,
    doc: Document<V>,
    skipped_now: u64,
    description: Option<String>,
    lo: Ghost<int>,
)
    requires
        core_wf(*old(core)),
        doc_wf(doc),
        ids_apart(old(core).collections@, lo@),
        lo@ <= old(core).next_segment_id,
        doc_ids_within(doc, lo@, old(core).next_segment_id as int),
    ensures
        core_wf(*final(core)),
        final(core).configured == old(core).configured,
        final(core).embedder_dim == old(core).embedder_dim,
        final(core).config == old(core).config,
        final(core).next_segment_id == old(core).next_segment_id,
        colls(*final(core)) == colls(*old(core)).insert(name@, colls(*final(core))[name@]),
        accepted(prior(*old(core), name@), colls(*final(core))[name@], doc, skipped_now, description),
{
    let ghost n = name@;
    let ghost cs0 = core.collections@;
    match find_coll(&core.collections, name.as_str()) {
        Some(i) => {
            let (nm, mut c) = core.collections.remove(i);
            proof {
                assert(cs0[i as int] == (nm, c));
                lemma_keyed_at(coll_entries(cs0), i as int);
                assert(coll_wf(c));
            }
            let ghost c0 = c;
            let ghost d0 = doc;
            mark_accepted(&mut c, skipped_now, description);
            let ghost c1 = c;
            proof {
                assert(ids_below(c0, lo@));
                lemma_same_ids(c0, c1);
            }
            let p = upsert_doc(&mut c, doc, lo);
            let ghost c2 = c;
            core.collections.insert(i, (nm, c));
            proof {
                lemma_put_ids(c1, c2, d0, p as int, lo@, core.next_segment_id as int);
                assert forall|y: int| 0 <= y < cs0.len() && y != i implies colls_apart(c2, #[trigger] cs0[y].1)
                    && colls_apart(cs0[y].1, c2) by {
                    assert(colls_apart(cs0[i as int].1, cs0[y].1));
                    assert(colls_apart(c1, cs0[y].1));
                    assert(ids_below(cs0[y].1, lo@));
                }
                lemma_apart_update(cs0, i as int, cs0[i as int].0, c2, core.next_segment_id as int);
                assert(core.collections@ =~= cs0.update(i as int, (cs0[i as int].0, c2)));
                lemma_coll_entries_update(cs0, i as int, c2);
                lemma_keyed_update(coll_entries(cs0), i as int, c2);
                lemma_keyed_at(coll_entries(core.collections@), i as int);
                assert forall|j: int| 0 <= j < core.collections@.len() implies coll_wf(
                    #[trigger] core.collections@[j].1,
                ) by {
                    if j != i {
                        assert(core.collections@[j] == cs0[j]);
                    }
                }
            }
        },
        None => {
            let mut c = Collection::new();
            let ghost d0 = doc;
            mark_accepted(&mut c, skipped_now, description);
            let ghost c1 = c;
            let p = upsert_doc(&mut c, doc, lo);
            let ghost c2 = c;
            proof {
                lemma_put_ids(c1, c2, d0, p as int, lo@, core.next_segment_id as int);
                assert forall|y: int| 0 <= y < cs0.len() implies colls_apart(c2, #[trigger] cs0[y].1)
                    && colls_apart(cs0[y].1, c2) by {
                    assert(ids_below(cs0[y].1, lo@));
                }
                lemma_apart_push(cs0, name, c2, core.next_segment_id as int);
                lemma_keyed_empty(doc_entries(Seq::<Document<V>>::empty()));
                lemma_coll_entries_push(cs0, name, c2);
                lemma_keyed_push(coll_entries(cs0), n, c2);
            }
            core.collections.push((name, c));
            proof {
                lemma_keyed_at(coll_entries(core.collections@), cs0.len() as int);
                assert forall|j: int| 0 <= j < core.collections@.len() implies coll_wf(
                    #[trigger] core.collections@[j].1,
                ) by {
                    if j < cs0.len() {
                        assert(core.collections@[j] == cs0[j]);
                    }
                }
            }
        },
    }
}

// ---------------------------------------------------------------------------
// Embedding jobs
// ---------------------------------------------------------------------------

/// A unit of embedding work: the segments of one accepted document to fill
/// with vectors, by id, and the text to embed for each (empty for a segment
/// to skip).
pub struct EmbedJob {
    collection: String,
    doc_id: String,
    segment_ids: Vec<u64>,
    embed_texts: Vec<String>,
}

impl EmbedJob {
    /// One text per id; ids increase.
    #[verifier::type_invariant]
    closed spec fn inv(self) -> bool {
        &&& self.segment_ids@.len() == self.embed_texts@.len()
        &&& forall|i: int, j: int|
            0 <= i < j < self.segment_ids@.len() ==> #[trigger] self.segment_ids@[i]
                < #[trigger] self.segment_ids@[j]
    }

    /// The collection the document was accepted into.
    pub closed spec fn coll_name(self) -> Seq<char> {
        self.collection@
    }

    /// The document's id.
    pub closed spec fn doc(self) -> Seq<char> {
        self.doc_id@
    }

    /// The ids of the segments to fill.
    pub closed spec fn ids(self) -> Seq<u64> {
        self.segment_ids@
    }

    /// The text to embed for each segment; empty for one to skip.
    pub closed spec fn texts(self) -> Seq<Seq<char>> {
        views(self.embed_texts@)
    }

    /// The collection the document was accepted into.
    pub fn collection(&self) -> (r: &String)
        ensures
            r@ == self.coll_name(),
    {
        &self.collection
    }

    /// The document's id.
    pub fn doc_id(&self) -> (r: &String)
        ensures
            r@ == self.doc(),
    {
        &self.doc_id
    }

    /// The ids of the segments to fill.
    pub fn segment_ids(&self) -> (r: &Vec<u64>)
        ensures
            r@ == self.ids(),
            r@.len() == self.texts().len(),
    {
        proof {
            use_type_invariant(self);
        }
        &self.segment_ids
    }

    /// The text to embed for each segment, parallel to the ids.
    pub fn embed_texts(&self) -> (r: &Vec<String>)
        ensures
            views(r@) == self.texts(),
    {
        &self.embed_texts
    }
}

// ---------------------------------------------------------------------------
// index_segments: the synchronous accept
// ---------------------------------------------------------------------------

/// One segment of an `index_segments` request.
pub struct SegmentInput {
    pub text: String,
    pub embed_text: Option<String>,
    pub line_start: Option<u64>,
    pub line_end: Option<u64>,
    pub meta: Json,
}

/// An `index_segments` request.
pub struct IndexRequest {
    pub collection: String,
    pub doc_id: String,
    pub name: String,
    pub meta: Json,
    pub segments: Vec<SegmentInput>,
    /// A description of the collection; a non-blank one replaces the old.
    pub description: Option<String>,
}

/// What the accept of `index_segments` reports.
pub struct AcceptResult {
    pub collection: String,
    pub segment_count: usize,
}

/// The text a segment is embedded from: its `embed_text`, else its text.
pub open spec fn chosen_text(inp: SegmentInput) -> Seq<char> {
    match inp.embed_text {
        Some(e) => e@,
        None => inp.text@,
    }
}

/// The text handed to the embedder: empty (skip) when blank.
pub open spec fn to_embed(t: Seq<char>) -> Seq<char> {
    if blank(t) {
        Seq::empty()
    } else {
        t
    }
}

/// How many inputs have a blank text to embed.
pub open spec fn blank_inputs(ins: Seq<SegmentInput>) -> nat
    decreases ins.len(),
{
    if ins.len() == 0 {
        0
    } else {
        blank_inputs(ins.drop_last()) + if blank(chosen_text(ins.last())) {
            1nat
        } else {
            0nat
        }
    }
}

/// Segment `s` was installed from input `inp` with id `id`, without a
/// vector yet.
pub open spec fn from_input<V>(s: Segment<V>, inp: SegmentInput, id: u64) -> bool {
    &&& s.segment_id == id
    &&& s.text == inp.text
    &&& s.embed_text == inp.embed_text
    &&& s.line_start == inp.line_start
    &&& s.line_end == inp.line_end
    &&& s.meta == inp.meta
    &&& s.vector is None
    &&& seg_wf(s)
}

/// The document installed by an `index_segments` accept whose first segment
/// id was `first`.
pub open spec fn built_doc<V>(d: Document<V>, req: IndexRequest, first: u64) -> bool {
    &&& d.doc_id == req.doc_id
    &&& d.name == req.name
    &&& d.meta == req.meta
    &&& d.full_text is None
    &&& d.line_offsets is None
    &&& d.segments@.len() == req.segments@.len()
    &&& forall|i: int|
        0 <= i < req.segments@.len() ==> from_input(
            #[trigger] d.segments@[i],
            req.segments@[i],
            (first + i) as u64,
        )
}

/// The job of an accepted document: the ids `first..` of its segments and,
/// for each, its text to embed.
pub open spec fn job_for(job: EmbedJob, coll: Seq<char>, doc: Seq<char>, first: u64, texts: Seq<Seq<char>>) -> bool {
    &&& job.coll_name() == coll
    &&& job.doc() == doc
    &&& job.ids().len() == texts.len()
    &&& job.texts() == texts
    &&& forall|i: int| 0 <= i < texts.len() ==> #[trigger] job.ids()[i] == first + i
}

/// The embedder is the one there was, or the mock when there was none.
pub open spec fn embedder_ensured(before: Option<usize>, after: Option<usize>) -> bool {
    after == match before {
        Some(d) => Some(d),
        None => Some(MOCK_DIM),
    }
}

/// What accepting the `index_segments` request `req` on `before` did,
/// giving `after` and `r`.
pub open spec fn index_accepted<V>(before: Core<V>, after: Core<V>, req: IndexRequest, r: (AcceptResult, EmbedJob)) -> bool {
    &&& core_wf(after)
    &&& after.configured == before.configured
    &&& after.config == before.config
    &&& embedder_ensured(before.embedder_dim, after.embedder_dim)
    &&& after.next_segment_id == before.next_segment_id + req.segments@.len()
    &&& colls(after) == colls(before).insert(
        req.collection@,
        colls(after)[req.collection@],
    )
    &&& accepted(
        prior(before, req.collection@),
        colls(after)[req.collection@],
        docs_of(colls(after)[req.collection@])[req.doc_id@],
        blank_inputs(req.segments@) as u64,
        req.description,
    )
    &&& built_doc(
        docs_of(colls(after)[req.collection@])[req.doc_id@],
        req,
        before.next_segment_id,
    )
    &&& job_for(
        r.1,
        req.collection@,
        req.doc_id@,
        before.next_segment_id,
        req.segments@.map_values(|s: SegmentInput| to_embed(chosen_text(s))),
    )
    &&& r.0.collection@ == req.collection@
    &&& r.0.segment_count == req.segments@.len()
}

/// Accept an `index_segments` request: install the document's text
/// segments into its collection now (upserting by `doc_id`), mark the
/// collection text-ready and building, count blank segments as skipped, and
/// hand back the job that will fill the vectors. With no embedder yet, the
/// mock one is assumed.
pub fn accept_index<V>(core: &mut Core<V>, req: IndexRequest) -> (r: (AcceptResult, EmbedJob))
    requires
        core_wf(*old(core)),
        old(core).next_segment_id + req.segments@.len() <= u64::MAX,
    ensures
        index_accepted(*old(core), *final(core), req, r),
{
    if core.embedder_dim.is_none() {
        core.embedder_dim = Some(MOCK_DIM);
    }
    let ghost req0 = req;
    let ghost ins = req.segments@;
    let ghost first = core.next_segment_id;
    let IndexRequest { collection, doc_id, name, meta, segments, description } = req;
    let n = segments.len();
    // Reverse the inputs so that popping yields them in order.
    let mut src = segments;
    let mut stack: Vec<SegmentInput> = Vec::new();
    while src.len() > 0
        invariant
            src@.len() + stack@.len() == n,
            n == ins.len(),
            forall|k: int| 0 <= k < src@.len() ==> #[trigger] src@[k] == ins[k],
            forall|k: int| 0 <= k < stack@.len() ==> #[trigger] stack@[k] == ins[n - 1 - k],
        decreases src@.len(),
    {
        let x = src.pop().unwrap();
        stack.push(x);
    }
    let mut segs: Vec<Segment<V>> = Vec::new();
    let mut ids: Vec<u64> = Vec::new();
    let mut texts: Vec<String> = Vec::new();
    let mut skipped_now: u64 = 0;
    let mut next: u64 = core.next_segment_id;
    let ghost expect = ins.map_values(|s: SegmentInput| to_embed(chosen_text(s)));
    while stack.len() > 0
        invariant
            n == ins.len(),
            stack@.len() <= n,
            forall|k: int| 0 <= k < stack@.len() ==> #[trigger] stack@[k] == ins[n - 1 - k],
            segs@.len() == n - stack@.len(),
            ids@.len() == segs@.len(),
            texts@.len() == segs@.len(),
            next == first + segs@.len(),
            first + n <= u64::MAX,
            skipped_now == blank_inputs(ins.take(segs@.len() as int)),
            skipped_now <= segs@.len(),
            expect == ins.map_values(|s: SegmentInput| to_embed(chosen_text(s))),
            forall|k: int|
                0 <= k < segs@.len() ==> from_input(#[trigger] segs@[k], ins[k], (first + k) as u64),
            forall|k: int| 0 <= k < ids@.len() ==> #[trigger] ids@[k] == first + k,
            views(texts@) == expect.take(segs@.len() as int),
        decreases stack@.len(),
    {
        let ghost j = segs@.len() as int;
        let s = stack.pop().unwrap();
        assert(s == ins[j]);
        let id = next;
        next = next + 1;
        let chosen = match &s.embed_text {
            Some(e) => copy_str(e.as_str()),
            None => copy_str(s.text.as_str()),
        };
        let is_blank_text = is_blank(chosen.as_str());
        proof {
            assert(ins.take(j + 1).drop_last() =~= ins.take(j));
        }
        if is_blank_text {
            skipped_now = skipped_now + 1;
        }
        let et = if is_blank_text {
            String::new()
        } else {
            chosen
        };
        proof {
            assert(views(texts@.push(et)) =~= views(texts@).push(et@));
            assert(expect.take(j + 1) =~= expect.take(j).push(expect[j]));
        }
        ids.push(id);
        texts.push(et);
        let kw = token_multiset(s.text.as_str());
        let SegmentInput { text, embed_text, line_start, line_end, meta: smeta } = s;
        segs.push(
            Segment {
                segment_id: id,
                text,
                embed_text,
                line_start,
                line_end,
                meta: smeta,
                vector: None,
                kw_counts: kw,
            },
        );
    }
    assert(ins.take(n as int) =~= ins);
    assert(expect.take(n as int) =~= expect);
    core.next_segment_id = next;
    let job_doc = copy_str(doc_id.as_str());
    let doc = Document {
        doc_id,
        name,
        meta,
        segments: segs,
        full_text: None,
        line_offsets: None,
    };
    let ghost d = doc;
    let coll_name = copy_str(collection.as_str());
    proof {
        lemma_apart_grow(core.collections@, first as int, next as int);
        assert forall|k: int| 0 <= k < d.segments@.len() implies first <= #[trigger] d.segments@[k].segment_id
            < next by {
            assert(from_input(segs@[k], ins[k], (first + k) as u64));
        }
    }
    install(core, collection, doc, skipped_now, description, Ghost(first as int));
    proof {
        let c = colls(*core)[req0.collection@];
        lemma_docs_of_insert_get(prior(*old(core), req0.collection@), d);
    }
    let job = EmbedJob { collection: coll_name, doc_id: job_doc, segment_ids: ids, embed_texts: texts };
    (AcceptResult { collection: copy_str(job.collection.as_str()), segment_count: n }, job)
}

proof fn lemma_docs_of_insert_get<V>(p: Option<Collection<V>>, d: Document<V>)
    ensures
        prior_docs(p).insert(d.doc_id@, d)[d.doc_id@] == d,
{
}

// ---------------------------------------------------------------------------
// index_raw: normalize, line offsets, chunk, accept
// ---------------------------------------------------------------------------

/// An `index_raw` request: a whole document to chunk.
pub struct RawIndexRequest {
    pub collection: String,
    /// The caller's id; `None` has one assigned.
    pub doc_id: Option<String>,
    pub name: String,
    pub meta: Json,
    /// The document text, in any newline convention.
    pub text: String,
    /// Chunker overrides.
    pub target_tokens: Option<usize>,
    pub max_tokens: Option<usize>,
    pub overlap_lines: Option<usize>,
    /// A pattern whose matching lines start a new chunk, with no overlap
    /// carried across them.
    pub boundary_regex: Option<String>,
    /// A description of the collection; a non-blank one replaces the old.
    pub description: Option<String>,
}

/// The boundary an `index_raw` request chunks at: its pattern, matched
/// case-sensitively with `^` and `$` at the ends of the line.
pub open spec fn raw_boundary(req: RawIndexRequest) -> BoundaryV {
    match req.boundary_regex {
        Some(p) => Some((p@, false, false)),
        None => None,
    }
}

/// The segment ids an `index_raw` accept hands out at most: one per line of
/// the normalized text (no two chunks start on the same line) and one more
/// when it assigns the document id.
pub open spec fn raw_ids_needed(req: RawIndexRequest) -> int {
    line_bounds(normalize_nl(req.text@)).len() + if req.doc_id is None {
        1int
    } else {
        0int
    }
}

/// The boundary pattern of `req`, if any, compiles.
pub open spec fn boundary_compiles(req: RawIndexRequest) -> bool {
    req.boundary_regex matches Some(p) ==> regex_compiles(p@, false, false)
}

/// What the accept of `index_raw` reports; `doc_id` is the one used.
pub struct RawAcceptResult {
    pub collection: String,
    pub doc_id: String,
    pub segment_count: usize,
}

/// The id assigned to a document ingested without one.
pub open spec fn auto_doc_id(n: u64) -> Seq<char> {
    "raw:"@ + decimal(n as nat)
}

/// The id an `index_raw` document is stored under.
pub open spec fn raw_doc_id(req: RawIndexRequest, first: u64) -> Seq<char> {
    match req.doc_id {
        Some(d) => d@,
        None => auto_doc_id(first),
    }
}

/// The first segment id of an `index_raw` document (an assigned doc id
/// takes one id first).
pub open spec fn first_chunk_id(req: RawIndexRequest, first: u64) -> int {
    if req.doc_id is Some {
        first as int
    } else {
        first + 1
    }
}

/// The text a chunk is embedded from: an oversized line is cut to the hard
/// cap; a blank text is skipped (empty).
pub open spec fn chunk_embed(ch: Chunk, cfg: ChunkConfig) -> Seq<char> {
    to_embed(
        if ch.oversized {
            truncated(ch.text@, cfg.max_tokens)
        } else {
            ch.text@
        },
    )
}

/// How many chunks have a blank text to embed.
pub open spec fn blank_chunks(cs: Seq<Chunk>, cfg: ChunkConfig) -> nat
    decreases cs.len(),
{
    if cs.len() == 0 {
        0
    } else {
        blank_chunks(cs.drop_last(), cfg) + if chunk_embed(cs.last(), cfg).len() == 0 {
            1nat
        } else {
            0nat
        }
    }
}

/// Segment `s` was installed from chunk `ch` with id `id`: the chunk's text
/// and line range, empty metadata, no vector yet.
pub open spec fn from_chunk<V>(s: Segment<V>, ch: Chunk, id: int) -> bool {
    &&& s.segment_id == id
    &&& s.text == ch.text
    &&& s.embed_text is None
    &&& s.line_start == Some(ch.line_start)
    &&& s.line_end == Some(ch.line_end)
    &&& jv(s.meta) == JsonV::Object(Seq::empty())
    &&& s.vector is None
    &&& seg_wf(s)
}

/// The document installed by an `index_raw` accept: the normalized full
/// text with its line offsets, and one segment per chunk.
pub open spec fn raw_built<V>(
    d: Document<V>,
    req: RawIndexRequest,
    did: Seq<char>,
    first: int,
    cs: Seq<Chunk>,
) -> bool {
    &&& d.doc_id@ == did
    &&& d.name == req.name
    &&& d.meta == req.meta
    &&& d.full_text matches Some(t) && t@ == normalize_nl(req.text@)
    &&& d.line_offsets is Some
    &&& d.segments@.len() == cs.len()
    &&& forall|i: int| 0 <= i < cs.len() ==> from_chunk(#[trigger] d.segments@[i], cs[i], first + i)
}

/// What accepting the `index_raw` request `req` on `before` did, giving
/// `after` and `r`.
pub open spec fn raw_accepted<V>(before: Core<V>, after: Core<V>, req: RawIndexRequest, r: (RawAcceptResult, EmbedJob)) -> bool {
    &&& core_wf(after)
    &&& after.configured == before.configured
    &&& after.config == before.config
    &&& embedder_ensured(before.embedder_dim, after.embedder_dim)
    &&& colls(after) == colls(before).insert(
        req.collection@,
        colls(after)[req.collection@],
    )
    &&& r.0.collection@ == req.collection@
    &&& r.0.doc_id@ == raw_doc_id(req, before.next_segment_id)
    &&& ({
        let cfg = resolved(
            req.target_tokens,
            req.max_tokens,
            req.overlap_lines,
            before.config.max_seq_len,
        );
        let did = raw_doc_id(req, before.next_segment_id);
        let first = first_chunk_id(req, before.next_segment_id);
        let c = colls(after)[req.collection@];
        let d = docs_of(c)[did];
        exists|cs: Seq<Chunk>|
            {
                &&& chunking(normalize_nl(req.text@), cfg, raw_boundary(req), cs)
                &&& raw_built(d, req, did, first, cs)
                &&& accepted(
                    prior(before, req.collection@),
                    c,
                    d,
                    blank_chunks(cs, cfg) as u64,
                    req.description,
                )
                &&& job_for(
                    r.1,
                    req.collection@,
                    did,
                    first as u64,
                    cs.map_values(|ch: Chunk| chunk_embed(ch, cfg)),
                )
                &&& after.next_segment_id == first + cs.len()
                &&& r.0.segment_count == cs.len()
            }
    })
}

/// Accept an `index_raw` request: normalize the text's newlines, record the
/// byte offset of each line, chunk the text by the resolved config, install
/// the document with one text segment per chunk (upserting by `doc_id`, or
/// under an assigned `raw:<n>` id), mark the collection text-ready and
/// building, and hand back the job that will fill the vectors. An
/// oversized chunk is embedded from its text cut to the hard cap. A line
/// matching the request's boundary pattern starts a new chunk.
pub fn accept_index_raw<V>(core: &mut Core<V>, req: RawIndexRequest) -> (r: (RawAcceptResult, EmbedJob))
    requires
        core_wf(*old(core)),
        old(core).next_segment_id + raw_ids_needed(req) <= u64::MAX,
        boundary_compiles(req),
    ensures
        raw_accepted(*old(core), *final(core), req, r),
{
    if core.embedder_dim.is_none() {
        core.embedder_dim = Some(MOCK_DIM);
    }
    let ghost req0 = req;
    let ghost first0 = core.next_segment_id;
    let RawIndexRequest {
        collection,
        doc_id,
        name,
        meta,
        text,
        target_tokens,
        max_tokens,
        overlap_lines,
        boundary_regex,
        description,
    } = req;
    let matcher = match &boundary_regex {
        Some(p) => match compile(p.as_str(), false, false) {
            Ok(m) => Some(m),
            Err(_) => None,
        },
        None => None,
    };
    let boundary: Option<&Matcher> = match &matcher {
        Some(m) => Some(m),
        None => None,
    };
    assert(boundary_of(boundary) == raw_boundary(req0));
    let full_text = normalize_newlines(text.as_str());
    let line_offsets = build_line_offsets(full_text.as_str());
    let cfg = ChunkConfig::resolve(target_tokens, max_tokens, overlap_lines, core.config.max_seq_len);
    let chunks = chunk_text_at_boundaries(full_text.as_str(), &cfg, boundary);
    let ghost ft = full_text@;
    let ghost cs = chunks@;
    proof {
        lemma_chunk_count(ft, cfg, raw_boundary(req0), cs);
    }
    let mut next: u64 = core.next_segment_id;
    let did = match doc_id {
        Some(id) => id,
        None => {
            let n = next;
            next = next + 1;
            let mut s = String::new();
            push_str(&mut s, "raw:");
            let digits = decimal_string(n);
            push_str(&mut s, digits.as_str());
            proof {
                assert(s@ =~= auto_doc_id(n));
            }
            s
        },
    };
    let ghost first = next;
    let n = chunks.len();
    let mut src = chunks;
    let mut stack: Vec<Chunk> = Vec::new();
    while src.len() > 0
        invariant
            src@.len() + stack@.len() == n,
            n == cs.len(),
            forall|k: int| 0 <= k < src@.len() ==> #[trigger] src@[k] == cs[k],
            forall|k: int| 0 <= k < stack@.len() ==> #[trigger] stack@[k] == cs[n - 1 - k],
        decreases src@.len(),
    {
        let x = src.pop().unwrap();
        stack.push(x);
    }
    let mut segs: Vec<Segment<V>> = Vec::new();
    let mut ids: Vec<u64> = Vec::new();
    let mut texts: Vec<String> = Vec::new();
    let mut skipped_now: u64 = 0;
    let ghost expect = cs.map_values(|ch: Chunk| chunk_embed(ch, cfg));
    while stack.len() > 0
        invariant
            n == cs.len(),
            stack@.len() <= n,
            forall|k: int| 0 <= k < stack@.len() ==> #[trigger] stack@[k] == cs[n - 1 - k],
            segs@.len() == n - stack@.len(),
            ids@.len() == segs@.len(),
            texts@.len() == segs@.len(),
            next == first + segs@.len(),
            first + n <= u64::MAX,
            skipped_now == blank_chunks(cs.take(segs@.len() as int), cfg),
            skipped_now <= segs@.len(),
            expect == cs.map_values(|ch: Chunk| chunk_embed(ch, cfg)),
            forall|k: int| 0 <= k < segs@.len() ==> from_chunk(#[trigger] segs@[k], cs[k], first + k),
            forall|k: int| 0 <= k < ids@.len() ==> #[trigger] ids@[k] == first + k,
            views(texts@) == expect.take(segs@.len() as int),
        decreases stack@.len(),
    {
        let ghost j = segs@.len() as int;
        let ch = stack.pop().unwrap();
        assert(ch == cs[j]);
        let id = next;
        next = next + 1;
        let embed_full = if ch.oversized {
            truncate_to_tokens(ch.text.as_str(), cfg.max_tokens)
        } else {
            copy_str(ch.text.as_str())
        };
        let is_blank_text = is_blank(embed_full.as_str());
        proof {
            assert(cs.take(j + 1).drop_last() =~= cs.take(j));
        }
        if is_blank_text {
            skipped_now = skipped_now + 1;
        }
        let et = if is_blank_text {
            String::new()
        } else {
            embed_full
        };
        proof {
            assert(views(texts@.push(et)) =~= views(texts@).push(et@));
            assert(expect.take(j + 1) =~= expect.take(j).push(expect[j]));
        }
        ids.push(id);
        texts.push(et);
        let kw = token_multiset(ch.text.as_str());
        let Chunk { line_start, line_end, text: ctext, oversized: _ } = ch;
        let m = Json::Object(JsonMap::new());
        segs.push(
            Segment {
                segment_id: id,
                text: ctext,
                embed_text: None,
                line_start: Some(line_start),
                line_end: Some(line_end),
                meta: m,
                vector: None,
                kw_counts: kw,
            },
        );
    }
    assert(cs.take(n as int) =~= cs);
    assert(expect.take(n as int) =~= expect);
    core.next_segment_id = next;
    let job_doc = copy_str(did.as_str());
    let result_doc = copy_str(did.as_str());
    let doc = Document {
        doc_id: did,
        name,
        meta,
        segments: segs,
        full_text: Some(full_text),
        line_offsets: Some(line_offsets),
    };
    let ghost d = doc;
    let coll_name = copy_str(collection.as_str());
    let result_coll = copy_str(collection.as_str());
    proof {
        lemma_apart_grow(core.collections@, first0 as int, next as int);
        assert forall|k: int| 0 <= k < d.segments@.len() implies first0 <= #[trigger] d.segments@[k].segment_id
            < next by {
            assert(from_chunk(segs@[k], cs[k], first + k));
        }
    }
    install(core, collection, doc, skipped_now, description, Ghost(first0 as int));
    proof {
        lemma_docs_of_insert_get(prior(*old(core), req0.collection@), d);
    }
    let job = EmbedJob { collection: coll_name, doc_id: job_doc, segment_ids: ids, embed_texts: texts };
    (RawAcceptResult { collection: result_coll, doc_id: result_doc, segment_count: n }, job)
}

// ---------------------------------------------------------------------------
// Applying a finished job
// ---------------------------------------------------------------------------

/// Two segments agree on everything but their vector.
pub open spec fn same_but_vector<V>(a: Segment<V>, b: Segment<V>) -> bool {
    &&& a.segment_id == b.segment_id
    &&& a.text == b.text
    &&& a.embed_text == b.embed_text
    &&& a.line_start == b.line_start
    &&& a.line_end == b.line_end
    &&& a.meta == b.meta
    &&& a.kw_counts == b.kw_counts
}

/// Job entry `k` names segment `id`, has text to embed, and came back with
/// a valid vector.
pub open spec fn gets_vector<V>(job: EmbedJob, vs: Seq<Option<V>>, k: int, id: u64) -> bool {
    &&& 0 <= k < job.ids().len()
    &&& job.ids()[k] == id
    &&& job.texts()[k].len() > 0
    &&& k < vs.len()
    &&& vs[k] is Some
}

/// The vector of segment `s` after the job entries `lo..` were applied.
pub open spec fn filled_vector<V>(s: Segment<V>, job: EmbedJob, vs: Seq<Option<V>>, lo: int) -> Option<V> {
    if exists|k: int| lo <= k && #[trigger] gets_vector(job, vs, k, s.segment_id) {
        vs[choose|k: int| lo <= k && #[trigger] gets_vector(job, vs, k, s.segment_id)]
    } else {
        s.vector
    }
}

/// The ids of a document's segments.
pub open spec fn seg_ids<V>(d: Document<V>) -> Seq<u64> {
    d.segments@.map_values(|s: Segment<V>| s.segment_id)
}

/// Job entry `k` has text to embed and names a segment of the document.
pub open spec fn counted<V>(job: EmbedJob, d: Document<V>, k: int) -> bool {
    job.texts()[k].len() > 0 && seg_ids(d).contains(job.ids()[k])
}

/// Entries `lo..` that are counted and got a valid vector (`ok`), or are
/// counted and did not (`!ok`).
pub open spec fn tally<V>(job: EmbedJob, d: Document<V>, vs: Seq<Option<V>>, lo: int, ok: bool) -> nat
    decreases job.ids().len() - lo,
{
    if lo >= job.ids().len() || lo < 0 {
        0
    } else {
        tally(job, d, vs, lo + 1, ok) + if counted(job, d, lo) && ((lo < vs.len() && vs[lo] is Some)
            == ok) {
            1nat
        } else {
            0nat
        }
    }
}

/// The document after the job's vectors were filled in: same segments,
/// each holding the vector its job entry brought, if any.
pub open spec fn filled_doc<V>(d0: Document<V>, d: Document<V>, job: EmbedJob, vs: Seq<Option<V>>) -> bool {
    &&& d.doc_id == d0.doc_id
    &&& d.name == d0.name
    &&& d.meta == d0.meta
    &&& d.full_text == d0.full_text
    &&& d.line_offsets == d0.line_offsets
    &&& d.segments@.len() == d0.segments@.len()
    &&& forall|j: int|
        0 <= j < d0.segments@.len() ==> same_but_vector(#[trigger] d.segments@[j], d0.segments@[j])
            && d.segments@[j].vector == filled_vector(d0.segments@[j], job, vs, 0)
}

/// The state of a collection after a job was applied: the vectors its
/// document's segments got, the counts of embedded and failed segments, one
/// job fewer pending, and `Ready` when none is left. A document that is gone
/// (or a job with no vectors at all) changes no segment and counts nothing.
pub open spec fn applied<V>(p: Collection<V>, c: Collection<V>, job: EmbedJob, vectors: Option<Seq<Option<V>>>) -> bool {
    let live = vectors is Some && docs_of(p).contains_key(job.doc());
    let vs = match vectors {
        Some(v) => v,
        None => Seq::empty(),
    };
    let d0 = docs_of(p)[job.doc()];
    &&& c.text_ready == p.text_ready
    &&& c.error == p.error
    &&& c.skipped == p.skipped
    &&& c.description == p.description
    &&& c.pending_jobs == if p.pending_jobs == 0 {
        0
    } else {
        (p.pending_jobs - 1) as u32
    }
    &&& c.vector_status == if c.pending_jobs == 0 {
        VectorStatus::Ready
    } else {
        p.vector_status
    }
    &&& live ==> docs_of(c) == docs_of(p).insert(job.doc(), docs_of(c)[job.doc()])
        && filled_doc(d0, docs_of(c)[job.doc()], job, vs)
    &&& !live ==> docs_of(c) == docs_of(p)
    &&& c.embedded == sat_add(p.embedded, if live { tally(job, d0, vs, 0, true) as int } else { 0 })
    &&& c.failed == sat_add(p.failed, if live { tally(job, d0, vs, 0, false) as int } else { 0 })
}

/// The optional vectors as a sequence.
pub open spec fn vec_view<V>(v: Option<Vec<Option<V>>>) -> Option<Seq<Option<V>>> {
    match v {
        Some(x) => Some(x@),
        None => None,
    }
}

/// The position of segment `id` in a document.
fn find_seg<V>(segs: &Vec<Segment<V>>, id: u64) -> (r: Option<usize>)
    ensures
        match r {
            Some(j) => j < segs@.len() && segs@[j as int].segment_id == id,
            None => forall|j: int| 0 <= j < segs@.len() ==> segs@[j].segment_id != id,
        },
{
    let mut j: usize = 0;
    while j < segs.len()
        invariant
            0 <= j <= segs@.len(),
            forall|k: int| 0 <= k < j ==> segs@[k].segment_id != id,
        decreases segs@.len() - j,
    {
        if segs[j].segment_id == id {
            return Some(j);
        }
        j = j + 1;
    }
    None
}

/// Fill the vectors of one document from a job.
fn fill_doc<V>(doc: &mut Document<V>, job: &EmbedJob, vectors: Vec<Option<V>>) -> (r: (u64, u64))
    requires
        doc_wf(*old(doc)),
    ensures
        doc_wf(*final(doc)),
        filled_doc(*old(doc), *final(doc), *job, vectors@),
        r.0 == tally(*job, *old(doc), vectors@, 0, true),
        r.1 == tally(*job, *old(doc), vectors@, 0, false),
{
    proof {
        use_type_invariant(job);
    }
    let ghost d0 = *doc;
    let ghost vs0 = vectors@;
    let n = job.segment_ids.len();
    let mut vs = vectors;
    while vs.len() > n
        invariant
            vs@.len() <= vs0.len(),
            vs@.len() >= n || vs@.len() == vs0.len(),
            forall|t: int| 0 <= t < vs@.len() ==> vs@[t] == vs0[t],
        decreases vs@.len(),
    {
        vs.pop();
    }
    let mut embedded: u64 = 0;
    let mut failed: u64 = 0;
    let mut i: usize = n;
    while i > 0
        invariant
            n == job.ids().len(),
            n == job.texts().len(),
            job.segment_ids@ == job.ids(),
            views(job.embed_texts@) == job.texts(),
            forall|a: int, b: int| 0 <= a < b < n ==> #[trigger] job.ids()[a] < #[trigger] job.ids()[b],
            0 <= i <= n,
            vs@.len() == if vs0.len() < i { vs0.len() as int } else { i as int },
            forall|t: int| 0 <= t < vs@.len() ==> vs@[t] == vs0[t],
            doc_wf(*doc),
            doc.doc_id == d0.doc_id,
            doc.name == d0.name,
            doc.meta == d0.meta,
            doc.full_text == d0.full_text,
            doc.line_offsets == d0.line_offsets,
            doc.segments@.len() == d0.segments@.len(),
            forall|j: int|
                0 <= j < d0.segments@.len() ==> same_but_vector(#[trigger] doc.segments@[j], d0.segments@[j])
                    && doc.segments@[j].vector == filled_vector(d0.segments@[j], *job, vs0, i as int),
            embedded == tally(*job, d0, vs0, i as int, true),
            failed == tally(*job, d0, vs0, i as int, false),
            embedded + failed <= n - i,
        decreases i,
    {
        let k = i - 1;
        let vk: Option<V> = if vs.len() == i {
            vs.pop().unwrap()
        } else {
            None
        };
        assert(vk == if (k as int) < vs0.len() { vs0[k as int] } else { None });
        let ghost pre_doc = *doc;
        if job.embed_texts[k].as_str().is_empty() {
            assert(job.texts()[k as int].len() == 0);
            proof {
                lemma_fill_step_none(d0, pre_doc, *job, vs0, k as int);
            }
        } else {
            assert(job.texts()[k as int].len() > 0);
            match find_seg(&doc.segments, job.segment_ids[k]) {
                None => {
                    proof {
                        lemma_fill_step_none(d0, pre_doc, *job, vs0, k as int);
                    }
                },
                Some(j) => {
                    match vk {
                        Some(v) => {
                            let mut seg = doc.segments.remove(j);
                            seg.vector = Some(v);
                            let ghost sv = seg;
                            doc.segments.insert(j, seg);
                            assert(doc.segments@ =~= pre_doc.segments@.update(j as int, sv));
                            embedded = embedded + 1;
                            proof {
                                lemma_fill_step_hit(d0, pre_doc, *doc, *job, vs0, k as int, j as int);
                            }
                        },
                        None => {
                            failed = failed + 1;
                            proof {
                                lemma_fill_step_miss(d0, pre_doc, *job, vs0, k as int, j as int);
                            }
                        },
                    }
                },
            }
        }
        i = k;
    }
    (embedded, failed)
}

/// Job entries are distinct by id: at most one entry gets a vector for a
/// given segment.
proof fn lemma_one_entry<V>(job: EmbedJob, vs: Seq<Option<V>>, a: int, b: int, id: u64)
    requires
        forall|x: int, y: int|
            0 <= x < y < job.ids().len() ==> #[trigger] job.ids()[x] < #[trigger] job.ids()[y],
        gets_vector(job, vs, a, id),
        gets_vector(job, vs, b, id),
    ensures
        a == b,
{
    if a < b {
        assert(job.ids()[a] < job.ids()[b]);
    } else if b < a {
        assert(job.ids()[b] < job.ids()[a]);
    }
}

/// Entry `k` not applying to segment `s` leaves its filled vector as from
/// `k + 1`.
proof fn lemma_filled_skip<V>(s: Segment<V>, job: EmbedJob, vs: Seq<Option<V>>, k: int)
    requires
        0 <= k,
        forall|x: int, y: int|
            0 <= x < y < job.ids().len() ==> #[trigger] job.ids()[x] < #[trigger] job.ids()[y],
        !gets_vector(job, vs, k, s.segment_id),
    ensures
        filled_vector(s, job, vs, k) == filled_vector(s, job, vs, k + 1),
{
    let id = s.segment_id;
    if exists|x: int| k <= x && #[trigger] gets_vector(job, vs, x, id) {
        let x1 = choose|x: int| k <= x && #[trigger] gets_vector(job, vs, x, id);
        assert(x1 != k);
        assert(k + 1 <= x1 && gets_vector(job, vs, x1, id));
        let x2 = choose|x: int| k + 1 <= x && #[trigger] gets_vector(job, vs, x, id);
        lemma_one_entry(job, vs, x1, x2, id);
    } else {
        if exists|x: int| k + 1 <= x && #[trigger] gets_vector(job, vs, x, id) {
            let x = choose|x: int| k + 1 <= x && #[trigger] gets_vector(job, vs, x, id);
            assert(k <= x && gets_vector(job, vs, x, id));
        }
    }
}

/// Entry `k` applying to segment `s` makes its filled vector from `k`
/// that of entry `k`.
proof fn lemma_filled_hit<V>(s: Segment<V>, job: EmbedJob, vs: Seq<Option<V>>, k: int)
    requires
        0 <= k,
        forall|x: int, y: int|
            0 <= x < y < job.ids().len() ==> #[trigger] job.ids()[x] < #[trigger] job.ids()[y],
        gets_vector(job, vs, k, s.segment_id),
    ensures
        filled_vector(s, job, vs, k) == vs[k],
{
    let id = s.segment_id;
    assert(k <= k && gets_vector(job, vs, k, id));
    let x = choose|x: int| k <= x && #[trigger] gets_vector(job, vs, x, id);
    lemma_one_entry(job, vs, x, k, id);
}

/// A step of filling in which entry `k` changes nothing.
proof fn lemma_fill_step_none<V>(d0: Document<V>, d: Document<V>, job: EmbedJob, vs: Seq<Option<V>>, k: int)
    requires
        0 <= k < job.ids().len(),
        job.ids().len() == job.texts().len(),
        forall|x: int, y: int|
            0 <= x < y < job.ids().len() ==> #[trigger] job.ids()[x] < #[trigger] job.ids()[y],
        d.segments@.len() == d0.segments@.len(),
        forall|j: int| 0 <= j < d0.segments@.len() ==> same_but_vector(#[trigger] d.segments@[j], d0.segments@[j]),
        job.texts()[k].len() == 0 || forall|j: int|
            0 <= j < d.segments@.len() ==> d.segments@[j].segment_id != job.ids()[k],
    ensures
        forall|j: int|
            0 <= j < d0.segments@.len() ==> filled_vector(#[trigger] d0.segments@[j], job, vs, k)
                == filled_vector(d0.segments@[j], job, vs, k + 1),
        tally(job, d0, vs, k, true) == tally(job, d0, vs, k + 1, true),
        tally(job, d0, vs, k, false) == tally(job, d0, vs, k + 1, false),
{
    assert forall|j: int| 0 <= j < d0.segments@.len() implies filled_vector(
        #[trigger] d0.segments@[j],
        job,
        vs,
        k,
    ) == filled_vector(d0.segments@[j], job, vs, k + 1) by {
        assert(same_but_vector(d.segments@[j], d0.segments@[j]));
        lemma_filled_skip(d0.segments@[j], job, vs, k);
    }
    if seg_ids(d0).contains(job.ids()[k]) && job.texts()[k].len() > 0 {
        let j = choose|j: int| 0 <= j < seg_ids(d0).len() && seg_ids(d0)[j] == job.ids()[k];
        assert(same_but_vector(d.segments@[j], d0.segments@[j]));
    }
    assert(!counted(job, d0, k));
}

/// A step of filling in which entry `k` installs its vector in segment `j`.
proof fn lemma_fill_step_hit<V>(
    d0: Document<V>,
    d: Document<V>,
    d2: Document<V>,
    job: EmbedJob,
    vs: Seq<Option<V>>,
    k: int,
    j: int,
)
    requires
        0 <= k < job.ids().len(),
        job.ids().len() == job.texts().len(),
        forall|x: int, y: int|
            0 <= x < y < job.ids().len() ==> #[trigger] job.ids()[x] < #[trigger] job.ids()[y],
        doc_wf(d),
        d.segments@.len() == d0.segments@.len(),
        forall|i: int| 0 <= i < d0.segments@.len() ==> same_but_vector(#[trigger] d.segments@[i], d0.segments@[i]),
        0 <= j < d.segments@.len(),
        d.segments@[j].segment_id == job.ids()[k],
        job.texts()[k].len() > 0,
        k < vs.len(),
        vs[k] is Some,
        d2.segments@ == d.segments@.update(j, d2.segments@[j]),
        same_but_vector(d2.segments@[j], d.segments@[j]),
        d2.segments@[j].vector == vs[k],
        d2.doc_id == d.doc_id,
        d2.full_text == d.full_text,
        d2.line_offsets == d.line_offsets,
    ensures
        doc_wf(d2),
        forall|i: int| 0 <= i < d0.segments@.len() ==> same_but_vector(#[trigger] d2.segments@[i], d0.segments@[i]),
        d2.segments@[j].vector == filled_vector(d0.segments@[j], job, vs, k),
        forall|i: int|
            0 <= i < d0.segments@.len() && i != j ==> filled_vector(#[trigger] d0.segments@[i], job, vs, k)
                == filled_vector(d0.segments@[i], job, vs, k + 1),
        tally(job, d0, vs, k, true) == tally(job, d0, vs, k + 1, true) + 1,
        tally(job, d0, vs, k, false) == tally(job, d0, vs, k + 1, false),
{
    assert(same_but_vector(d.segments@[j], d0.segments@[j]));
    lemma_filled_hit(d0.segments@[j], job, vs, k);
    assert forall|i: int| 0 <= i < d0.segments@.len() && i != j implies filled_vector(
        #[trigger] d0.segments@[i],
        job,
        vs,
        k,
    ) == filled_vector(d0.segments@[i], job, vs, k + 1) by {
        assert(same_but_vector(d.segments@[i], d0.segments@[i]));
        if i < j {
            assert(d.segments@[i].segment_id < d.segments@[j].segment_id);
        } else {
            assert(d.segments@[j].segment_id < d.segments@[i].segment_id);
        }
        lemma_filled_skip(d0.segments@[i], job, vs, k);
    }
    assert(seg_ids(d0)[j] == job.ids()[k]);
    assert(counted(job, d0, k));
    assert forall|i: int| 0 <= i < d2.segments@.len() implies seg_wf(#[trigger] d2.segments@[i]) by {
        assert(seg_wf(d.segments@[i]));
    }
    assert forall|a: int, b: int|
        0 <= a < b < d2.segments@.len() implies #[trigger] d2.segments@[a].segment_id
        < #[trigger] d2.segments@[b].segment_id by {
        assert(d.segments@[a].segment_id < d.segments@[b].segment_id);
    }
}

/// A step of filling in which entry `k` names segment `j` but brought no
/// valid vector.
proof fn lemma_fill_step_miss<V>(
    d0: Document<V>,
    d: Document<V>,
    job: EmbedJob,
    vs: Seq<Option<V>>,
    k: int,
    j: int,
)
    requires
        0 <= k < job.ids().len(),
        job.ids().len() == job.texts().len(),
        forall|x: int, y: int|
            0 <= x < y < job.ids().len() ==> #[trigger] job.ids()[x] < #[trigger] job.ids()[y],
        d.segments@.len() == d0.segments@.len(),
        forall|i: int| 0 <= i < d0.segments@.len() ==> same_but_vector(#[trigger] d.segments@[i], d0.segments@[i]),
        0 <= j < d.segments@.len(),
        d.segments@[j].segment_id == job.ids()[k],
        job.texts()[k].len() > 0,
        !(k < vs.len() && vs[k] is Some),
    ensures
        forall|i: int|
            0 <= i < d0.segments@.len() ==> filled_vector(#[trigger] d0.segments@[i], job, vs, k)
                == filled_vector(d0.segments@[i], job, vs, k + 1),
        tally(job, d0, vs, k, true) == tally(job, d0, vs, k + 1, true),
        tally(job, d0, vs, k, false) == tally(job, d0, vs, k + 1, false) + 1,
{
    assert forall|i: int| 0 <= i < d0.segments@.len() implies filled_vector(
        #[trigger] d0.segments@[i],
        job,
        vs,
        k,
    ) == filled_vector(d0.segments@[i], job, vs, k + 1) by {
        lemma_filled_skip(d0.segments@[i], job, vs, k);
    }
    assert(same_but_vector(d.segments@[j], d0.segments@[j]));
    assert(seg_ids(d0)[j] == job.ids()[k]);
    assert(counted(job, d0, k));
}

/// Apply a finished job: fill the vectors of its document's segments in
/// place (matched by segment id; ids no longer present, such as those of a
/// document replaced or deleted meanwhile, are passed over), count embedded
/// and failed segments, and flip the collection to `Ready` once no job is
/// pending. A job for a collection that no longer exists changes nothing.
/// `vectors` is `None` when there was no embedder to run; otherwise entry
/// `i` is the vector for entry `i` of the job, `None` where it was invalid.
pub fn apply_job<V>(core: &mut Core<V>, job: EmbedJob, vectors: Option<Vec<Option<V>>>)
    requires
        core_wf(*old(core)),
    ensures
        core_wf(*final(core)),
        final(core).configured == old(core).configured,
        final(core).embedder_dim == old(core).embedder_dim,
        final(core).config == old(core).config,
        final(core).next_segment_id == old(core).next_segment_id,
        !colls(*old(core)).contains_key(job.coll_name()) ==> final(core).collections
            == old(core).collections,
        colls(*old(core)).contains_key(job.coll_name()) ==> {
            &&& colls(*final(core)) == colls(*old(core)).insert(
                job.coll_name(),
                colls(*final(core))[job.coll_name()],
            )
            &&& applied(
                colls(*old(core))[job.coll_name()],
                colls(*final(core))[job.coll_name()],
                job,
                vec_view(vectors),
            )
        },
{
    let ghost cs0 = core.collections@;
    let ghost vv = vec_view(vectors);
    let i = match find_coll(&core.collections, job.collection.as_str()) {
        Some(i) => i,
        None => {
            return;
        },
    };
    let (nm, mut c) = core.collections.remove(i);
    let ghost c0 = c;
    proof {
        assert(cs0[i as int] == (nm, c0));
        lemma_keyed_at(coll_entries(cs0), i as int);
        assert(coll_wf(c0));
    }
    let mut embedded: u64 = 0;
    let mut failed: u64 = 0;
    if let Some(vs) = vectors {
        if let Some(d) = find_doc(&c.docs, job.doc_id.as_str()) {
            let ghost ds0 = c.docs@;
            let mut doc = c.docs.remove(d);
            let ghost d0 = doc;
            proof {
                assert(ds0[d as int] == d0);
                lemma_keyed_at(doc_entries(ds0), d as int);
                assert(doc_wf(d0));
            }
            let (e, f) = fill_doc(&mut doc, &job, vs);
            embedded = e;
            failed = f;
            let ghost d1 = doc;
            c.docs.insert(d, doc);
            proof {
                assert(c.docs@ =~= ds0.update(d as int, d1));
                assert forall|i: int| 0 <= i < c0.docs@.len() implies (#[trigger] c.docs@[i]).segments@.len()
                    == c0.docs@[i].segments@.len() by {
                    if i != d {
                        assert(c.docs@[i] == c0.docs@[i]);
                    }
                }
                assert forall|i: int, k: int| holds(c0, i, k) implies (#[trigger] c.docs@[i].segments@[k]).segment_id
                    == sid(c0, i, k) by {
                    if i != d {
                        assert(c.docs@[i] == c0.docs@[i]);
                    } else {
                        assert(same_but_vector(d1.segments@[k], d0.segments@[k]));
                    }
                }
                lemma_doc_entries_update(ds0, d as int, d1);
                lemma_keyed_update(doc_entries(ds0), d as int, d1);
                lemma_keyed_at(doc_entries(c.docs@), d as int);
                assert forall|j: int| 0 <= j < c.docs@.len() implies doc_wf(#[trigger] c.docs@[j]) by {
                    if j != d {
                        assert(c.docs@[j] == ds0[j]);
                    }
                }
            }
        } else {
            proof {
                assert(!docs_of(c0).contains_key(job.doc()));
            }
        }
    }
    c.embedded = c.embedded.saturating_add(embedded);
    c.failed = c.failed.saturating_add(failed);
    c.pending_jobs = c.pending_jobs.saturating_sub(1);
    if c.pending_jobs == 0 {
        c.vector_status = VectorStatus::Ready;
    }
    let ghost c2 = c;
    core.collections.insert(i, (nm, c));
    proof {
        assert forall|i: int, k: int| holds(c0, i, k) implies #[trigger] sid(c2, i, k) == sid(c0, i, k) by {
            assert(c2.docs@[i].segments@[k].segment_id == sid(c0, i, k));
        }
        lemma_same_ids(c0, c2);
        assert(ids_below(c2, old(core).next_segment_id as int)) by {
            assert(ids_below(cs0[i as int].1, old(core).next_segment_id as int));
        }
        assert forall|y: int| 0 <= y < cs0.len() && y != i implies colls_apart(c2, #[trigger] cs0[y].1)
            && colls_apart(cs0[y].1, c2) by {
            assert(colls_apart(cs0[i as int].1, cs0[y].1));
            assert(colls_apart(cs0[y].1, cs0[i as int].1));
        }
        lemma_apart_update(cs0, i as int, cs0[i as int].0, c2, old(core).next_segment_id as int);
        assert(core.collections@ =~= cs0.update(i as int, (cs0[i as int].0, c2)));
        lemma_coll_entries_update(cs0, i as int, c2);
        lemma_keyed_update(coll_entries(cs0), i as int, c2);
        lemma_keyed_at(coll_entries(core.collections@), i as int);
        assert forall|j: int| 0 <= j < core.collections@.len() implies coll_wf(
            #[trigger] core.collections@[j].1,
        ) by {
            if j != i {
                assert(core.collections@[j] == cs0[j]);
            }
        }
    }
}

// ---------------------------------------------------------------------------
// get_segment: a line range of a stored document
// ---------------------------------------------------------------------------

/// A `get_segment` request: 1-based inclusive lines of a document.
pub struct GetSegmentRequest {
    pub doc_id: String,
    pub line_start: u64,
    pub line_end: u64,
    /// A cap on how many lines come back.
    pub max_lines: Option<usize>,
}

/// Why `get_segment` gave no text.
#[derive(PartialEq, Eq, Debug, Structural)]
pub enum GetSegmentError {
    /// No collection holds a document with that id.
    NotFound,
    /// The document was not ingested whole, so it has no line index.
    NoLineIndex,
}

/// The text of a line range and the range actually used.
pub struct GetSegmentResult {
    pub doc_id: String,
    pub line_start: u64,
    pub line_end: u64,
    pub text: String,
    /// The number of lines in the document.
    pub line_count: u64,
}

/// Some collection holds a document with this id.
pub open spec fn holds_doc<V>(core: Core<V>, id: Seq<char>) -> bool {
    exists|name: Seq<char>|
        #[trigger] colls(core).contains_key(name) && docs_of(colls(core)[name]).contains_key(id)
}

/// `x` clamped to `lo..=hi`.
pub open spec fn clamp(x: int, lo: int, hi: int) -> int {
    if x < lo {
        lo
    } else if x > hi {
        hi
    } else {
        x
    }
}

/// The first line returned for a document of `lc` lines.
pub open spec fn range_start(req: GetSegmentRequest, lc: int) -> int {
    clamp(req.line_start as int, 1, lc)
}

/// The last line returned: the request clamped to the document and to the
/// start, then cut to at most `max_lines` (at least one) lines.
pub open spec fn range_end(req: GetSegmentRequest, lc: int) -> int {
    let start = range_start(req, lc);
    let end = clamp(req.line_end as int, start, lc);
    match req.max_lines {
        Some(m) => {
            let m = if m >= 1 {
                m as int
            } else {
                1
            };
            if end - start + 1 > m {
                start + m - 1
            } else {
                end
            }
        },
        None => end,
    }
}

/// The answer for document `d`: no line index unless it was ingested whole;
/// otherwise the text of the clamped line range and the range used.
pub open spec fn segment_answer<V>(
    d: Document<V>,
    req: GetSegmentRequest,
    r: Result<GetSegmentResult, GetSegmentError>,
) -> bool {
    match d.full_text {
        None => r == Err::<GetSegmentResult, GetSegmentError>(GetSegmentError::NoLineIndex),
        Some(t) => {
            let lc = line_bounds(t@).len() as int;
            let start = range_start(req, lc);
            let end = range_end(req, lc);
            r matches Ok(g) && {
                &&& g.doc_id@ == req.doc_id@
                &&& g.line_count == lc
                &&& g.line_start == start
                &&& g.line_end == end
                &&& g.text@ == lines_text(t@, start - 1, end - 1)
            }
        },
    }
}

/// The slice of a whole document's lines.
fn slice_lines(full_text: &String, offsets: &Vec<usize>, req: &GetSegmentRequest) -> (r: GetSegmentResult)
    requires
        offsets_match(*full_text, *offsets),
    ensures
        ({
            let lc = line_bounds(full_text@).len() as int;
            let start = range_start(*req, lc);
            let end = range_end(*req, lc);
            &&& r.doc_id@ == req.doc_id@
            &&& r.line_count == lc
            &&& r.line_start == start
            &&& r.line_end == end
            &&& r.text@ == lines_text(full_text@, start - 1, end - 1)
        }),
{
    proof {
        lemma_offsets_count_lines(full_text@);
        lemma_line_count_pos(full_text@);
    }
    let lc = offsets.len() as u64;
    let start: u64 = if req.line_start < 1 {
        1
    } else if req.line_start > lc {
        lc
    } else {
        req.line_start
    };
    let mut end: u64 = if req.line_end < start {
        start
    } else if req.line_end > lc {
        lc
    } else {
        req.line_end
    };
    if let Some(m) = req.max_lines {
        let m: u64 = if m >= 1 {
            m as u64
        } else {
            1
        };
        if end - start + 1 > m {
            end = start + m - 1;
        }
    }
    let chars = chars_of(full_text.as_str());
    let lines = line_ranges(&chars);
    let a = lines[(start - 1) as usize].0;
    let b = lines[(end - 1) as usize].1;
    proof {
        lemma_bounds_mono(full_text@, start - 1, end - 1);
    }
    let text = string_of(&chars, a, b);
    GetSegmentResult {
        doc_id: copy_str(req.doc_id.as_str()),
        line_start: start,
        line_end: end,
        text,
        line_count: lc,
    }
}

/// `r` answers the `get_segment` request `req` on `core`.
pub open spec fn segment_lookup<V>(core: Core<V>, req: GetSegmentRequest, r: Result<GetSegmentResult, GetSegmentError>) -> bool {
    &&& !holds_doc(core, req.doc_id@) <==> r == Err::<GetSegmentResult, GetSegmentError>(
        GetSegmentError::NotFound,
    )
    &&& holds_doc(core, req.doc_id@) ==> exists|name: Seq<char>|
        #[trigger] colls(core).contains_key(name) && docs_of(colls(core)[name]).contains_key(
            req.doc_id@,
        ) && segment_answer(docs_of(colls(core)[name])[req.doc_id@], req, r)
}

/// The text of lines `line_start..=line_end` (1-based, inclusive) of a
/// document ingested whole. The range is clamped to the document (a zero or
/// reversed request becomes a single line at the start) and cut to
/// `max_lines`; the range actually used is reported. An unknown `doc_id` is
/// `NotFound`; a document without a line index is `NoLineIndex`. When
/// several collections hold the id, the answer is from one of them.
pub fn get_segment<V>(core: &Core<V>, req: &GetSegmentRequest) -> (r: Result<
    GetSegmentResult,
    GetSegmentError,
>)
    requires
        core_wf(*core),
    ensures
        segment_lookup(*core, *req, r),
{
    let mut i: usize = 0;
    while i < core.collections.len()
        invariant
            core_wf(*core),
            0 <= i <= core.collections@.len(),
            forall|k: int|
                0 <= k < i ==> !has_key(doc_entries(#[trigger] core.collections@[k].1.docs@), req.doc_id@),
        decreases core.collections@.len() - i,
    {
        let c = &core.collections[i].1;
        if let Some(d) = find_doc(&c.docs, req.doc_id.as_str()) {
            let doc = &c.docs[d];
            proof {
                lemma_keyed_at(coll_entries(core.collections@), i as int);
                lemma_keyed_at(doc_entries(c.docs@), d as int);
                assert(doc_wf(*doc));
                let name = core.collections@[i as int].0@;
                assert(colls(*core).contains_key(name));
                assert(docs_of(colls(*core)[name]).contains_key(req.doc_id@));
            }
            let r = match (&doc.full_text, &doc.line_offsets) {
                (Some(t), Some(o)) => Ok(slice_lines(t, o, req)),
                _ => Err(GetSegmentError::NoLineIndex),
            };
            return r;
        }
        i = i + 1;
    }
    proof {
        if holds_doc(*core, req.doc_id@) {
            let name = choose|name: Seq<char>|
                #[trigger] colls(*core).contains_key(name) && docs_of(colls(*core)[name]).contains_key(
                    req.doc_id@,
                );
            let k = key_pos(coll_entries(core.collections@), name);
            assert(has_key(coll_entries(core.collections@), name));
            assert(0 <= k < core.collections@.len());
            assert(has_key(doc_entries(core.collections@[k].1.docs@), req.doc_id@));
        }
    }
    Err(GetSegmentError::NotFound)
}

// ---------------------------------------------------------------------------
// Deleting documents and collections
// ---------------------------------------------------------------------------

/// What `delete_document` did.
pub struct DeleteDocResult {
    /// Whether a document was removed (an unknown id is a no-op).
    pub deleted: bool,
    /// The collection it was in.
    pub collection: Option<String>,
    pub removed_segments: usize,
    /// Whether its collection became empty and was dropped.
    pub collection_dropped: bool,
}

/// Every field of a collection but its documents is the same.
pub open spec fn same_state<V>(a: Collection<V>, b: Collection<V>) -> bool {
    &&& a.text_ready == b.text_ready
    &&& a.vector_status == b.vector_status
    &&& a.error == b.error
    &&& a.pending_jobs == b.pending_jobs
    &&& a.embedded == b.embedded
    &&& a.failed == b.failed
    &&& a.skipped == b.skipped
    &&& a.description == b.description
}

/// Removing document `id` from collection `name`: the collection loses that
/// document, and is dropped when it was its last one.
pub open spec fn doc_removed<V>(before: Core<V>, after: Core<V>, name: Seq<char>, id: Seq<char>) -> bool {
    let c = colls(before)[name];
    if c.docs@.len() == 1 {
        colls(after) == colls(before).remove(name)
    } else {
        &&& colls(after) == colls(before).insert(name, colls(after)[name])
        &&& docs_of(colls(after)[name]) == docs_of(c).remove(id)
        &&& same_state(colls(after)[name], c)
    }
}

/// What removing the document `doc_id` from `before` did, giving `after` and
/// the report `r`.
pub open spec fn doc_deletion<V>(
    before: Core<V>,
    after: Core<V>,
    doc_id: Seq<char>,
    r: DeleteDocResult,
) -> bool {
    &&& core_wf(after)
    &&& after.configured == before.configured
    &&& after.embedder_dim == before.embedder_dim
    &&& after.config == before.config
    &&& after.next_segment_id == before.next_segment_id
    &&& r.deleted == holds_doc(before, doc_id)
    &&& !r.deleted ==> r.collection is None && r.removed_segments == 0 && !r.collection_dropped
        && after.collections == before.collections
    &&& r.deleted ==> (r.collection matches Some(nm) && {
        let name = nm@;
        let c = colls(before)[name];
        &&& colls(before).contains_key(name)
        &&& docs_of(c).contains_key(doc_id)
        &&& r.removed_segments == docs_of(c)[doc_id].segments@.len()
        &&& r.collection_dropped == (c.docs@.len() == 1)
        &&& doc_removed(before, after, name, doc_id)
    })
}

/// Remove a document and all its segments. The collection that held it is
/// dropped when it becomes empty. An unknown `doc_id` is a no-op reported
/// as `deleted: false`. When several collections hold the id, it is removed
/// from one of them.
pub fn delete_document<V>(core: &mut Core<V>, doc_id: &str) -> (r: DeleteDocResult)
    requires
        core_wf(*old(core)),
    ensures
        doc_deletion(*old(core), *final(core), doc_id@, r),
{
    let ghost cs0 = core.collections@;
    let mut i: usize = 0;
    while i < core.collections.len()
        invariant
            *core == *old(core),
            core.collections@ == cs0,
            core_wf(*core),
            0 <= i <= core.collections@.len(),
            forall|k: int|
                0 <= k < i ==> !has_key(doc_entries(#[trigger] core.collections@[k].1.docs@), doc_id@),
        decreases core.collections@.len() - i,
    {
        if let Some(d) = find_doc(&core.collections[i].1.docs, doc_id) {
            let (nm, mut c) = core.collections.remove(i);
            let ghost c0 = c;
            let ghost name = nm@;
            proof {
                assert(cs0[i as int] == (nm, c0));
                lemma_keyed_at(coll_entries(cs0), i as int);
                assert(coll_wf(c0));
                lemma_keyed_at(doc_entries(c0.docs@), d as int);
                assert(colls(*old(core)).contains_key(name));
                assert(docs_of(colls(*old(core))[name]).contains_key(doc_id@));
            }
            let removed_doc = c.docs.remove(d);
            let removed = removed_doc.segments.len();
            proof {
                lemma_doc_entries_remove(c0.docs@, d as int);
                lemma_keyed_remove(doc_entries(c0.docs@), d as int);
            }
            let dropped = c.docs.len() == 0;
            let cname = copy_str(nm.as_str());
            proof {
                lemma_docs_remove(c0, c, d as int);
            }
            if dropped {
                proof {
                    lemma_apart_remove(cs0, i as int, old(core).next_segment_id as int);
                    assert(core.collections@ =~= cs0.remove(i as int));
                    lemma_coll_entries_remove(cs0, i as int);
                    lemma_keyed_remove(coll_entries(cs0), i as int);
                    assert forall|j: int| 0 <= j < core.collections@.len() implies coll_wf(
                        #[trigger] core.collections@[j].1,
                    ) by {
                        if j < i {
                            assert(core.collections@[j] == cs0[j]);
                        } else {
                            assert(core.collections@[j] == cs0[j + 1]);
                        }
                    }
                }
            } else {
                let ghost c2 = c;
                core.collections.insert(i, (nm, c));
                proof {
                    assert(ids_below(c0, old(core).next_segment_id as int));
                    assert forall|y: int| 0 <= y < cs0.len() && y != i implies colls_apart(
                        c2,
                        #[trigger] cs0[y].1,
                    ) && colls_apart(cs0[y].1, c2) by {
                        assert(colls_apart(cs0[i as int].1, cs0[y].1));
                        assert(colls_apart(cs0[y].1, cs0[i as int].1));
                    }
                    lemma_apart_update(cs0, i as int, cs0[i as int].0, c2, old(core).next_segment_id as int);
                    assert(core.collections@ =~= cs0.update(i as int, (cs0[i as int].0, c2)));
                    lemma_coll_entries_update(cs0, i as int, c2);
                    lemma_keyed_update(coll_entries(cs0), i as int, c2);
                    lemma_keyed_at(coll_entries(core.collections@), i as int);
                    assert forall|j: int| 0 <= j < c2.docs@.len() implies doc_wf(#[trigger] c2.docs@[j]) by {
                        if j < d {
                            assert(c2.docs@[j] == c0.docs@[j]);
                        } else {
                            assert(c2.docs@[j] == c0.docs@[j + 1]);
                        }
                    }
                    assert forall|j: int| 0 <= j < core.collections@.len() implies coll_wf(
                        #[trigger] core.collections@[j].1,
                    ) by {
                        if j != i {
                            assert(core.collections@[j] == cs0[j]);
                        }
                    }
                }
            }
            return DeleteDocResult {
                deleted: true,
                collection: Some(cname),
                removed_segments: removed,
                collection_dropped: dropped,
            };
        }
        i = i + 1;
    }
    proof {
        if holds_doc(*old(core), doc_id@) {
            let name = choose|name: Seq<char>|
                #[trigger] colls(*old(core)).contains_key(name) && docs_of(
                    colls(*old(core))[name],
                ).contains_key(doc_id@);
            let k = key_pos(coll_entries(cs0), name);
            assert(has_key(coll_entries(cs0), name));
            assert(has_key(doc_entries(cs0[k].1.docs@), doc_id@));
        }
    }
    DeleteDocResult { deleted: false, collection: None, removed_segments: 0, collection_dropped: false }
}

proof fn lemma_doc_entries_remove<V>(ds: Seq<Document<V>>, i: int)
    requires
        0 <= i < ds.len(),
    ensures
        doc_entries(ds.remove(i)) == doc_entries(ds).remove(i),
{
    assert(doc_entries(ds.remove(i)) =~= doc_entries(ds).remove(i));
}

proof fn lemma_coll_entries_remove<V>(cs: Seq<(String, Collection<V>)>, i: int)
    requires
        0 <= i < cs.len(),
    ensures
        coll_entries(cs.remove(i)) == coll_entries(cs).remove(i),
{
    assert(coll_entries(cs.remove(i)) =~= coll_entries(cs).remove(i));
}

/// What `delete_collection` did.
pub struct DeleteCollectionResult {
    /// Whether a collection was removed (an unknown name is a no-op).
    pub deleted: bool,
    pub removed_docs: usize,
    pub removed_segments: usize,
}

/// What removing the collection `name` from `before` did, giving `after`
/// and the report `r`.
pub open spec fn coll_deletion<V>(
    before: Core<V>,
    after: Core<V>,
    name: Seq<char>,
    r: DeleteCollectionResult,
) -> bool {
    &&& core_wf(after)
    &&& after.configured == before.configured
    &&& after.embedder_dim == before.embedder_dim
    &&& after.config == before.config
    &&& after.next_segment_id == before.next_segment_id
    &&& r.deleted == colls(before).contains_key(name)
    &&& !r.deleted ==> r.removed_docs == 0 && r.removed_segments == 0 && after.collections
        == before.collections
    &&& r.deleted ==> {
        let c = colls(before)[name];
        &&& r.removed_docs == c.docs@.len()
        &&& r.removed_segments == cap(seg_sum(c.docs@) as int)
        &&& colls(after) == colls(before).remove(name)
    }
}

/// Remove a whole collection with all its documents. An unknown name is a
/// no-op reported as `deleted: false`.
pub fn delete_collection<V>(core: &mut Core<V>, collection: &str) -> (r: DeleteCollectionResult)
    requires
        core_wf(*old(core)),
    ensures
        coll_deletion(*old(core), *final(core), collection@, r),
{
    let ghost cs0 = core.collections@;
    match find_coll(&core.collections, collection) {
        None => DeleteCollectionResult { deleted: false, removed_docs: 0, removed_segments: 0 },
        Some(i) => {
            let (nm, c) = core.collections.remove(i);
            proof {
                lemma_apart_remove(cs0, i as int, old(core).next_segment_id as int);
                assert(cs0[i as int] == (nm, c));
                lemma_keyed_at(coll_entries(cs0), i as int);
                lemma_coll_entries_remove(cs0, i as int);
                lemma_keyed_remove(coll_entries(cs0), i as int);
                assert forall|j: int| 0 <= j < core.collections@.len() implies coll_wf(
                    #[trigger] core.collections@[j].1,
                ) by {
                    if j < i {
                        assert(core.collections@[j] == cs0[j]);
                    } else {
                        assert(core.collections@[j] == cs0[j + 1]);
                    }
                }
            }
            let removed_segments = c.n_segments();
            let removed_docs = c.docs.len();
            DeleteCollectionResult { deleted: true, removed_docs, removed_segments }
        },
    }
}

// ---------------------------------------------------------------------------
// Waiting for vectors
// ---------------------------------------------------------------------------

/// Where a collection stands for a caller waiting on its vectors.
#[derive(PartialEq, Eq, Debug, Structural)]
pub enum ReadyState {
    /// Every job has been applied.
    Ready,
    /// A fatal fault was recorded; it will not become ready.
    Failed,
    /// The collection does not exist (or no longer does).
    Gone,
    /// Jobs are still pending.
    Pending,
}

/// Where collection `name` stands: `Ready` first, then a recorded error,
/// else still pending; `Gone` when there is no such collection.
pub fn ready_state<V>(core: &Core<V>, name: &str) -> (r: ReadyState)
    requires
        core_wf(*core),
    ensures
        !colls(*core).contains_key(name@) <==> r == ReadyState::Gone,
        colls(*core).contains_key(name@) ==> {
            let c = colls(*core)[name@];
            r == if c.vector_status == VectorStatus::Ready {
                ReadyState::Ready
            } else if c.error is Some {
                ReadyState::Failed
            } else {
                ReadyState::Pending
            }
        },
{
    match find_coll(&core.collections, name) {
        None => ReadyState::Gone,
        Some(i) => {
            proof {
                lemma_keyed_at(coll_entries(core.collections@), i as int);
            }
            let c = &core.collections[i].1;
            if c.vector_status == VectorStatus::Ready {
                ReadyState::Ready
            } else if c.error.is_some() {
                ReadyState::Failed
            } else {
                ReadyState::Pending
            }
        },
    }
}

} // verus!
