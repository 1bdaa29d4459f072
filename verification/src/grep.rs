//! `grep`: regular-expression search over the stored text of segments.
//!
//! Grep needs no vectors, so it sees a document the moment it is accepted.
//! Each segment's text is newline-normalized and matched line by line;
//! line numbers are 1-based and local to the segment, and up to
//! `context_lines` lines on each side of a match come along. `max_per_doc`
//! caps the hits of one document and `max_matches` the hits overall;
//! reaching the overall cap stops the scan and reports `truncated`.
//!
//! Matching is done by the `regex` crate (finite automata, linear time); a
//! pattern it cannot compile is a `BadPattern` error.

use vstd::prelude::*;

use crate::filter::{admits, effective, MetaFilter};
use crate::json::jv;
use crate::store::{core_wf, Collection, Core, Document, Segment};
use crate::text::{copy_str, lines_of, lines_vec, normalize_newlines, normalize_nl, str_eq, views};

verus! {

broadcast use vstd::seq_lib::group_seq_properties;

/// A compiled regular expression of the `regex` crate.
#[verifier::external_type_specification]
#[verifier::external_body]
pub struct ExRegex(regex::Regex);

/// Whether the `regex` crate compiles `pattern` with the given flags
/// (invalid syntax or an exceeded size limit make it fail).
pub uninterp spec fn regex_compiles(pattern: Seq<char>, ignore_case: bool, multi_line: bool) -> bool;

/// Whether the regex compiled from `pattern` with the given flags matches
/// anywhere in `hay`.
pub uninterp spec fn regex_matches(
    pattern: Seq<char>,
    ignore_case: bool,
    multi_line: bool,
    hay: Seq<char>,
) -> bool;

/// The message the `regex` crate gives for a pattern it cannot compile
/// with the given flags.
pub uninterp spec fn regex_error_message(
    pattern: Seq<char>,
    ignore_case: bool,
    multi_line: bool,
) -> Seq<char>;

/// Calls `RegexBuilder::new(pattern)`, sets `case_insensitive` and
/// `multi_line`, and calls `build`; an error is turned into its message
/// (its `Display`). The contract claims that whether it succeeds, and the
/// message when it does not, are fixed functions of the pattern and the two
/// flags.
#[verifier::external_body]
fn build_regex(pattern: &str, ignore_case: bool, multi_line: bool) -> (r: Result<regex::Regex, String>)
    ensures
        r is Ok == regex_compiles(pattern@, ignore_case, multi_line),
        r matches Err(m) ==> m@ == regex_error_message(pattern@, ignore_case, multi_line),
{
    match regex::RegexBuilder::new(pattern).case_insensitive(ignore_case).multi_line(multi_line).build() {
        Ok(re) => Ok(re),
        Err(e) => Err(e.to_string()),
    }
}

/// A compiled pattern together with the pattern and flags it was built from.
pub struct Matcher {
    re: regex::Regex,
    pattern: String,
    ignore_case: bool,
    multi_line: bool,
}

impl Matcher {
    /// The pattern it was built from.
    pub closed spec fn pattern_v(&self) -> Seq<char> {
        self.pattern@
    }

    /// The case-insensitivity flag it was built with.
    pub closed spec fn ignore_case_v(&self) -> bool {
        self.ignore_case
    }

    /// The multi-line flag it was built with.
    pub closed spec fn multi_line_v(&self) -> bool {
        self.multi_line
    }
}

/// Calls `Regex::is_match` on the compiled pattern of `m`. The contract
/// claims that the answer is a fixed function of the pattern and flags the
/// regex was built from and of the haystack.
#[verifier::external_body]
fn matcher_is_match(m: &Matcher, hay: &str) -> (r: bool)
    ensures
        r == regex_matches(m.pattern_v(), m.ignore_case_v(), m.multi_line_v(), hay@),
{
    m.re.is_match(hay)
}

/// Compile `pattern` with the given flags; the error carries the engine's
/// message.
pub fn compile(pattern: &str, ignore_case: bool, multi_line: bool) -> (r: Result<Matcher, String>)
    ensures
        r is Ok == regex_compiles(pattern@, ignore_case, multi_line),
        r matches Ok(m) ==> m.pattern_v() == pattern@ && m.ignore_case_v() == ignore_case
            && m.multi_line_v() == multi_line,
        r matches Err(msg) ==> msg@ == regex_error_message(pattern@, ignore_case, multi_line),
{
    match build_regex(pattern, ignore_case, multi_line) {
        Ok(re) => Ok(Matcher { re, pattern: copy_str(pattern), ignore_case, multi_line }),
        Err(msg) => Err(msg),
    }
}

/// Whether `m` matches anywhere in `hay`.
pub fn is_match(m: &Matcher, hay: &str) -> (r: bool)
    ensures
        r == regex_matches(m.pattern_v(), m.ignore_case_v(), m.multi_line_v(), hay@),
{
    matcher_is_match(m, hay)
}

// ---------------------------------------------------------------------------
// Requests and hits
// ---------------------------------------------------------------------------

/// A `grep` request.
pub struct GrepRequest {
    /// The regular expression.
    pub pattern: String,
    /// Only this collection, when set.
    pub collection: Option<String>,
    /// Metadata filter over each segment's effective metadata.
    pub filter: MetaFilter,
    pub ignore_case: bool,
    /// `^` and `$` match at line boundaries.
    pub multiline: bool,
    /// Lines of context on each side of a match.
    pub context_lines: usize,
    /// The most hits returned overall (at least one).
    pub max_matches: usize,
    /// The most hits per document (at least one), when set.
    pub max_per_doc: Option<usize>,
}

/// One matching line, located by document, segment and 1-based line number
/// within the segment's text.
pub struct GrepHit {
    pub doc_id: String,
    pub name: String,
    pub collection: String,
    pub segment_id: u64,
    pub line_number: usize,
    pub line_text: String,
    pub context_before: Vec<String>,
    pub context_after: Vec<String>,
}

/// The hits, whether the overall cap stopped the scan, and their number.
pub struct GrepResult {
    pub hits: Vec<GrepHit>,
    pub truncated: bool,
    pub total_found: usize,
}

/// Why grep did not run.
pub enum GrepError {
    /// The pattern does not compile; the engine's message.
    BadPattern(String),
}

/// The content of a hit.
pub struct HitV {
    pub doc_id: Seq<char>,
    pub name: Seq<char>,
    pub collection: Seq<char>,
    pub segment_id: u64,
    pub line_number: int,
    pub line_text: Seq<char>,
    pub before: Seq<Seq<char>>,
    pub after: Seq<Seq<char>>,
}

/// The content of a hit.
pub open spec fn hit_v(h: GrepHit) -> HitV {
    HitV {
        doc_id: h.doc_id@,
        name: h.name@,
        collection: h.collection@,
        segment_id: h.segment_id,
        line_number: h.line_number as int,
        line_text: h.line_text@,
        before: views(h.context_before@),
        after: views(h.context_after@),
    }
}

/// The contents of a sequence of hits.
pub open spec fn hits_v(s: Seq<GrepHit>) -> Seq<HitV> {
    s.map_values(|h: GrepHit| hit_v(h))
}

/// The first `n` elements, or all of them when there are fewer.
pub open spec fn pre<A>(s: Seq<A>, n: int) -> Seq<A> {
    if n >= s.len() {
        s
    } else {
        s.take(n)
    }
}

/// The overall cap: `max_matches`, at least one.
pub open spec fn total_cap(req: GrepRequest) -> int {
    if req.max_matches >= 1 {
        req.max_matches as int
    } else {
        1
    }
}

/// The per-document cap: `max_per_doc`; none when unset.
pub open spec fn doc_cap(req: GrepRequest) -> int {
    match req.max_per_doc {
        Some(m) => m as int,
        None => usize::MAX as int,
    }
}

/// Line `k` of a segment whose lines are `lines` matches the pattern.
pub open spec fn line_matches(req: GrepRequest, line: Seq<char>) -> bool {
    regex_matches(req.pattern@, req.ignore_case, req.multiline, line)
}

/// The hit for line `k` of a segment whose lines are `lines`.
pub open spec fn line_hit<V>(
    req: GrepRequest,
    cn: Seq<char>,
    d: Document<V>,
    seg: Segment<V>,
    lines: Seq<Seq<char>>,
    k: int,
) -> HitV {
    let ctx = req.context_lines as int;
    HitV {
        doc_id: d.doc_id@,
        name: d.name@,
        collection: cn,
        segment_id: seg.segment_id,
        line_number: k + 1,
        line_text: lines[k],
        before: lines.subrange(
            if k >= ctx {
                k - ctx
            } else {
                0
            },
            k,
        ),
        after: lines.subrange(
            k + 1,
            if k + 1 + ctx <= lines.len() {
                k + 1 + ctx
            } else {
                lines.len() as int
            },
        ),
    }
}

/// The hits among the first `n` lines of a segment.
pub open spec fn seg_hits_upto<V>(
    req: GrepRequest,
    cn: Seq<char>,
    d: Document<V>,
    seg: Segment<V>,
    lines: Seq<Seq<char>>,
    n: int,
) -> Seq<HitV>
    decreases n,
{
    if n <= 0 {
        Seq::empty()
    } else {
        let p = seg_hits_upto(req, cn, d, seg, lines, n - 1);
        if line_matches(req, lines[n - 1]) {
            p.push(line_hit(req, cn, d, seg, lines, n - 1))
        } else {
            p
        }
    }
}

/// The lines grep reads from a segment.
pub open spec fn seg_lines<V>(seg: Segment<V>) -> Seq<Seq<char>> {
    lines_of(normalize_nl(seg.text@))
}

/// The hits of a segment: none when the filter rejects it.
pub open spec fn seg_hits<V>(req: GrepRequest, cn: Seq<char>, d: Document<V>, seg: Segment<V>) -> Seq<HitV> {
    if admits(req.filter@, effective(jv(d.meta), jv(seg.meta))) {
        seg_hits_upto(req, cn, d, seg, seg_lines(seg), seg_lines(seg).len() as int)
    } else {
        Seq::empty()
    }
}

/// The hits of the first `j` segments of a document.
pub open spec fn doc_hits_upto<V>(req: GrepRequest, cn: Seq<char>, d: Document<V>, j: int) -> Seq<HitV>
    decreases j,
{
    if j <= 0 {
        Seq::empty()
    } else {
        doc_hits_upto(req, cn, d, j - 1) + seg_hits(req, cn, d, d.segments@[j - 1])
    }
}

/// The hits a document contributes: its hits, cut to the per-document cap.
pub open spec fn doc_part<V>(req: GrepRequest, cn: Seq<char>, d: Document<V>) -> Seq<HitV> {
    pre(doc_hits_upto(req, cn, d, d.segments@.len() as int), doc_cap(req))
}

/// The hits of the first `i` documents of a collection.
pub open spec fn coll_hits_upto<V>(req: GrepRequest, cn: Seq<char>, c: Collection<V>, i: int) -> Seq<HitV>
    decreases i,
{
    if i <= 0 {
        Seq::empty()
    } else {
        coll_hits_upto(req, cn, c, i - 1) + doc_part(req, cn, c.docs@[i - 1])
    }
}

/// Collection `cn` is searched.
pub open spec fn grep_scope(req: GrepRequest, cn: Seq<char>) -> bool {
    match req.collection {
        Some(w) => w@ == cn,
        None => true,
    }
}

/// The hits of the first `k` collections of the store, in store order.
pub open spec fn store_hits_upto<V>(req: GrepRequest, cs: Seq<(String, Collection<V>)>, k: int) -> Seq<HitV>
    decreases k,
{
    if k <= 0 {
        Seq::empty()
    } else {
        store_hits_upto(req, cs, k - 1) + if grep_scope(req, cs[k - 1].0@) {
            coll_hits_upto(req, cs[k - 1].0@, cs[k - 1].1, cs[k - 1].1.docs@.len() as int)
        } else {
            Seq::empty()
        }
    }
}

/// Every hit of a scan of the whole store, before the overall cap: in
/// collection order, then document order, then segment order, then line
/// order, each document's hits cut to the per-document cap.
pub open spec fn all_hits<V>(req: GrepRequest, core: Core<V>) -> Seq<HitV> {
    store_hits_upto(req, core.collections@, core.collections@.len() as int)
}

// ---------------------------------------------------------------------------
// Prefix facts
// ---------------------------------------------------------------------------

proof fn lemma_pre_concat<A>(a: Seq<A>, b: Seq<A>, n: int)
    requires
        0 <= n,
    ensures
        a.len() < n ==> pre(a + b, n) == a + pre(b, n - a.len()),
        a.len() >= n ==> pre(a + b, n) == pre(a, n),
{
    if a.len() < n {
        assert(pre(a + b, n) =~= a + pre(b, n - a.len()));
    } else {
        assert(pre(a + b, n) =~= pre(a, n));
    }
}

proof fn lemma_pre_pre<A>(s: Seq<A>, m: int, n: int)
    requires
        0 <= m,
        0 <= n,
    ensures
        pre(pre(s, m), n) == pre(s, if m <= n { m } else { n }),
{
    assert(pre(pre(s, m), n) =~= pre(s, if m <= n { m } else { n }));
}

/// Hits of a segment's lines accumulate by appending.
proof fn lemma_seg_prefix<V>(
    req: GrepRequest,
    cn: Seq<char>,
    d: Document<V>,
    seg: Segment<V>,
    lines: Seq<Seq<char>>,
    a: int,
    b: int,
)
    requires
        0 <= a <= b,
    ensures
        seg_hits_upto(req, cn, d, seg, lines, a).len() <= seg_hits_upto(req, cn, d, seg, lines, b).len(),
        seg_hits_upto(req, cn, d, seg, lines, b).take(
            seg_hits_upto(req, cn, d, seg, lines, a).len() as int,
        ) == seg_hits_upto(req, cn, d, seg, lines, a),
    decreases b - a,
{
    if a < b {
        lemma_seg_prefix(req, cn, d, seg, lines, a, b - 1);
        let x = seg_hits_upto(req, cn, d, seg, lines, a);
        let y = seg_hits_upto(req, cn, d, seg, lines, b - 1);
        let z = seg_hits_upto(req, cn, d, seg, lines, b);
        assert(z.take(y.len() as int) =~= y);
        assert(z.take(x.len() as int) =~= y.take(x.len() as int));
    } else {
        let x = seg_hits_upto(req, cn, d, seg, lines, a);
        assert(x.take(x.len() as int) =~= x);
    }
}

/// Taking at least the whole of a prefix from the longer sequence gives
/// the prefix cut the same way.
proof fn lemma_pre_of_prefix<A>(x: Seq<A>, y: Seq<A>, n: int)
    requires
        x.len() <= y.len(),
        y.take(x.len() as int) == x,
        0 <= n <= x.len(),
    ensures
        pre(y, n) == pre(x, n),
{
    assert(pre(y, n) =~= pre(x, n));
}

// ---------------------------------------------------------------------------
// The scan
// ---------------------------------------------------------------------------

/// The hits of one segment's lines, at most `room` of them.
fn segment_hits<V>(
    m: &Matcher,
    req: &GrepRequest,
    cn: &str,
    d: &Document<V>,
    seg: &Segment<V>,
    room: usize,
) -> (out: Vec<GrepHit>)
    requires
        m.pattern_v() == req.pattern@,
        m.ignore_case_v() == req.ignore_case,
        m.multi_line_v() == req.multiline,
    ensures
        hits_v(out@) == pre(
            seg_hits_upto(*req, cn@, *d, *seg, seg_lines(*seg), seg_lines(*seg).len() as int),
            room as int,
        ),
{
    let normalized = normalize_newlines(seg.text.as_str());
    let lines = lines_vec(normalized.as_str());
    let ghost ls = seg_lines(*seg);
    let ghost full = seg_hits_upto(*req, cn@, *d, *seg, ls, ls.len() as int);
    let n = lines.len();
    let ctx = req.context_lines;
    let mut out: Vec<GrepHit> = Vec::new();
    let mut k: usize = 0;
    while k < n && out.len() < room
        invariant
            views(lines@) == ls,
            n == ls.len(),
            ctx == req.context_lines,
            m.pattern_v() == req.pattern@,
            m.ignore_case_v() == req.ignore_case,
            m.multi_line_v() == req.multiline,
            full == seg_hits_upto(*req, cn@, *d, *seg, ls, ls.len() as int),
            0 <= k <= n,
            hits_v(out@) == seg_hits_upto(*req, cn@, *d, *seg, ls, k as int),
            out@.len() <= room,
        decreases n - k,
    {
        if is_match(m, lines[k].as_str()) {
            let before_start = if k >= ctx {
                k - ctx
            } else {
                0
            };
            let after_end = if ctx <= n - k - 1 {
                k + 1 + ctx
            } else {
                n
            };
            let mut before: Vec<String> = Vec::new();
            let mut t = before_start;
            while t < k
                invariant
                    views(lines@) == ls,
                    n == ls.len(),
                    before_start <= t <= k < n,
                    views(before@) =~= ls.subrange(before_start as int, t as int),
                decreases k - t,
            {
                let c = copy_str(lines[t].as_str());
                proof {
                    assert(views(before@.push(c)) =~= views(before@).push(c@));
                }
                before.push(c);
                t = t + 1;
            }
            let mut after: Vec<String> = Vec::new();
            let mut t = k + 1;
            while t < after_end
                invariant
                    views(lines@) == ls,
                    n == ls.len(),
                    k + 1 <= t <= after_end <= n,
                    views(after@) =~= ls.subrange(k + 1, t as int),
                decreases after_end - t,
            {
                let c = copy_str(lines[t].as_str());
                proof {
                    assert(views(after@.push(c)) =~= views(after@).push(c@));
                }
                after.push(c);
                t = t + 1;
            }
            let h = GrepHit {
                doc_id: copy_str(d.doc_id.as_str()),
                name: copy_str(d.name.as_str()),
                collection: copy_str(cn),
                segment_id: seg.segment_id,
                line_number: k + 1,
                line_text: copy_str(lines[k].as_str()),
                context_before: before,
                context_after: after,
            };
            proof {
                assert(hit_v(h) == line_hit(*req, cn@, *d, *seg, ls, k as int));
                assert(hits_v(out@.push(h)) =~= hits_v(out@).push(hit_v(h)));
            }
            out.push(h);
        }
        k = k + 1;
    }
    proof {
        lemma_seg_prefix(*req, cn@, *d, *seg, ls, k as int, ls.len() as int);
        let x = seg_hits_upto(*req, cn@, *d, *seg, ls, k as int);
        if k == n {
            assert(pre(full, room as int) == full || x.len() == room);
            if x.len() < room {
                assert(pre(full, room as int) == full);
            } else {
                assert(x.len() == room);
                lemma_pre_of_prefix(x, full, room as int);
                assert(pre(x, room as int) =~= x);
            }
        } else {
            assert(x.len() == room);
            lemma_pre_of_prefix(x, full, room as int);
            assert(pre(x, room as int) =~= x);
        }
    }
    out
}

proof fn lemma_doc_prefix<V>(req: GrepRequest, cn: Seq<char>, d: Document<V>, a: int, b: int)
    requires
        0 <= a <= b,
    ensures
        doc_hits_upto(req, cn, d, a).len() <= doc_hits_upto(req, cn, d, b).len(),
        doc_hits_upto(req, cn, d, b).take(doc_hits_upto(req, cn, d, a).len() as int)
            == doc_hits_upto(req, cn, d, a),
    decreases b - a,
{
    let x = doc_hits_upto(req, cn, d, a);
    if a < b {
        lemma_doc_prefix(req, cn, d, a, b - 1);
        let y = doc_hits_upto(req, cn, d, b - 1);
        let z = doc_hits_upto(req, cn, d, b);
        assert(z.take(y.len() as int) =~= y);
        assert(z.take(x.len() as int) =~= y.take(x.len() as int));
    } else {
        assert(x.take(x.len() as int) =~= x);
    }
}

proof fn lemma_coll_prefix<V>(req: GrepRequest, cn: Seq<char>, c: Collection<V>, a: int, b: int)
    requires
        0 <= a <= b,
    ensures
        coll_hits_upto(req, cn, c, a).len() <= coll_hits_upto(req, cn, c, b).len(),
        coll_hits_upto(req, cn, c, b).take(coll_hits_upto(req, cn, c, a).len() as int)
            == coll_hits_upto(req, cn, c, a),
    decreases b - a,
{
    let x = coll_hits_upto(req, cn, c, a);
    if a < b {
        lemma_coll_prefix(req, cn, c, a, b - 1);
        let y = coll_hits_upto(req, cn, c, b - 1);
        let z = coll_hits_upto(req, cn, c, b);
        assert(z.take(y.len() as int) =~= y);
        assert(z.take(x.len() as int) =~= y.take(x.len() as int));
    } else {
        assert(x.take(x.len() as int) =~= x);
    }
}

proof fn lemma_store_prefix<V>(req: GrepRequest, cs: Seq<(String, Collection<V>)>, a: int, b: int)
    requires
        0 <= a <= b,
    ensures
        store_hits_upto(req, cs, a).len() <= store_hits_upto(req, cs, b).len(),
        store_hits_upto(req, cs, b).take(store_hits_upto(req, cs, a).len() as int)
            == store_hits_upto(req, cs, a),
    decreases b - a,
{
    let x = store_hits_upto(req, cs, a);
    if a < b {
        lemma_store_prefix(req, cs, a, b - 1);
        let y = store_hits_upto(req, cs, b - 1);
        let z = store_hits_upto(req, cs, b);
        assert(z.take(y.len() as int) =~= y);
        assert(z.take(x.len() as int) =~= y.take(x.len() as int));
    } else {
        assert(x.take(x.len() as int) =~= x);
    }
}

/// Whether collection `cn` is searched.
fn in_grep_scope(req: &GrepRequest, cn: &str) -> (r: bool)
    ensures
        r == grep_scope(*req, cn@),
{
    match &req.collection {
        Some(w) => str_eq(w.as_str(), cn),
        None => true,
    }
}

/// Append the hits of one document to `out`, stopping at the per-document
/// cap and at the overall cap.
fn document_hits<V>(
    m: &Matcher,
    req: &GrepRequest,
    cn: &str,
    d: &Document<V>,
    dc: usize,
    tc: usize,
    out: &mut Vec<GrepHit>,
)
    requires
        m.pattern_v() == req.pattern@,
        m.ignore_case_v() == req.ignore_case,
        m.multi_line_v() == req.multiline,
        dc == doc_cap(*req),
        tc == total_cap(*req),
        old(out)@.len() < tc,
    ensures
        hits_v(final(out)@) == pre(hits_v(old(out)@) + doc_part(*req, cn@, *d), tc as int),
        final(out)@.len() <= tc,
{
    let ghost p = hits_v(out@);
    let ghost kk = if dc <= tc - out@.len() {
        dc as int
    } else {
        tc - out@.len()
    };
    let ghost dall = doc_hits_upto(*req, cn@, *d, d.segments@.len() as int);
    let mut dcount: usize = 0;
    let mut j: usize = 0;
    while j < d.segments.len() && dcount < dc && out.len() < tc
        invariant
            m.pattern_v() == req.pattern@,
            m.ignore_case_v() == req.ignore_case,
            m.multi_line_v() == req.multiline,
            dc == doc_cap(*req),
            tc == total_cap(*req),
            p.len() < tc,
            kk == if dc <= tc - p.len() {
                dc as int
            } else {
                tc - p.len()
            },
            dall == doc_hits_upto(*req, cn@, *d, d.segments@.len() as int),
            0 <= j <= d.segments@.len(),
            hits_v(out@) == p + pre(doc_hits_upto(*req, cn@, *d, j as int), kk),
            dcount == pre(doc_hits_upto(*req, cn@, *d, j as int), kk).len(),
            out@.len() == p.len() + dcount,
        decreases d.segments@.len() - j,
    {
        let seg = &d.segments[j];
        let ghost dj = doc_hits_upto(*req, cn@, *d, j as int);
        let ghost sh = seg_hits(*req, cn@, *d, d.segments@[j as int]);
        assert(doc_hits_upto(*req, cn@, *d, j + 1) == dj + sh);
        if req.filter.matches_doc_seg(&d.meta, &seg.meta) {
            let room_doc = dc - dcount;
            let room_all = tc - out.len();
            let room = if room_doc <= room_all {
                room_doc
            } else {
                room_all
            };
            let mut hs = segment_hits(m, req, cn, d, seg, room);
            proof {
                assert(pre(dj, kk) =~= dj);
                lemma_pre_concat(dj, sh, kk);
                assert(hits_v(out@ + hs@) =~= hits_v(out@) + hits_v(hs@));
            }
            dcount = dcount + hs.len();
            out.append(&mut hs);
        } else {
            proof {
                assert(dj + sh =~= dj);
            }
        }
        j = j + 1;
    }
    proof {
        let dj = doc_hits_upto(*req, cn@, *d, j as int);
        lemma_doc_prefix(*req, cn@, *d, j as int, d.segments@.len() as int);
        if j < d.segments@.len() {
            assert(dcount == kk);
            lemma_pre_of_prefix(dj, dall, kk);
        }
        assert(pre(dall, kk) == pre(dj, kk));
        lemma_pre_pre(dall, dc as int, tc - p.len());
        lemma_pre_concat(p, pre(dall, dc as int), tc as int);
    }
}

/// `r` answers the grep request `req` on `core`.
pub open spec fn grep_answer<V>(core: Core<V>, req: GrepRequest, r: Result<GrepResult, GrepError>) -> bool {
    &&& r is Ok == regex_compiles(req.pattern@, req.ignore_case, req.multiline)
    &&& r matches Err(GrepError::BadPattern(m)) ==> m@ == regex_error_message(
        req.pattern@,
        req.ignore_case,
        req.multiline,
    )
    &&& r matches Ok(g) ==> {
        &&& hits_v(g.hits@) == pre(all_hits(req, core), total_cap(req))
        &&& g.truncated == (all_hits(req, core).len() >= total_cap(req))
        &&& g.total_found == g.hits@.len()
    }
}

/// Search the stored segment text for lines matching `req.pattern`. The
/// hits come collection by collection, document by document, segment by
/// segment, line by line; each document gives at most `max_per_doc` of
/// them and the whole scan at most `max_matches`, whose reaching sets
/// `truncated`. A pattern that does not compile is `BadPattern`.
pub fn grep<V>(core: &Core<V>, req: &GrepRequest) -> (r: Result<GrepResult, GrepError>)
    requires
        core_wf(*core),
    ensures
        grep_answer(*core, *req, r),
{
    let m = match compile(req.pattern.as_str(), req.ignore_case, req.multiline) {
        Ok(m) => m,
        Err(msg) => {
            return Err(GrepError::BadPattern(msg));
        },
    };
    let tc: usize = if req.max_matches >= 1 {
        req.max_matches
    } else {
        1
    };
    let dc: usize = match req.max_per_doc {
        Some(x) => x,
        None => usize::MAX,
    };
    let ghost cs = core.collections@;
    let ghost all = all_hits(*req, *core);
    let mut out: Vec<GrepHit> = Vec::new();
    let mut full = false;
    let mut k: usize = 0;
    while k < core.collections.len() && !full
        invariant
            m.pattern_v() == req.pattern@,
            m.ignore_case_v() == req.ignore_case,
            m.multi_line_v() == req.multiline,
            dc == doc_cap(*req),
            tc == total_cap(*req),
            cs == core.collections@,
            all == store_hits_upto(*req, cs, cs.len() as int),
            0 <= k <= cs.len(),
            hits_v(out@) == pre(store_hits_upto(*req, cs, k as int), tc as int),
            full == (out@.len() >= tc),
            out@.len() <= tc,
        decreases cs.len() - k,
    {
        let ghost sk = store_hits_upto(*req, cs, k as int);
        let cn = &core.collections[k].0;
        let c = &core.collections[k].1;
        if in_grep_scope(req, cn.as_str()) {
            proof {
                assert(pre(sk, tc as int) =~= sk);
            }
            let mut i: usize = 0;
            while i < c.docs.len() && !full
                invariant
                    m.pattern_v() == req.pattern@,
                    m.ignore_case_v() == req.ignore_case,
                    m.multi_line_v() == req.multiline,
                    dc == doc_cap(*req),
                    tc == total_cap(*req),
                    sk.len() < tc,
                    0 <= i <= c.docs@.len(),
                    hits_v(out@) == pre(sk + coll_hits_upto(*req, cn@, *c, i as int), tc as int),
                    full == (out@.len() >= tc),
                    out@.len() <= tc,
                decreases c.docs@.len() - i,
            {
                let ghost ci = coll_hits_upto(*req, cn@, *c, i as int);
                let ghost dp = doc_part(*req, cn@, c.docs@[i as int]);
                proof {
                    assert(pre(sk + ci, tc as int) =~= sk + ci);
                    assert(sk + coll_hits_upto(*req, cn@, *c, i + 1) =~= (sk + ci) + dp);
                }
                document_hits(&m, req, cn.as_str(), &c.docs[i], dc, tc, &mut out);
                full = out.len() >= tc;
                i = i + 1;
            }
            proof {
                let ci = coll_hits_upto(*req, cn@, *c, i as int);
                let call = coll_hits_upto(*req, cn@, *c, c.docs@.len() as int);
                lemma_coll_prefix(*req, cn@, *c, i as int, c.docs@.len() as int);
                assert(store_hits_upto(*req, cs, k + 1) == sk + call);
                if i < c.docs@.len() {
                    assert((sk + call).take((sk + ci).len() as int) =~= sk + ci);
                    assert((sk + ci).len() <= (sk + call).len());
                    lemma_pre_of_prefix(sk + ci, sk + call, tc as int);
                }
            }
        } else {
            proof {
                assert(store_hits_upto(*req, cs, k + 1) =~= sk);
            }
        }
        k = k + 1;
    }
    proof {
        let sk = store_hits_upto(*req, cs, k as int);
        lemma_store_prefix(*req, cs, k as int, cs.len() as int);
        if k < cs.len() {
            lemma_pre_of_prefix(sk, all, tc as int);
        }
    }
    let total_found = out.len();
    Ok(GrepResult { hits: out, truncated: full, total_found })
}

} // verus!
