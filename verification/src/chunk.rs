//! Line-snapped chunking of a normalized document by token budget, with
//! overlapping lines between consecutive chunks. An optional boundary
//! pattern makes chunking follow the document's structure: a line matching
//! it always starts a new chunk, and no overlap is carried across it.

use vstd::prelude::*;

use crate::grep::{is_match, regex_matches, Matcher};
use crate::text::{
    bounds_wf, chars_of, is_whitespace, lemma_line_bounds_wf, line_bounds,
    line_ranges, string_of, token_estimate, word_count,
};

verus! {

broadcast use vstd::seq_lib::group_seq_properties;

/// Default token target per chunk when the request gives none.
pub const DEFAULT_CHUNK_TARGET_TOKENS: usize = 300;

/// Default number of trailing lines of one chunk repeated at the start of the next.
pub const DEFAULT_OVERLAP_LINES: usize = 2;

/// Knobs controlling how [`chunk_text`] splits a document.
#[derive(Clone, Copy)]
pub struct ChunkConfig {
    /// Soft per-chunk token budget the chunker aims for (snapped to line ends).
    pub target_tokens: usize,
    /// Hard cap on tokens per chunk; a single line over it becomes one
    /// oversized chunk of its own.
    pub max_tokens: usize,
    /// Number of trailing lines of one chunk repeated at the start of the next.
    pub overlap_lines: usize,
}

/// The config [`ChunkConfig::resolve`] produces.
pub open spec fn resolved(
    target_tokens: Option<usize>,
    max_tokens: Option<usize>,
    overlap_lines: Option<usize>,
    config_max_seq_len: Option<u64>,
) -> ChunkConfig {
    let target = match target_tokens {
        Some(t) => if t >= 1 {
            t
        } else {
            1
        },
        None => DEFAULT_CHUNK_TARGET_TOKENS,
    };
    let cap = match max_tokens {
        Some(m) => m,
        None => match config_max_seq_len {
            Some(v) => v as usize,
            None => target,
        },
    };
    ChunkConfig {
        target_tokens: target,
        max_tokens: if cap >= target {
            cap
        } else {
            target
        },
        overlap_lines: {
            let o = match overlap_lines {
                Some(o) => o,
                None => DEFAULT_OVERLAP_LINES,
            };
            if o < target {
                o
            } else {
                (target - 1) as usize
            }
        },
    }
}

impl ChunkConfig {
    /// Resolve a (possibly partial) request config against the store's
    /// `max_seq_len`: target defaults to 300 and is at least 1; the hard cap is
    /// the explicit value, else the configured `max_seq_len`, else the target,
    /// and never below the target; overlap defaults to 2 and is kept below
    /// the target, so that chunking always moves forward.
    pub fn resolve(
        target_tokens: Option<usize>,
        max_tokens: Option<usize>,
        overlap_lines: Option<usize>,
        config_max_seq_len: Option<u64>,
    ) -> (c: ChunkConfig)
        ensures
            c.target_tokens == (match target_tokens {
                Some(t) => if t >= 1 {
                    t
                } else {
                    1
                },
                None => DEFAULT_CHUNK_TARGET_TOKENS,
            }),
            c.max_tokens == ({
                let cap = match max_tokens {
                    Some(m) => m,
                    None => match config_max_seq_len {
                        Some(v) => v as usize,
                        None => c.target_tokens,
                    },
                };
                if cap >= c.target_tokens {
                    cap
                } else {
                    c.target_tokens
                }
            }),
            c.overlap_lines == ({
                let o = match overlap_lines {
                    Some(o) => o,
                    None => DEFAULT_OVERLAP_LINES,
                };
                if o < c.target_tokens {
                    o
                } else {
                    (c.target_tokens - 1) as usize
                }
            }),
            c.target_tokens >= 1,
            c.max_tokens >= c.target_tokens,
            c.overlap_lines < c.target_tokens,
            c == resolved(target_tokens, max_tokens, overlap_lines, config_max_seq_len),
    {
        let t = match target_tokens {
            Some(t) => t,
            None => DEFAULT_CHUNK_TARGET_TOKENS,
        };
        let target = if t >= 1 {
            t
        } else {
            1
        };
        let cap0 = match max_tokens {
            Some(m) => m,
            None => match config_max_seq_len {
                Some(v) => v as usize,
                None => target,
            },
        };
        let cap = if cap0 >= target {
            cap0
        } else {
            target
        };
        let o = match overlap_lines {
            Some(o) => o,
            None => DEFAULT_OVERLAP_LINES,
        };
        let overlap = if o < target {
            o
        } else {
            target - 1
        };
        ChunkConfig { target_tokens: target, max_tokens: cap, overlap_lines: overlap }
    }
}

/// One chunk: its 1-based inclusive line range, the exact text of those
/// lines, and whether it is a single line that alone exceeds `max_tokens`.
pub struct Chunk {
    pub line_start: u64,
    pub line_end: u64,
    pub text: String,
    pub oversized: bool,
}

/// Token estimate of line `k` of `s`.
pub open spec fn line_tokens(s: Seq<char>, k: int) -> nat {
    let b = line_bounds(s)[k];
    token_estimate(s.subrange(b.0, b.1))
}

/// Token estimate summed over lines `a..=e`.
pub open spec fn range_tokens(s: Seq<char>, a: int, e: int) -> nat
    decreases e - a,
{
    if e <= a {
        line_tokens(s, a)
    } else {
        range_tokens(s, a, e - 1) + line_tokens(s, e)
    }
}

/// The text of lines `a..=e` (0-based), joined with `\n`: the characters from
/// the start of line `a` to the end of line `e`.
pub open spec fn lines_text(s: Seq<char>, a: int, e: int) -> Seq<char> {
    s.subrange(line_bounds(s)[a].0, line_bounds(s)[e].1)
}

/// A boundary pattern with its case-insensitivity and multi-line flags.
pub type BoundaryV = Option<(Seq<char>, bool, bool)>;

/// The boundary pattern of an optional matcher.
pub open spec fn boundary_of(m: Option<&Matcher>) -> BoundaryV {
    match m {
        Some(m) => Some((m.pattern_v(), m.ignore_case_v(), m.multi_line_v())),
        None => None,
    }
}

/// Line `k` (0-based) of `s` is a boundary: it is not the first line and
/// the boundary pattern matches it.
pub open spec fn boundary_at(s: Seq<char>, bnd: BoundaryV, k: int) -> bool {
    match bnd {
        Some(b) => 0 < k < line_bounds(s).len() && regex_matches(b.0, b.1, b.2, lines_text(s, k, k)),
        None => false,
    }
}

/// Where the chunk after one spanning 0-based lines `start..=end` begins:
/// right at the line after `end` when that line is a boundary, otherwise
/// as `next_start` says.
pub open spec fn step(s: Seq<char>, cfg: ChunkConfig, bnd: BoundaryV, start: int, end: int) -> int {
    if boundary_at(s, bnd, end + 1) {
        end + 1
    } else {
        next_start(start, end, cfg.overlap_lines as int)
    }
}

/// Where the chunk after one spanning 0-based lines `start..=end` begins:
/// `overlap` lines back from the line after `end`, but always past `start`.
pub open spec fn next_start(start: int, end: int, overlap: int) -> int {
    let back = if end + 1 >= overlap {
        end + 1 - overlap
    } else {
        0
    };
    if back >= start + 1 {
        back
    } else {
        start + 1
    }
}

/// The shape of chunk `c` when it begins at 0-based line `start`: an
/// oversized single line when that line alone exceeds the hard cap,
/// otherwise as many following lines as fit in the target budget (at least
/// the first line), stopping before a boundary line. No line after the
/// first is a boundary.
pub open spec fn chunk_spans(s: Seq<char>, cfg: ChunkConfig, bnd: BoundaryV, c: Chunk, start: int) -> bool {
    let n = line_bounds(s).len();
    let end = c.line_end - 1;
    &&& c.line_start == start + 1
    &&& start <= end < n
    &&& c.oversized == (line_tokens(s, start) > cfg.max_tokens)
    &&& c.oversized ==> end == start
    &&& !c.oversized ==> (end == start || range_tokens(s, start, end) <= cfg.target_tokens)
    &&& !c.oversized ==> (end == n - 1 || boundary_at(s, bnd, end + 1) || range_tokens(s, start, end + 1)
        > cfg.target_tokens)
    &&& forall|k: int| start < k <= end ==> !#[trigger] boundary_at(s, bnd, k)
    &&& c.text@ == lines_text(s, start, end)
}

/// The chunking of `s`: the first chunk starts at line 1; every chunk spans
/// as `chunk_spans` says; each next chunk starts where `step` says; and the
/// last chunk is the one after which no line is left.
pub open spec fn chunking(s: Seq<char>, cfg: ChunkConfig, bnd: BoundaryV, cs: Seq<Chunk>) -> bool {
    let n = line_bounds(s).len() as int;
    &&& cs.len() >= 1
    &&& cs[0].line_start == 1
    &&& forall|i: int|
        0 <= i < cs.len() ==> chunk_spans(s, cfg, bnd, #[trigger] cs[i], cs[i].line_start - 1)
    &&& forall|i: int|
        0 <= i < cs.len() - 1 ==> (#[trigger] cs[i + 1]).line_start - 1 == step(
            s,
            cfg,
            bnd,
            cs[i].line_start - 1,
            cs[i].line_end - 1,
        )
    &&& step(s, cfg, bnd, cs.last().line_start - 1, cs.last().line_end - 1) >= n
}

proof fn lemma_estimate_le_len(s: Seq<char>)
    ensures
        token_estimate(s) <= s.len(),
{
    crate::text::lemma_word_count_le(s);
}

/// Token estimate of `chars[a..b]`.
fn estimate_range(chars: &Vec<char>, a: usize, b: usize) -> (n: usize)
    requires
        a <= b <= chars@.len(),
    ensures
        n == token_estimate(chars@.subrange(a as int, b as int)),
        n <= b - a,
{
    let ghost sub = chars@.subrange(a as int, b as int);
    let mut words: usize = 0;
    let mut i = a;
    while i < b
        invariant
            a <= i <= b <= chars@.len(),
            sub == chars@.subrange(a as int, b as int),
            words == word_count(sub.take(i - a)),
            words <= i - a,
        decreases b - i,
    {
        proof {
            assert(sub.take(i - a + 1).drop_last() =~= sub.take(i - a));
        }
        if !is_whitespace(chars[i]) && (i == a || is_whitespace(chars[i - 1])) {
            words = words + 1;
        }
        i = i + 1;
    }
    assert(sub.take(b - a) =~= sub);
    let c = (b - a) / 4;
    proof {
        lemma_estimate_le_len(sub);
    }
    if words >= c {
        words
    } else {
        c
    }
}

proof fn lemma_range_tokens_bound(s: Seq<char>, a: int, e: int)
    requires
        bounds_wf(s, line_bounds(s)),
        0 <= a <= e < line_bounds(s).len(),
    ensures
        range_tokens(s, a, e) <= line_bounds(s)[e].1 - line_bounds(s)[a].0,
    decreases e - a,
{
    let b = line_bounds(s);
    reveal(bounds_wf);
    if e > a {
        lemma_range_tokens_bound(s, a, e - 1);
        lemma_estimate_le_len(s.subrange(b[e].0, b[e].1));
        assert(b[e - 1].1 + 1 == b[e].0);
    } else {
        lemma_estimate_le_len(s.subrange(b[e].0, b[e].1));
    }
}

/// Whether line `k` (0-based) is a boundary.
fn is_boundary_line(
    chars: &Vec<char>,
    lines: &Vec<(usize, usize)>,
    k: usize,
    boundary: Option<&Matcher>,
) -> (r: bool)
    requires
        bounds_wf(chars@, line_bounds(chars@)),
        lines@.len() == line_bounds(chars@).len(),
        forall|j: int|
            0 <= j < lines@.len() ==> (#[trigger] lines@[j]).0 as int == line_bounds(chars@)[j].0
                && lines@[j].1 as int == line_bounds(chars@)[j].1,
    ensures
        r == boundary_at(chars@, boundary_of(boundary), k as int),
{
    match boundary {
        None => false,
        Some(m) => {
            if k == 0 || k >= lines.len() {
                false
            } else {
                proof {
                    crate::text::lemma_bounds_mono(chars@, k as int, k as int);
                }
                let line = string_of(chars, lines[k].0, lines[k].1);
                is_match(m, line.as_str())
            }
        },
    }
}

/// The chunk that begins at 0-based line `start`.
fn chunk_at(
    chars: &Vec<char>,
    lines: &Vec<(usize, usize)>,
    start: usize,
    cfg: &ChunkConfig,
    boundary: Option<&Matcher>,
) -> (c: Chunk)
    requires
        bounds_wf(chars@, line_bounds(chars@)),
        lines@.len() == line_bounds(chars@).len(),
        forall|k: int|
            0 <= k < lines@.len() ==> (#[trigger] lines@[k]).0 as int == line_bounds(chars@)[k].0
                && lines@[k].1 as int == line_bounds(chars@)[k].1,
        start < lines@.len(),
    ensures
        chunk_spans(chars@, *cfg, boundary_of(boundary), c, start as int),
{
    let ghost bnd = boundary_of(boundary);
    let ghost s = chars@;
    let ghost b = line_bounds(s);
    let n = lines.len();
    let mut end = start;
    proof {
        crate::text::lemma_bounds_mono(s, start as int, start as int);
    }
    let mut tokens = estimate_range(chars, lines[start].0, lines[start].1);
    let oversized = tokens > cfg.max_tokens;
    let mut done = false;
    if !oversized {
        while !done && end + 1 < n
            invariant
                chars@ == s,
                b == line_bounds(s),
                bounds_wf(s, b),
                n == lines@.len(),
                n == b.len(),
                forall|k: int|
                    0 <= k < n ==> (#[trigger] lines@[k]).0 as int == b[k].0 && lines@[k].1 as int
                        == b[k].1,
                start <= end < n,
                tokens == range_tokens(s, start as int, end as int),
                end == start || tokens <= cfg.target_tokens,
                done ==> end + 1 < n && (boundary_at(s, bnd, end + 1) || range_tokens(
                    s,
                    start as int,
                    end + 1,
                ) > cfg.target_tokens),
                bnd == boundary_of(boundary),
                forall|k: int| start < k <= end ==> !#[trigger] boundary_at(s, bnd, k),
            decreases n - end, if done { 0int } else { 1int },
        {
            if is_boundary_line(chars, lines, end + 1, boundary) {
                done = true;
            } else {
                proof {
                    crate::text::lemma_bounds_mono(s, (end + 1) as int, (end + 1) as int);
                    lemma_range_tokens_bound(s, start as int, (end + 1) as int);
                    crate::text::lemma_bounds_mono(s, start as int, (end + 1) as int);
                }
                let next_tokens = estimate_range(chars, lines[end + 1].0, lines[end + 1].1);
                if tokens + next_tokens > cfg.target_tokens {
                    done = true;
                } else {
                    tokens = tokens + next_tokens;
                    end = end + 1;
                }
            }
        }
    }
    proof {
        crate::text::lemma_bounds_mono(s, start as int, end as int);
    }
    let text = string_of(chars, lines[start].0, lines[end].1);
    Chunk { line_start: (start + 1) as u64, line_end: (end + 1) as u64, text, oversized }
}

/// Split a normalized document into line-snapped chunks by token budget.
///
/// Walk the lines, accumulating lines into the current chunk while the
/// running token estimate stays within `target_tokens`; the next chunk backs
/// up `overlap_lines` lines so consecutive chunks overlap, but always starts
/// past the previous start. A first line that alone exceeds `max_tokens`
/// becomes its own oversized chunk. An empty document yields one empty chunk
/// covering line 1.
pub fn chunk_text(text: &str, cfg: &ChunkConfig) -> (chunks: Vec<Chunk>)
    ensures
        chunking(text@, *cfg, None, chunks@),
{
    chunk_text_at_boundaries(text, cfg, None)
}

/// Split a normalized document as [`chunk_text`] does, and besides start a
/// new chunk at every line (after the first) that `boundary` matches, with
/// no overlap carried back across it: a chunk never joins the tail of one
/// section to the head of the next. A section over the token budget still
/// splits into several chunks, overlapping inside it.
pub fn chunk_text_at_boundaries(text: &str, cfg: &ChunkConfig, boundary: Option<&Matcher>) -> (chunks: Vec<Chunk>)
    ensures
        chunking(text@, *cfg, boundary_of(boundary), chunks@),
{
    let ghost bnd = boundary_of(boundary);
    let chars = chars_of(text);
    let lines = line_ranges(&chars);
    let ghost s = text@;
    proof {
        lemma_line_bounds_wf(s);
        assert(line_bounds(s).len() >= 1) by {
            reveal(bounds_wf);
        }
    }
    let n = lines.len();
    let mut chunks: Vec<Chunk> = Vec::new();
    let mut start: usize = 0;
    while start < n
        invariant
            chars@ == s,
            bounds_wf(s, line_bounds(s)),
            n == lines@.len(),
            n == line_bounds(s).len(),
            forall|k: int|
                0 <= k < n ==> (#[trigger] lines@[k]).0 as int == line_bounds(s)[k].0
                    && lines@[k].1 as int == line_bounds(s)[k].1,
            start < n || chunks@.len() >= 1,
            chunks@.len() == 0 ==> start == 0,
            chunks@.len() >= 1 ==> chunks@[0].line_start == 1,
            bnd == boundary_of(boundary),
            forall|i: int|
                0 <= i < chunks@.len() ==> chunk_spans(
                    s,
                    *cfg,
                    bnd,
                    #[trigger] chunks@[i],
                    chunks@[i].line_start - 1,
                ),
            forall|i: int|
                0 <= i < chunks@.len() - 1 ==> (#[trigger] chunks@[i + 1]).line_start - 1 == step(
                    s,
                    *cfg,
                    bnd,
                    chunks@[i].line_start - 1,
                    chunks@[i].line_end - 1,
                ),
            chunks@.len() >= 1 ==> start == step(
                s,
                *cfg,
                bnd,
                chunks@.last().line_start - 1,
                chunks@.last().line_end - 1,
            ),
        decreases n - start,
    {
        let chunk = chunk_at(&chars, &lines, start, cfg, boundary);
        let end = (chunk.line_end - 1) as usize;
        let ghost before = chunks@;
        chunks.push(chunk);
        let back = if end + 1 >= cfg.overlap_lines {
            end + 1 - cfg.overlap_lines
        } else {
            0
        };
        let next = if is_boundary_line(&chars, &lines, end + 1, boundary) {
            end + 1
        } else if back >= start + 1 {
            back
        } else {
            start + 1
        };
        proof {
            assert forall|i: int| 0 <= i < chunks@.len() - 1 implies (#[trigger] chunks@[i
                + 1]).line_start - 1 == step(
                s,
                *cfg,
                bnd,
                chunks@[i].line_start - 1,
                chunks@[i].line_end - 1,
            ) by {
                if i < before.len() - 1 {
                    assert(chunks@[i + 1] == before[i + 1]);
                }
            }
        }
        start = next;
    }
    chunks
}

/// A chunking has at most one chunk per line: chunk `i` starts at or after
/// line `i + 1`.
pub proof fn lemma_chunk_count(s: Seq<char>, cfg: ChunkConfig, bnd: BoundaryV, cs: Seq<Chunk>)
    requires
        chunking(s, cfg, bnd, cs),
    ensures
        cs.len() <= line_bounds(s).len(),
{
    assert forall|i: int| 0 <= i < cs.len() implies #[trigger] cs[i].line_start >= i + 1 by {
        lemma_start_at_least(s, cfg, bnd, cs, i);
    }
    let last = cs.len() - 1;
    assert(chunk_spans(s, cfg, bnd, cs[last], cs[last].line_start - 1));
}

/// Chunk `i` of a chunking starts at or after line `i + 1`.
pub proof fn lemma_start_at_least(s: Seq<char>, cfg: ChunkConfig, bnd: BoundaryV, cs: Seq<Chunk>, i: int)
    requires
        chunking(s, cfg, bnd, cs),
        0 <= i < cs.len(),
    ensures
        cs[i].line_start >= i + 1,
    decreases i,
{
    if i > 0 {
        lemma_start_at_least(s, cfg, bnd, cs, i - 1);
        assert(chunk_spans(s, cfg, bnd, cs[i - 1], cs[i - 1].line_start - 1));
        assert(cs[i].line_start - 1 == step(
            s,
            cfg,
            bnd,
            cs[i - 1].line_start - 1,
            cs[i - 1].line_end - 1,
        ));
    }
}

} // verus!
