//! Character-level text primitives shared by chunking, grep, keyword search
//! and the line-slicing of stored documents.
//!
//! The line model is the same everywhere: text is first normalized so that
//! CRLF and lone CR become LF, and a "line" is a `\n`-separated piece, so a
//! text with `n` newlines has `n + 1` lines.

use vstd::prelude::*;
use vstd::string::StringSliceAdditionalSpecFns;

verus! {

broadcast use vstd::seq_lib::group_seq_properties;

// ---------------------------------------------------------------------------
// Characters
// ---------------------------------------------------------------------------

/// Unicode `White_Space`, the set `char::is_whitespace` tests.
pub open spec fn is_ws(c: char) -> bool {
    ||| ('\u{9}' <= c && c <= '\u{d}')
    ||| c == ' '
    ||| c == '\u{85}'
    ||| c == '\u{a0}'
    ||| c == '\u{1680}'
    ||| ('\u{2000}' <= c && c <= '\u{200a}')
    ||| c == '\u{2028}'
    ||| c == '\u{2029}'
    ||| c == '\u{202f}'
    ||| c == '\u{205f}'
    ||| c == '\u{3000}'
}

/// Whether `c` is Unicode whitespace.
pub fn is_whitespace(c: char) -> (r: bool)
    ensures
        r == is_ws(c),
{
    ('\u{9}' <= c && c <= '\u{d}') || c == ' ' || c == '\u{85}' || c == '\u{a0}' || c
        == '\u{1680}' || ('\u{2000}' <= c && c <= '\u{200a}') || c == '\u{2028}' || c
        == '\u{2029}' || c == '\u{202f}' || c == '\u{205f}' || c == '\u{3000}'
}

/// What `char::is_alphanumeric` answers for a character (Unicode `Alphabetic`
/// or `Numeric`); a fixed table of the standard library.
pub uninterp spec fn alnum(c: char) -> bool;

/// What `str::to_lowercase` produces for a text: the Unicode lowercase
/// mapping, including its context-dependent final-sigma rule.
pub uninterp spec fn lowercase(s: Seq<char>) -> Seq<char>;

/// Calls `char::is_alphanumeric`. The contract claims only that the answer is
/// a fixed function of the character.
#[verifier::external_body]
pub(crate) fn is_alphanumeric(c: char) -> (r: bool)
    ensures
        r == alnum(c),
{
    c.is_alphanumeric()
}

/// Calls `str::to_lowercase`. The contract claims only that the result is a
/// fixed function of the input text.
#[verifier::external_body]
pub(crate) fn to_lowercase(s: &str) -> (r: String)
    ensures
        r@ == lowercase(s@),
{
    s.to_lowercase()
}

/// Calls `String::push`: appends one character.
#[verifier::external_body]
pub(crate) fn push_char(s: &mut String, c: char)
    ensures
        final(s)@ == old(s)@.push(c),
{
    s.push(c);
}

/// Copies the characters of `s` into a vector.
pub fn chars_of(s: &str) -> (v: Vec<char>)
    ensures
        v@ == s@,
{
    let mut v: Vec<char> = Vec::new();
    for c in it: s.chars()
        invariant
            v@ == it.seq().take(it.index() as int),
    {
        v.push(c);
    }
    v
}

/// Builds a string from `chars[start..end]`.
pub fn string_of(chars: &Vec<char>, start: usize, end: usize) -> (s: String)
    requires
        start <= end <= chars@.len(),
    ensures
        s@ == chars@.subrange(start as int, end as int),
{
    let mut s = String::new();
    let mut i = start;
    while i < end
        invariant
            start <= i <= end <= chars@.len(),
            s@ == chars@.subrange(start as int, i as int),
        decreases end - i,
    {
        push_char(&mut s, chars[i]);
        i = i + 1;
    }
    s
}

/// Appends the characters of `t` to `s`.
pub fn push_str(s: &mut String, t: &str)
    ensures
        final(s)@ == old(s)@ + t@,
{
    let cs = chars_of(t);
    let mut i: usize = 0;
    while i < cs.len()
        invariant
            0 <= i <= cs@.len(),
            cs@ == t@,
            s@ == old(s)@ + t@.take(i as int),
        decreases cs@.len() - i,
    {
        push_char(s, cs[i]);
        i = i + 1;
    }
    assert(t@.take(cs@.len() as int) =~= t@);
}

/// Copies a string.
pub fn copy_str(t: &str) -> (s: String)
    ensures
        s@ == t@,
{
    let mut s = String::new();
    push_str(&mut s, t);
    assert(Seq::<char>::empty() + t@ =~= t@);
    s
}

/// Whether two strings hold the same characters.
pub fn str_eq(a: &str, b: &str) -> (r: bool)
    ensures
        r == (a@ == b@),
{
    let x = chars_of(a);
    let y = chars_of(b);
    if x.len() != y.len() {
        return false;
    }
    let mut i: usize = 0;
    while i < x.len()
        invariant
            x@ == a@,
            y@ == b@,
            x@.len() == y@.len(),
            0 <= i <= x@.len(),
            forall|j: int| 0 <= j < i ==> x@[j] == y@[j],
        decreases x@.len() - i,
    {
        if x[i] != y[i] {
            return false;
        }
        i = i + 1;
    }
    assert(x@ =~= y@);
    true
}

// ---------------------------------------------------------------------------
// Blank text
// ---------------------------------------------------------------------------

/// A text is blank when every character is whitespace (`str::trim` leaves it empty).
pub open spec fn blank(s: Seq<char>) -> bool {
    forall|i: int| 0 <= i < s.len() ==> is_ws(#[trigger] s[i])
}

/// Whether `s` is empty or whitespace only.
pub fn is_blank(s: &str) -> (r: bool)
    ensures
        r == blank(s@),
{
    let cs = chars_of(s);
    let mut i: usize = 0;
    while i < cs.len()
        invariant
            cs@ == s@,
            0 <= i <= cs@.len(),
            forall|j: int| 0 <= j < i ==> is_ws(#[trigger] cs@[j]),
        decreases cs@.len() - i,
    {
        if !is_whitespace(cs[i]) {
            return false;
        }
        i = i + 1;
    }
    true
}

// ---------------------------------------------------------------------------
// Trimming
// ---------------------------------------------------------------------------

/// Number of leading whitespace characters.
pub open spec fn lead_ws(s: Seq<char>) -> nat
    decreases s.len(),
{
    if s.len() > 0 && is_ws(s[0]) {
        1 + lead_ws(s.skip(1))
    } else {
        0
    }
}

/// Number of trailing whitespace characters.
pub open spec fn trail_ws(s: Seq<char>) -> nat
    decreases s.len(),
{
    if s.len() > 0 && is_ws(s.last()) {
        1 + trail_ws(s.drop_last())
    } else {
        0
    }
}

/// `str::trim`: the text without leading and trailing whitespace.
pub open spec fn trimmed(s: Seq<char>) -> Seq<char> {
    if lead_ws(s) == s.len() {
        Seq::empty()
    } else {
        s.subrange(lead_ws(s) as int, s.len() - trail_ws(s))
    }
}

/// A word of lower-case ASCII letters is its own trimmed, lower-cased form.
pub proof fn lemma_trimmed_lower_plain(s: Seq<char>)
    requires
        s.len() > 0,
        forall|i: int| 0 <= i < s.len() ==> 'a' <= #[trigger] s[i] && s[i] <= 'z',
    ensures
        lower_ascii(trimmed(s)) == s,
{
    assert(lead_ws(s) == 0);
    assert(trail_ws(s) == 0);
    assert(s.subrange(0, s.len() as int) =~= s);
    assert(lower_ascii(s) =~= s);
}

proof fn lemma_lead_ws(s: Seq<char>, i: int)
    requires
        0 <= i <= s.len(),
        forall|j: int| 0 <= j < i ==> is_ws(#[trigger] s[j]),
        i == s.len() || !is_ws(s[i]),
    ensures
        lead_ws(s) == i,
    decreases i,
{
    if i > 0 {
        lemma_lead_ws(s.skip(1), i - 1);
    }
}

proof fn lemma_trail_ws(s: Seq<char>, i: int)
    requires
        0 <= i <= s.len(),
        forall|j: int| i <= j < s.len() ==> is_ws(#[trigger] s[j]),
        i == 0 || !is_ws(s[i - 1]),
    ensures
        trail_ws(s) == s.len() - i,
    decreases s.len() - i,
{
    if i < s.len() {
        lemma_trail_ws(s.drop_last(), i);
    }
}

/// `chars[start..end]` with leading and trailing whitespace removed.
pub fn trim_range(chars: &Vec<char>, start: usize, end: usize) -> (s: String)
    requires
        start <= end <= chars@.len(),
    ensures
        s@ == trimmed(chars@.subrange(start as int, end as int)),
{
    let ghost sub = chars@.subrange(start as int, end as int);
    let mut a = start;
    while a < end && is_whitespace(chars[a])
        invariant
            start <= a <= end <= chars@.len(),
            sub == chars@.subrange(start as int, end as int),
            forall|j: int| 0 <= j < a - start ==> is_ws(#[trigger] sub[j]),
        decreases end - a,
    {
        a = a + 1;
    }
    proof {
        lemma_lead_ws(sub, a - start);
    }
    if a == end {
        return String::new();
    }
    let mut b = end;
    while b > a && is_whitespace(chars[b - 1])
        invariant
            start <= a < end <= chars@.len(),
            a < b <= end,
            !is_ws(chars@[a as int]),
            sub == chars@.subrange(start as int, end as int),
            forall|j: int| b - start <= j < sub.len() ==> is_ws(#[trigger] sub[j]),
        decreases b - a,
    {
        b = b - 1;
    }
    proof {
        lemma_trail_ws(sub, b - start);
    }
    let r = string_of(chars, a, b);
    assert(r@ =~= trimmed(sub));
    r
}

/// `str::trim`.
pub fn trim(s: &str) -> (r: String)
    ensures
        r@ == trimmed(s@),
{
    let cs = chars_of(s);
    let r = trim_range(&cs, 0, cs.len());
    assert(cs@.subrange(0, cs@.len() as int) =~= s@);
    r
}

// ---------------------------------------------------------------------------
// Newline normalization
// ---------------------------------------------------------------------------

/// CRLF and lone CR become LF (`replace("\r\n", "\n")` then `replace('\r', "\n")`).
pub open spec fn normalize_nl(s: Seq<char>) -> Seq<char>
    decreases s.len(),
{
    if s.len() == 0 {
        Seq::empty()
    } else if s[0] == '\r' && s.len() > 1 && s[1] == '\n' {
        seq!['\n'] + normalize_nl(s.skip(2))
    } else if s[0] == '\r' {
        seq!['\n'] + normalize_nl(s.skip(1))
    } else {
        seq![s[0]] + normalize_nl(s.skip(1))
    }
}

/// A normalized text holds no carriage return.
pub proof fn lemma_normalized_has_no_cr(s: Seq<char>)
    ensures
        !normalize_nl(s).contains('\r'),
    decreases s.len(),
{
    if s.len() > 0 {
        if s[0] == '\r' && s.len() > 1 && s[1] == '\n' {
            lemma_normalized_has_no_cr(s.skip(2));
            assert(!(seq!['\n'] + normalize_nl(s.skip(2))).contains('\r'));
        } else {
            lemma_normalized_has_no_cr(s.skip(1));
            assert(!(seq![if s[0] == '\r' { '\n' } else { s[0] }] + normalize_nl(
                s.skip(1),
            )).contains('\r'));
        }
    }
}

/// Normalizing a text without carriage returns changes nothing.
pub proof fn lemma_normalize_without_cr(s: Seq<char>)
    requires
        !s.contains('\r'),
    ensures
        normalize_nl(s) == s,
    decreases s.len(),
{
    if s.len() > 0 {
        assert(!s.skip(1).contains('\r')) by {
            if s.skip(1).contains('\r') {
                let k = choose|k: int| 0 <= k < s.skip(1).len() && s.skip(1)[k] == '\r';
                assert(s[k + 1] == '\r');
            }
        }
        assert(s[0] != '\r');
        lemma_normalize_without_cr(s.skip(1));
        assert(seq![s[0]] + s.skip(1) =~= s);
    }
}

/// Normalizing twice is normalizing once.
pub proof fn lemma_normalize_idempotent(s: Seq<char>)
    ensures
        normalize_nl(normalize_nl(s)) == normalize_nl(s),
{
    lemma_normalized_has_no_cr(s);
    lemma_normalize_without_cr(normalize_nl(s));
}

/// Normalizing never lengthens a text.
pub proof fn lemma_normalize_len(s: Seq<char>)
    ensures
        normalize_nl(s).len() <= s.len(),
    decreases s.len(),
{
    if s.len() > 0 {
        if s[0] == '\r' && s.len() > 1 && s[1] == '\n' {
            lemma_normalize_len(s.skip(2));
        } else {
            lemma_normalize_len(s.skip(1));
        }
    }
}

/// Whether the text holds a carriage return, the only case in which
/// normalizing it changes anything.
pub fn has_carriage_return(s: &str) -> (r: bool)
    ensures
        r == s@.contains('\r'),
        !r ==> normalize_nl(s@) == s@,
{
    let cs = chars_of(s);
    let mut i: usize = 0;
    while i < cs.len()
        invariant
            cs@ == s@,
            0 <= i <= cs@.len(),
            forall|k: int| 0 <= k < i ==> cs@[k] != '\r',
        decreases cs@.len() - i,
    {
        if cs[i] == '\r' {
            assert(s@[i as int] == '\r');
            return true;
        }
        i = i + 1;
    }
    proof {
        lemma_normalize_without_cr(s@);
    }
    false
}

/// Turns CRLF and lone CR into LF, so line numbers counted by `\n` do not
/// depend on the newline convention of the source. A text without a
/// carriage return comes back as it is.
pub fn normalize_newlines(s: &str) -> (r: String)
    ensures
        r@ == normalize_nl(s@),
{
    if !has_carriage_return(s) {
        return copy_str(s);
    }
    let cs = chars_of(s);
    let mut out = String::new();
    let mut i: usize = 0;
    while i < cs.len()
        invariant
            cs@ == s@,
            0 <= i <= cs@.len(),
            out@ + normalize_nl(cs@.skip(i as int)) == normalize_nl(s@),
        decreases cs@.len() - i,
    {
        let ghost rest = cs@.skip(i as int);
        if cs[i] == '\r' && i + 1 < cs.len() && cs[i + 1] == '\n' {
            assert(rest.skip(2) =~= cs@.skip(i + 2));
            push_char(&mut out, '\n');
            i = i + 2;
        } else if cs[i] == '\r' {
            assert(rest.skip(1) =~= cs@.skip(i + 1));
            push_char(&mut out, '\n');
            i = i + 1;
        } else {
            assert(rest.skip(1) =~= cs@.skip(i + 1));
            push_char(&mut out, cs[i]);
            i = i + 1;
        }
    }
    assert(cs@.skip(cs@.len() as int) =~= Seq::<char>::empty());
    out
}


// ---------------------------------------------------------------------------
// Lines
// ---------------------------------------------------------------------------

/// The `[start, end)` character range of every `\n`-separated line of `s`
/// (the pieces of `split('\n')`): a text with `n` newlines has `n + 1` lines,
/// and a trailing newline yields a final empty line.
pub open spec fn line_bounds(s: Seq<char>) -> Seq<(int, int)>
    decreases s.len(),
{
    if s.len() == 0 {
        seq![(0int, 0int)]
    } else {
        let p = line_bounds(s.drop_last());
        if s.last() == '\n' {
            p.push((s.len() as int, s.len() as int))
        } else {
            p.update(p.len() - 1, (p.last().0, s.len() as int))
        }
    }
}

/// The lines of `s`, without their separating `\n`.
pub open spec fn lines_of(s: Seq<char>) -> Seq<Seq<char>> {
    line_bounds(s).map_values(|b: (int, int)| s.subrange(b.0, b.1))
}

/// Whether `c` is a line feed.
pub open spec fn is_nl(c: char) -> bool {
    c == '\n'
}

/// The shape of the line table: lines tile the text, consecutive lines are
/// separated by exactly one `\n`, and no line holds a `\n`.
#[verifier::opaque]
pub open spec fn bounds_wf(s: Seq<char>, b: Seq<(int, int)>) -> bool {
    &&& b.len() >= 1
    &&& b.len() == s.filter(|c: char| is_nl(c)).len() + 1
    &&& b[0].0 == 0
    &&& b.last().1 == s.len()
    &&& forall|k: int| 0 <= k < b.len() ==> 0 <= #[trigger] b[k].0 <= b[k].1 <= s.len()
    &&& forall|k: int| 0 <= k < b.len() - 1 ==> #[trigger] b[k].1 + 1 == b[k + 1].0
    &&& forall|k: int| 0 <= k < b.len() - 1 ==> s[#[trigger] b[k].1] == '\n'
    &&& forall|k: int, j: int|
        #![trigger s[j], b[k]]
        0 <= k < b.len() && b[k].0 <= j < b[k].1 ==> s[j] != '\n'
}

/// The line table of any text has the shape `bounds_wf` describes.
pub proof fn lemma_line_bounds_wf(s: Seq<char>)
    ensures
        bounds_wf(s, line_bounds(s)),
    decreases s.len(),
{
    reveal(bounds_wf);
    if s.len() > 0 {
        let t = s.drop_last();
        lemma_line_bounds_wf(t);
        assert(s =~= t.push(s.last()));
        t.lemma_filter_push(s.last(), |c: char| is_nl(c));
        let p = line_bounds(t);
        let b = line_bounds(s);
        assert forall|k: int, j: int|
            #![trigger s[j], b[k]]
            0 <= k < b.len() && b[k].0 <= j < b[k].1 implies s[j] != '\n' by {
            if j < t.len() {
                assert(p[k].0 == b[k].0);
                if k < p.len() - 1 {
                    assert(b[k] == p[k]);
                }
                assert(t[j] != '\n');
            }
        }
    }
}

/// Every text has at least one line.
pub proof fn lemma_line_count_pos(s: Seq<char>)
    ensures
        line_bounds(s).len() >= 1,
{
    lemma_line_bounds_wf(s);
    reveal(bounds_wf);
}

/// A text has at most one more line than it has characters.
pub proof fn lemma_line_count_le(s: Seq<char>)
    ensures
        line_bounds(s).len() <= s.len() + 1,
{
    lemma_line_bounds_wf(s);
    reveal(bounds_wf);
    s.lemma_filter_len(|c: char| is_nl(c));
}

/// Line ranges are ordered and lie within the text; lines `a..=e` span from
/// the start of `a` to the end of `e`.
pub proof fn lemma_bounds_mono(s: Seq<char>, a: int, e: int)
    requires
        0 <= a <= e < line_bounds(s).len(),
    ensures
        0 <= line_bounds(s)[a].0 <= line_bounds(s)[a].1 <= line_bounds(s)[e].1 <= s.len(),
        line_bounds(s)[a].0 <= line_bounds(s)[e].0 <= line_bounds(s)[e].1,
        a < e ==> line_bounds(s)[a].1 < line_bounds(s)[e].0,
        line_bounds(s).len() >= 1,
        line_bounds(s)[0].0 == 0,
        line_bounds(s).last().1 == s.len(),
    decreases e - a,
{
    lemma_line_bounds_wf(s);
    reveal(bounds_wf);
    if a < e {
        lemma_bounds_mono(s, a, e - 1);
    }
}

/// Splits a character buffer into the `[start, end)` ranges of its lines.
pub fn line_ranges(chars: &Vec<char>) -> (r: Vec<(usize, usize)>)
    ensures
        r@.len() == line_bounds(chars@).len(),
        forall|k: int|
            0 <= k < r@.len() ==> (#[trigger] r@[k]).0 as int == line_bounds(chars@)[k].0
                && r@[k].1 as int == line_bounds(chars@)[k].1,
{
    let mut r: Vec<(usize, usize)> = Vec::new();
    r.push((0, 0));
    let mut i: usize = 0;
    while i < chars.len()
        invariant
            0 <= i <= chars@.len(),
            r@.len() == line_bounds(chars@.take(i as int)).len(),
            forall|k: int|
                0 <= k < r@.len() ==> (#[trigger] r@[k]).0 as int == line_bounds(
                    chars@.take(i as int),
                )[k].0 && r@[k].1 as int == line_bounds(chars@.take(i as int))[k].1,
        decreases chars@.len() - i,
    {
        proof {
            lemma_line_bounds_wf(chars@.take(i as int));
            reveal(bounds_wf);
            assert(chars@.take(i + 1).drop_last() =~= chars@.take(i as int));
        }
        if chars[i] == '\n' {
            r.push((i + 1, i + 1));
        } else {
            let last = r.len() - 1;
            let st = r[last].0;
            r.set(last, (st, i + 1));
        }
        i = i + 1;
    }
    assert(chars@.take(chars@.len() as int) =~= chars@);
    r
}

/// The `\n`-separated lines of a text, as owned strings.
pub fn lines_vec(s: &str) -> (v: Vec<String>)
    ensures
        views(v@) == lines_of(s@),
{
    let chars = chars_of(s);
    let r = line_ranges(&chars);
    let mut v: Vec<String> = Vec::new();
    let mut k: usize = 0;
    proof {
        lemma_line_bounds_wf(s@);
        reveal(bounds_wf);
    }
    while k < r.len()
        invariant
            chars@ == s@,
            bounds_wf(s@, line_bounds(s@)),
            r@.len() == line_bounds(s@).len(),
            forall|j: int|
                0 <= j < r@.len() ==> (#[trigger] r@[j]).0 as int == line_bounds(s@)[j].0
                    && r@[j].1 as int == line_bounds(s@)[j].1,
            0 <= k <= r@.len(),
            views(v@) =~= lines_of(s@).take(k as int),
        decreases r@.len() - k,
    {
        proof {
            reveal(bounds_wf);
            assert(0 <= line_bounds(s@)[k as int].0 <= line_bounds(s@)[k as int].1 <= s@.len());
        }
        let line = string_of(&chars, r[k].0, r[k].1);
        proof {
            assert(views(v@.push(line)) =~= views(v@).push(line@));
        }
        v.push(line);
        k = k + 1;
    }
    v
}

/// Byte offsets at which the `\n`-separated lines of a byte string begin:
/// `0`, then one past every `\n` byte.
pub open spec fn byte_line_starts(b: Seq<u8>) -> Seq<int>
    decreases b.len(),
{
    if b.len() == 0 {
        seq![0int]
    } else if b.last() == 10 {
        byte_line_starts(b.drop_last()).push(b.len() as int)
    } else {
        byte_line_starts(b.drop_last())
    }
}

/// Whether a byte is a line feed.
pub open spec fn is_nl_byte(x: u8) -> bool {
    x == 10
}

proof fn lemma_byte_line_starts_len(b: Seq<u8>)
    ensures
        byte_line_starts(b).len() == b.filter(|x: u8| is_nl_byte(x)).len() + 1,
        byte_line_starts(b)[0] == 0,
    decreases b.len(),
{
    if b.len() > 0 {
        lemma_byte_line_starts_len(b.drop_last());
        assert(b =~= b.drop_last().push(b.last()));
        b.drop_last().lemma_filter_push(b.last(), |x: u8| is_nl_byte(x));
    }
}

/// Build the line offset table for `text`: the byte offset at which each
/// `\n`-delimited line begins. `text` is expected to be newline-normalized
/// already. The table has one entry per line, so a trailing `\n` produces a
/// final empty line whose offset is `text.len()`.
pub fn build_line_offsets(text: &str) -> (offsets: Vec<usize>)
    ensures
        offsets@.len() == byte_line_starts(text.spec_bytes()).len(),
        forall|k: int|
            0 <= k < offsets@.len() ==> #[trigger] offsets@[k] as int == byte_line_starts(
                text.spec_bytes(),
            )[k],
{
    let bytes = text.as_bytes();
    let mut offsets: Vec<usize> = Vec::new();
    offsets.push(0);
    let mut i: usize = 0;
    while i < bytes.len()
        invariant
            bytes@ == text.spec_bytes(),
            0 <= i <= bytes@.len(),
            offsets@.len() == byte_line_starts(bytes@.take(i as int)).len(),
            forall|k: int|
                0 <= k < offsets@.len() ==> #[trigger] offsets@[k] as int == byte_line_starts(
                    bytes@.take(i as int),
                )[k],
        decreases bytes@.len() - i,
    {
        assert(bytes@.take(i + 1).drop_last() =~= bytes@.take(i as int));
        if bytes[i] == 10u8 {
            offsets.push(i + 1);
        }
        i = i + 1;
    }
    assert(bytes@.take(bytes@.len() as int) =~= bytes@);
    offsets
}


proof fn lemma_byte_not_nl(x: u32)
    by (bit_vector)
    ensures
        (0xC0u8 | ((x >> 6) & 0x1F) as u8) != 10u8,
        (0xE0u8 | ((x >> 12) & 0x0F) as u8) != 10u8,
        (0xF0u8 | ((x >> 18) & 0x7) as u8) != 10u8,
        (0x80u8 | (x & 0x3F) as u8) != 10u8,
        (0x80u8 | ((x >> 6) & 0x3F) as u8) != 10u8,
        (0x80u8 | ((x >> 12) & 0x3F) as u8) != 10u8,
{
}

proof fn lemma_width_1_byte(x: u32)
    by (bit_vector)
    requires
        x <= 0x7F,
    ensures
        ((x & 0x7F) as u8 == 10u8) == (x == 10u32),
{
}

proof fn lemma_encode_scalar_nl(c: char)
    ensures
        vstd::utf8::encode_scalar(c as u32).filter(|x: u8| is_nl_byte(x)).len() == if c == '\n' {
            1int
        } else {
            0int
        },
{
    let x = c as u32;
    lemma_byte_not_nl(x);
    reveal_with_fuel(Seq::filter, 5);
    if vstd::utf8::has_width_1_encoding(x) {
        lemma_width_1_byte(x);
        assert((c == '\n') == (x == 10u32));
    }
}

/// UTF-8 encoding keeps the number of line feeds: a `\n` is the single byte
/// `0x0A`, and no byte of a longer encoding equals it.
pub proof fn lemma_encoded_newlines(s: Seq<char>)
    ensures
        vstd::utf8::encode_utf8(s).filter(|x: u8| is_nl_byte(x)).len() == s.filter(
            |c: char| is_nl(c),
        ).len(),
    decreases s.len(),
{
    if s.len() > 0 {
        lemma_encoded_newlines(s.drop_first());
        lemma_encode_scalar_nl(s[0]);
        Seq::filter_distributes_over_add(
            vstd::utf8::encode_scalar(s[0] as u32),
            vstd::utf8::encode_utf8(s.drop_first()),
            |x: u8| is_nl_byte(x),
        );
        assert(s =~= seq![s[0]] + s.drop_first());
        Seq::filter_distributes_over_add(seq![s[0]], s.drop_first(), |c: char| is_nl(c));
        reveal_with_fuel(Seq::filter, 2);
    }
}

/// The byte offset table of a text has exactly one entry per line.
pub proof fn lemma_offsets_count_lines(text: Seq<char>)
    ensures
        byte_line_starts(vstd::utf8::encode_utf8(text)).len() == line_bounds(text).len(),
{
    lemma_byte_line_starts_len(vstd::utf8::encode_utf8(text));
    lemma_line_bounds_wf(text);
    reveal(bounds_wf);
    lemma_encoded_newlines(text);
}


// ---------------------------------------------------------------------------
// Token estimate and truncation
// ---------------------------------------------------------------------------

/// Number of maximal runs of non-whitespace characters (the items of
/// `str::split_whitespace`).
pub open spec fn word_count(s: Seq<char>) -> nat
    decreases s.len(),
{
    if s.len() == 0 {
        0
    } else {
        word_count(s.drop_last()) + if !is_ws(s.last()) && (s.len() == 1 || is_ws(
            s[s.len() - 2],
        )) {
            1nat
        } else {
            0nat
        }
    }
}

pub proof fn lemma_word_count_le(s: Seq<char>)
    ensures
        word_count(s) <= s.len(),
    decreases s.len(),
{
    if s.len() > 0 {
        lemma_word_count_le(s.drop_last());
    }
}

/// The token estimate of a text: `max(whitespace-separated words, chars / 4)`.
pub open spec fn token_estimate(s: Seq<char>) -> nat {
    let w = word_count(s);
    let c = s.len() / 4;
    if w >= c {
        w
    } else {
        c
    }
}

/// Estimate the token count of a piece of text as
/// `max(whitespace_words, chars / 4)`: whitespace words give a floor for
/// normal prose, `chars / 4` dominates for long runs without spaces.
pub fn estimate_tokens(text: &str) -> (n: usize)
    ensures
        n == token_estimate(text@),
{
    let cs = chars_of(text);
    let mut words: usize = 0;
    let mut i: usize = 0;
    while i < cs.len()
        invariant
            cs@ == text@,
            0 <= i <= cs@.len(),
            words == word_count(cs@.take(i as int)),
            words <= i,
        decreases cs@.len() - i,
    {
        proof {
            assert(cs@.take(i + 1).drop_last() =~= cs@.take(i as int));
        }
        if !is_whitespace(cs[i]) && (i == 0 || is_whitespace(cs[i - 1])) {
            words = words + 1;
        }
        i = i + 1;
    }
    assert(cs@.take(cs@.len() as int) =~= cs@);
    let chars = cs.len() / 4;
    if words >= chars {
        words
    } else {
        chars
    }
}

/// `max_tokens * 4`, saturated at `usize::MAX`.
pub open spec fn char_budget(max_tokens: usize) -> int {
    if max_tokens * 4 > usize::MAX {
        usize::MAX as int
    } else {
        max_tokens * 4
    }
}

/// The first `min(len, char_budget(max_tokens))` characters.
pub open spec fn truncated(s: Seq<char>, max_tokens: usize) -> Seq<char> {
    if s.len() <= char_budget(max_tokens) {
        s
    } else {
        s.take(char_budget(max_tokens))
    }
}

/// Truncate `text` to roughly `max_tokens` for embedding only, by the same
/// "about four characters per token" rule as [`estimate_tokens`], cutting on a
/// character boundary.
pub fn truncate_to_tokens(text: &str, max_tokens: usize) -> (r: String)
    ensures
        r@ == truncated(text@, max_tokens),
{
    let max_chars = if max_tokens > usize::MAX / 4 {
        usize::MAX
    } else {
        max_tokens * 4
    };
    let cs = chars_of(text);
    if cs.len() <= max_chars {
        return copy_str(text);
    }
    let r = string_of(&cs, 0, max_chars);
    assert(r@ =~= truncated(text@, max_tokens));
    r
}

// ---------------------------------------------------------------------------
// Splitting
// ---------------------------------------------------------------------------

/// The pieces of `s` between separator characters (`str::split` with a
/// predicate): `n` separators give `n + 1` pieces, possibly empty.
pub open spec fn split_by(s: Seq<char>, sep: spec_fn(char) -> bool) -> Seq<Seq<char>>
    decreases s.len(),
{
    if s.len() == 0 {
        seq![Seq::<char>::empty()]
    } else {
        let p = split_by(s.drop_last(), sep);
        if sep(s.last()) {
            p.push(Seq::<char>::empty())
        } else {
            p.update(p.len() - 1, p.last().push(s.last()))
        }
    }
}

proof fn lemma_split_by_nonempty(s: Seq<char>, sep: spec_fn(char) -> bool)
    ensures
        split_by(s, sep).len() >= 1,
    decreases s.len(),
{
    if s.len() > 0 {
        lemma_split_by_nonempty(s.drop_last(), sep);
    }
}

/// The character views of a vector of strings.
pub open spec fn views(v: Seq<String>) -> Seq<Seq<char>> {
    v.map_values(|t: String| t@)
}

/// `s.split(sep)` collected into owned strings.
pub fn split_on_char(s: &str, sep: char) -> (pieces: Vec<String>)
    ensures
        views(pieces@) == split_by(s@, |c: char| c == sep),
{
    let ghost f = |c: char| c == sep;
    let cs = chars_of(s);
    let mut pieces: Vec<String> = Vec::new();
    let mut cur = String::new();
    let mut i: usize = 0;
    while i < cs.len()
        invariant
            cs@ == s@,
            0 <= i <= cs@.len(),
            f == (|c: char| c == sep),
            views(pieces@).push(cur@) == split_by(cs@.take(i as int), f),
        decreases cs@.len() - i,
    {
        proof {
            assert(cs@.take(i + 1).drop_last() =~= cs@.take(i as int));
            lemma_split_by_nonempty(cs@.take(i as int), f);
        }
        let ghost before = views(pieces@);
        if cs[i] == sep {
            let done = cur;
            pieces.push(done);
            cur = String::new();
            assert(views(pieces@) =~= before.push(done@));
        } else {
            push_char(&mut cur, cs[i]);
            assert(views(pieces@) =~= before);
        }
        i = i + 1;
        assert(views(pieces@).push(cur@) =~= split_by(cs@.take(i as int), f));
    }
    let last = cur;
    let ghost before = views(pieces@);
    pieces.push(last);
    assert(views(pieces@) =~= before.push(last@));
    assert(cs@.take(cs@.len() as int) =~= s@);
    pieces
}


/// Whether a piece is non-empty.
pub open spec fn non_empty(t: Seq<char>) -> bool {
    t.len() > 0
}

/// The keyword terms of a text: the text lowercased, split on every
/// non-alphanumeric character, empty pieces dropped.
pub open spec fn keyword_terms(s: Seq<char>) -> Seq<Seq<char>> {
    split_by(lowercase(s), |c: char| !alnum(c)).filter(|t: Seq<char>| non_empty(t))
}

/// Tokenize text for keyword matching: lowercase, then split on any
/// non-alphanumeric character (Unicode-aware), dropping empties. Alphanumeric
/// runs stay together, so `"ABC-123"` gives `["abc", "123"]` while an
/// identifier such as `"ИНН7701234567"` stays one token.
pub fn keyword_tokens(text: &str) -> (toks: Vec<String>)
    ensures
        views(toks@) == keyword_terms(text@),
{
    let ghost f = |c: char| !alnum(c);
    let ghost g = |t: Seq<char>| non_empty(t);
    let lowered = to_lowercase(text);
    let cs = chars_of(lowered.as_str());
    let mut toks: Vec<String> = Vec::new();
    let mut cur = String::new();
    let mut i: usize = 0;
    while i < cs.len()
        invariant
            cs@ == lowercase(text@),
            0 <= i <= cs@.len(),
            f == (|c: char| !alnum(c)),
            g == (|t: Seq<char>| non_empty(t)),
            split_by(cs@.take(i as int), f).len() >= 1,
            views(toks@) == split_by(cs@.take(i as int), f).drop_last().filter(g),
            cur@ == split_by(cs@.take(i as int), f).last(),
        decreases cs@.len() - i,
    {
        let ghost prev = split_by(cs@.take(i as int), f);
        proof {
            assert(cs@.take(i + 1).drop_last() =~= cs@.take(i as int));
        }
        let ghost before = views(toks@);
        if !is_alphanumeric(cs[i]) {
            let done = cur;
            cur = String::new();
            if !done.as_str().is_empty() {
                toks.push(done);
                assert(views(toks@) =~= before.push(done@));
            } else {
                assert(views(toks@) =~= before);
            }
            proof {
                assert(prev.push(Seq::<char>::empty()).drop_last() =~= prev);
                assert(prev =~= prev.drop_last().push(prev.last()));
                prev.drop_last().lemma_filter_push(prev.last(), g);
            }
        } else {
            push_char(&mut cur, cs[i]);
            assert(views(toks@) =~= before);
            proof {
                assert(prev.update(prev.len() - 1, prev.last().push(cs@[i as int])).drop_last()
                    =~= prev.drop_last());
            }
        }
        i = i + 1;
        proof {
            lemma_split_by_nonempty(cs@.take(i as int), f);
        }
    }
    let ghost all = split_by(cs@, f);
    assert(cs@.take(cs@.len() as int) =~= cs@);
    let ghost before = views(toks@);
    if !cur.as_str().is_empty() {
        let last = cur;
        toks.push(last);
        assert(views(toks@) =~= before.push(last@));
    }
    proof {
        assert(all =~= all.drop_last().push(all.last()));
        all.drop_last().lemma_filter_push(all.last(), g);
    }
    toks
}

/// The words a text embeds as: the text lowercased and split on Unicode
/// whitespace, empty pieces dropped (`to_lowercase().split_whitespace()`).
pub open spec fn embed_terms(s: Seq<char>) -> Seq<Seq<char>> {
    split_by(lowercase(s), |c: char| is_ws(c)).filter(|t: Seq<char>| non_empty(t))
}

/// Lowercase `text` and split it on whitespace, dropping empty pieces.
pub fn whitespace_tokens(text: &str) -> (toks: Vec<String>)
    ensures
        views(toks@) == embed_terms(text@),
{
    let ghost f = |c: char| is_ws(c);
    let ghost g = |t: Seq<char>| non_empty(t);
    let lowered = to_lowercase(text);
    let cs = chars_of(lowered.as_str());
    let mut toks: Vec<String> = Vec::new();
    let mut cur = String::new();
    let mut i: usize = 0;
    while i < cs.len()
        invariant
            cs@ == lowercase(text@),
            0 <= i <= cs@.len(),
            f == (|c: char| is_ws(c)),
            g == (|t: Seq<char>| non_empty(t)),
            split_by(cs@.take(i as int), f).len() >= 1,
            views(toks@) == split_by(cs@.take(i as int), f).drop_last().filter(g),
            cur@ == split_by(cs@.take(i as int), f).last(),
        decreases cs@.len() - i,
    {
        let ghost prev = split_by(cs@.take(i as int), f);
        proof {
            assert(cs@.take(i + 1).drop_last() =~= cs@.take(i as int));
        }
        let ghost before = views(toks@);
        if is_whitespace(cs[i]) {
            let done = cur;
            cur = String::new();
            if !done.as_str().is_empty() {
                toks.push(done);
                assert(views(toks@) =~= before.push(done@));
            } else {
                assert(views(toks@) =~= before);
            }
            proof {
                assert(prev.push(Seq::<char>::empty()).drop_last() =~= prev);
                assert(prev =~= prev.drop_last().push(prev.last()));
                prev.drop_last().lemma_filter_push(prev.last(), g);
            }
        } else {
            push_char(&mut cur, cs[i]);
            assert(views(toks@) =~= before);
            proof {
                assert(prev.update(prev.len() - 1, prev.last().push(cs@[i as int])).drop_last()
                    =~= prev.drop_last());
            }
        }
        i = i + 1;
        proof {
            lemma_split_by_nonempty(cs@.take(i as int), f);
        }
    }
    let ghost all = split_by(cs@, f);
    assert(cs@.take(cs@.len() as int) =~= cs@);
    let ghost before = views(toks@);
    if !cur.as_str().is_empty() {
        let last = cur;
        toks.push(last);
        assert(views(toks@) =~= before.push(last@));
    }
    proof {
        assert(all =~= all.drop_last().push(all.last()));
        all.drop_last().lemma_filter_push(all.last(), g);
    }
    toks
}

/// The collection names a scope string lists: its comma-separated pieces,
/// trimmed.
pub open spec fn scope_piece(list: Seq<char>, k: int) -> Seq<char> {
    trimmed(comma_pieces(list)[k])
}

/// The comma-separated pieces of a list.
pub open spec fn comma_pieces(list: Seq<char>) -> Seq<Seq<char>> {
    split_by(list, |c: char| c == ',')
}

/// The character view of an optional string.
pub open spec fn opt_view(o: Option<String>) -> Option<Seq<char>> {
    match o {
        None => None,
        Some(s) => Some(s@),
    }
}

/// Whether a comma-separated list names `cname`.
pub open spec fn names_contain(list: Seq<char>, cname: Seq<char>) -> bool {
    exists|k: int|
        #![trigger scope_piece(list, k)]
        0 <= k < comma_pieces(list).len() && scope_piece(list, k) == cname && cname.len() > 0
}

/// Whether the scope (`None` = every collection; otherwise a comma-separated
/// list of names, blank entries ignored) names `cname`.
pub open spec fn in_scope_spec(want: Option<Seq<char>>, cname: Seq<char>) -> bool {
    match want {
        None => true,
        Some(list) => names_contain(list, cname),
    }
}

/// Does this collection fall within the request's scope? The scope is a
/// comma-separated list of collection names; an exact match against any
/// listed (trimmed, non-empty) name passes. `None` means all collections.
pub fn in_scope(want: &Option<String>, cname: &str) -> (r: bool)
    ensures
        r == in_scope_spec(opt_view(*want), cname@),
{
    match want {
        None => true,
        Some(list) => {
            let pieces = split_on_char(list.as_str(), ',');
            let ghost ps = comma_pieces(list@);
            assert((|c: char| c == ',') =~= (|c: char| c == ','));
            let mut i: usize = 0;
            while i < pieces.len()
                invariant
                    views(pieces@) == ps,
                    ps == comma_pieces(list@),
                    opt_view(*want) == Some(list@),
                    0 <= i <= pieces@.len(),
                    forall|k: int|
                        0 <= k < i ==> !(#[trigger] scope_piece(list@, k) == cname@ && cname@.len()
                            > 0),
                decreases pieces@.len() - i,
            {
                let name = trim(pieces[i].as_str());
                assert(name@ == scope_piece(list@, i as int));
                if !name.as_str().is_empty() && str_eq(name.as_str(), cname) {
                    assert(scope_piece(list@, i as int) == cname@ && cname@.len() > 0);
                    assert(views(pieces@).len() == pieces@.len());
                    assert(0 <= i < comma_pieces(list@).len());
                    assert(names_contain(list@, cname@));
                    return true;
                }
                i = i + 1;
            }
            false
        },
    }
}

/// ASCII lowercase of one character.
pub open spec fn ascii_lower(c: char) -> char {
    if 'A' <= c && c <= 'Z' {
        ((c as u32) + 32) as char
    } else {
        c
    }
}

/// The text with its ASCII letters lowercased.
pub open spec fn lower_ascii(s: Seq<char>) -> Seq<char> {
    s.map_values(|c: char| ascii_lower(c))
}

/// Lowercases the ASCII letters of `s` (`str::to_ascii_lowercase`).
pub fn to_ascii_lowercase(s: &str) -> (r: String)
    ensures
        r@ == lower_ascii(s@),
{
    let cs = chars_of(s);
    let mut r = String::new();
    let mut i: usize = 0;
    while i < cs.len()
        invariant
            cs@ == s@,
            0 <= i <= cs@.len(),
            r@ == cs@.take(i as int).map_values(|c: char| ascii_lower(c)),
        decreases cs@.len() - i,
    {
        let c = cs[i];
        let l = if 'A' <= c && c <= 'Z' {
            ((c as u8) + 32) as char
        } else {
            c
        };
        assert(l == ascii_lower(c));
        push_char(&mut r, l);
        i = i + 1;
        assert(r@ =~= cs@.take(i as int).map_values(|c: char| ascii_lower(c)));
    }
    assert(cs@.take(cs@.len() as int) =~= s@);
    assert(r@ =~= lower_ascii(s@));
    r
}

// ---------------------------------------------------------------------------
// Decimal numbers
// ---------------------------------------------------------------------------

/// The decimal digit for `d < 10`.
pub open spec fn digit(d: int) -> char {
    if d == 0 { '0' }
    else if d == 1 { '1' }
    else if d == 2 { '2' }
    else if d == 3 { '3' }
    else if d == 4 { '4' }
    else if d == 5 { '5' }
    else if d == 6 { '6' }
    else if d == 7 { '7' }
    else if d == 8 { '8' }
    else { '9' }
}

/// The decimal representation of `n`, without leading zeros.
pub open spec fn decimal(n: nat) -> Seq<char>
    decreases n,
{
    if n < 10 {
        seq![digit(n as int)]
    } else {
        decimal(n / 10).push(digit((n % 10) as int))
    }
}

fn digit_char(d: u64) -> (c: char)
    requires
        d < 10,
    ensures
        c == digit(d as int),
{
    if d == 0 { '0' }
    else if d == 1 { '1' }
    else if d == 2 { '2' }
    else if d == 3 { '3' }
    else if d == 4 { '4' }
    else if d == 5 { '5' }
    else if d == 6 { '6' }
    else if d == 7 { '7' }
    else if d == 8 { '8' }
    else { '9' }
}

/// The decimal representation of `n`.
pub fn decimal_string(n: u64) -> (s: String)
    ensures
        s@ == decimal(n as nat),
    decreases n,
{
    if n < 10 {
        let mut s = String::new();
        push_char(&mut s, digit_char(n));
        assert(s@ =~= decimal(n as nat));
        s
    } else {
        let mut s = decimal_string(n / 10);
        push_char(&mut s, digit_char(n % 10));
        s
    }
}

} // verus!
