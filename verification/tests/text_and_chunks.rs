use rcore::chunk::{chunk_text, chunk_text_at_boundaries, Chunk, ChunkConfig};
use rcore::grep::compile;
use rcore::keyword::{distinct, keyword_score, token_multiset, KeywordScore};
use rcore::text::{
    build_line_offsets, decimal_string, estimate_tokens, has_carriage_return, in_scope,
    is_blank, keyword_tokens, lines_vec, normalize_newlines, split_on_char, to_ascii_lowercase,
    trim, truncate_to_tokens, whitespace_tokens,
};

fn cfg(target: usize, cap: usize, overlap: usize) -> ChunkConfig {
    ChunkConfig::resolve(Some(target), Some(cap), Some(overlap), None)
}

/// The keyword score as a number: distinct terms plus a tenth per occurrence.
fn score(s: &KeywordScore) -> f64 {
    s.distinct_present as f64 + 0.1 * s.total_occurrences as f64
}

#[test]
fn estimate_tokens_uses_max_of_words_and_chars_over_4() {
    assert_eq!(estimate_tokens("a b c d e"), 5);
    let long = "x".repeat(40);
    assert_eq!(estimate_tokens(&long), 10);
    assert_eq!(estimate_tokens(""), 0);
}

#[test]
fn offset_table_maps_lines_to_byte_starts() {
    let text = "ab\ncde\nf";
    let off = build_line_offsets(text);
    assert_eq!(off, vec![0, 3, 7]);
    let text2 = "ab\ncd\n";
    let off2 = build_line_offsets(text2);
    assert_eq!(off2, vec![0, 3, 6]);
}

#[test]
fn chunker_snaps_to_lines_and_overlaps() {
    let text = "l1\nl2\nl3\nl4\nl5\nl6";
    let chunks = chunk_text(text, &cfg(3, 100, 1));
    assert!(chunks.len() >= 2, "must split into multiple chunks");
    for ch in &chunks {
        assert!(ch.line_end >= ch.line_start, "range well-formed");
        assert!(!ch.oversized);
        let all_lines: Vec<&str> = text.split('\n').collect();
        let joined =
            all_lines[(ch.line_start - 1) as usize..=(ch.line_end - 1) as usize].join("\n");
        assert_eq!(ch.text, joined);
    }
    for w in chunks.windows(2) {
        assert!(
            w[1].line_start <= w[0].line_end,
            "consecutive chunks must overlap (got {} then start {})",
            w[0].line_end,
            w[1].line_start
        );
    }
    assert_eq!(chunks.first().unwrap().line_start, 1);
    assert_eq!(chunks.last().unwrap().line_end, 6);
}

#[test]
fn chunker_oversized_single_line_is_one_chunk() {
    let huge = "tok ".repeat(50);
    let text = format!("short before\n{}\nshort after", huge.trim());
    let chunks = chunk_text(&text, &cfg(3, 5, 1));
    let oversized: Vec<&Chunk> = chunks.iter().filter(|c| c.oversized).collect();
    assert_eq!(oversized.len(), 1, "exactly one oversized chunk");
    let o = oversized[0];
    assert_eq!(o.line_start, o.line_end, "oversized chunk is a single line");
    assert!(o.text.starts_with("tok"), "oversized chunk holds the whole line");
    assert_eq!(o.text, huge.trim(), "stored oversized text is the full line");
}

#[test]
fn truncate_to_tokens_bounds_embed_text_on_char_boundary() {
    let s = "a".repeat(100);
    let t = truncate_to_tokens(&s, 5);
    assert_eq!(t.chars().count(), 20);
    assert_eq!(truncate_to_tokens("hi", 5), "hi");
}

#[test]
fn normalize_handles_crlf_and_cr() {
    assert_eq!(normalize_newlines("a\r\nb\rc\nd"), "a\nb\nc\nd");
    // A text with a carriage return is rewritten; one without is kept as is.
    assert!(has_carriage_return("a\r\nb"));
    assert!(!has_carriage_return("a\nb\nc"));
    assert_eq!(normalize_newlines("a\nb\nc"), "a\nb\nc");
}

#[test]
fn keyword_tokenizer_splits_on_non_alphanumeric_and_keeps_ids_intact() {
    assert_eq!(keyword_tokens("Hello, World!"), vec!["hello", "world"]);
    assert_eq!(keyword_tokens("ABC-123"), vec!["abc", "123"]);
    assert_eq!(keyword_tokens("ИНН7701234567"), vec!["инн7701234567"]);
    assert!(keyword_tokens("   ,.;  ").is_empty());
}

#[test]
fn keyword_score_ranks_by_distinct_coverage_then_density() {
    let q = distinct(keyword_tokens("alpha beta"));
    let both = keyword_score(&token_multiset("alpha beta gamma"), &q);
    let one_rep = keyword_score(&token_multiset("alpha alpha alpha"), &q);
    let none = keyword_score(&token_multiset("gamma delta"), &q);
    assert!(score(&both) > score(&one_rep), "more distinct terms must outrank repetition");
    assert!(score(&one_rep) > 0.0, "a present term is a hit");
    assert_eq!(score(&none), 0.0, "no shared term → zero (non-hit)");
    let q2 = distinct(keyword_tokens("alph"));
    assert_eq!(
        score(&keyword_score(&token_multiset("alpha beta"), &q2)),
        0.0,
        "no substring matching"
    );
}

#[test]
fn token_multiset_counts_occurrences() {
    let m = token_multiset("Alpha alpha BETA, beta! beta");
    assert_eq!(m.get("alpha"), Some(2));
    assert_eq!(m.get("beta"), Some(3));
    assert_eq!(m.get("gamma"), None);
}

#[test]
fn keyword_score_counts_exact_values() {
    let q = distinct(keyword_tokens("alpha beta alpha"));
    assert_eq!(q, vec!["alpha", "beta"]);
    let s = keyword_score(&token_multiset("alpha beta beta gamma alpha alpha"), &q);
    assert_eq!(s.distinct_present, 2);
    assert_eq!(s.total_occurrences, 5);
    assert_eq!(token_multiset("x y x").len(), 2);
}

#[test]
fn whitespace_tokens_lowercase_and_split() {
    assert_eq!(whitespace_tokens("  Hello\tWORLD \n foo  "), vec!["hello", "world", "foo"]);
    assert!(whitespace_tokens(" \t\n ").is_empty());
    assert_eq!(whitespace_tokens("ABC-123"), vec!["abc-123"]);
}

#[test]
fn line_helpers_split_like_split_newline() {
    assert_eq!(lines_vec("a\nb\n"), vec!["a", "b", ""]);
    assert_eq!(lines_vec(""), vec![""]);
    assert_eq!(split_on_char("a,,b", ','), vec!["a", "", "b"]);
    assert_eq!(build_line_offsets("x\u{e9}\ny"), vec![0, 4]);
}

#[test]
fn small_text_helpers() {
    assert_eq!(trim("  a b \n"), "a b");
    assert!(is_blank(" \t\n"));
    assert!(!is_blank(" x "));
    assert_eq!(to_ascii_lowercase("AbC-Ж"), "abc-Ж");
    assert_eq!(decimal_string(0), "0");
    assert_eq!(decimal_string(1234567890), "1234567890");
    assert_eq!(decimal_string(u64::MAX), "18446744073709551615");
}

#[test]
fn collection_scope_lists() {
    assert!(in_scope(&None, "docs"));
    assert!(in_scope(&Some("docs".to_string()), "docs"));
    assert!(in_scope(&Some("a, docs ,b".to_string()), "docs"));
    assert!(!in_scope(&Some("a,b".to_string()), "docs"));
}

#[test]
fn chunker_empty_text_is_one_chunk() {
    let chunks = chunk_text("", &cfg(3, 5, 1));
    assert_eq!(chunks.len(), 1);
    assert_eq!(chunks[0].line_start, 1);
    assert_eq!(chunks[0].line_end, 1);
    assert_eq!(chunks[0].text, "");
}

#[test]
fn chunk_config_defaults_and_caps() {
    let c = ChunkConfig::resolve(None, None, None, None);
    assert_eq!((c.target_tokens, c.max_tokens, c.overlap_lines), (300, 300, 2));
    let c = ChunkConfig::resolve(Some(0), Some(1), None, Some(5));
    assert_eq!((c.target_tokens, c.max_tokens, c.overlap_lines), (1, 1, 0));
    let c = ChunkConfig::resolve(Some(5), None, Some(9), None);
    assert_eq!((c.target_tokens, c.max_tokens, c.overlap_lines), (5, 5, 4));
    let c = ChunkConfig::resolve(Some(10), None, Some(0), Some(5));
    assert_eq!((c.target_tokens, c.max_tokens, c.overlap_lines), (10, 10, 0));
    let c = ChunkConfig::resolve(Some(3), None, None, Some(512));
    assert_eq!((c.target_tokens, c.max_tokens), (3, 512));
}

fn ranges(chunks: &[Chunk]) -> Vec<(u64, u64)> {
    chunks.iter().map(|c| (c.line_start, c.line_end)).collect()
}

#[test]
fn overlap_is_kept_below_target_so_chunking_advances() {
    // Target 1 with overlap 5 asked for: the overlap is cut to 0, so every
    // line is a chunk of its own and the chunks never repeat a line.
    let c = ChunkConfig::resolve(Some(1), Some(100), Some(5), None);
    assert_eq!(c.overlap_lines, 0);
    let chunks = chunk_text("a b\nc d\ne f", &c);
    assert_eq!(ranges(&chunks), vec![(1, 1), (2, 2), (3, 3)]);
}

#[test]
fn boundary_lines_start_chunks_without_overlap() {
    let text = "Feature: x\nScenario: a\nstep 1\nstep 2\nScenario: b\nstep 3";
    let m = compile("^Scenario:", false, false).ok().unwrap();
    let chunks = chunk_text_at_boundaries(text, &cfg(100, 200, 0), Some(&m));
    assert_eq!(ranges(&chunks), vec![(1, 1), (2, 4), (5, 6)]);
    assert_eq!(chunks[1].text, "Scenario: a\nstep 1\nstep 2");
    assert_eq!(chunks[2].text, "Scenario: b\nstep 3");
    // Without the boundary the whole text is one chunk.
    let plain = chunk_text(text, &cfg(100, 200, 0));
    assert_eq!(ranges(&plain), vec![(1, 6)]);
}

#[test]
fn boundary_section_over_budget_still_splits_with_overlap_inside() {
    // Target 3 tokens: the long section splits, overlapping by one line
    // inside it, and the next section starts fresh at its boundary line
    // (the last chunk's overlap then gives one more chunk of its last line).
    let text = "S a\nl1\nl2\nl3\nl4\nS b\nl5";
    let m = compile("^S ", false, false).ok().unwrap();
    let chunks = chunk_text_at_boundaries(text, &cfg(3, 100, 1), Some(&m));
    assert_eq!(ranges(&chunks), vec![(1, 2), (2, 4), (4, 5), (6, 7), (7, 7)]);
}

#[test]
fn appending_text_never_lowers_the_estimate() {
    let pairs = [("", "a"), ("ab", "cd"), ("ab", " cd ef"), ("x", &"y".repeat(40)), ("a b", " ")];
    for (s, u) in pairs {
        let joined = format!("{s}{u}");
        assert!(estimate_tokens(s) <= estimate_tokens(&joined), "{s:?} + {u:?}");
    }
    assert_eq!(estimate_tokens("ab"), 1);
    assert_eq!(estimate_tokens("abcd"), 1);
    assert_eq!(estimate_tokens(&"y".repeat(41)), 10);
}
