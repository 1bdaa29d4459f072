use rcore::dispatch::{supported_model_names, validate_model_name, DEFAULT_MODEL};
use rcore::embed::{
    bulk_device, pinned_session, tunings, worker_count, Device, MockEmbedder, DEFAULT_DIM,
    FNV_OFFSET, FNV_PRIME,
};

/// The unit-length vector of a text's bucket counts (all zeros for a text
/// without words).
fn embed(e: &MockEmbedder, text: &str) -> Vec<f32> {
    let counts = e.bucket_counts(text);
    let mut v: Vec<f32> = counts.iter().map(|&c| c as f32).collect();
    let norm = v.iter().map(|x| x * x).sum::<f32>().sqrt();
    if norm > 0.0 && norm.is_finite() {
        for x in v.iter_mut() {
            *x /= norm;
        }
    }
    v
}

fn dot(a: &[f32], b: &[f32]) -> f32 {
    if a.len() != b.len() {
        return 0.0;
    }
    a.iter().zip(b).map(|(x, y)| x * y).sum()
}

fn norm(v: &[f32]) -> f32 {
    v.iter().map(|x| x * x).sum::<f32>().sqrt()
}

#[test]
fn embeddings_are_deterministic() {
    let e = MockEmbedder::new();
    let a = e.bucket_counts("Hello World foo");
    let b = e.bucket_counts("Hello World foo");
    assert_eq!(a, b, "same input must produce identical counts");
}

#[test]
fn vectors_are_l2_normalized() {
    let e = MockEmbedder::new();
    let v = embed(&e, "alpha beta gamma");
    assert!((norm(&v) - 1.0).abs() < 1e-5, "expected unit norm, got {}", norm(&v));
}

#[test]
fn query_and_passage_use_same_scheme() {
    let e = MockEmbedder::new();
    let q = e.bucket_counts("shared token text");
    let p: Vec<Vec<usize>> = ["shared token text"].iter().map(|t| e.bucket_counts(t)).collect();
    assert_eq!(q, p[0], "query and passage of same text must match");
}

#[test]
fn shared_tokens_score_higher() {
    let e = MockEmbedder::new();
    let query = embed(&e, "database connection pool");
    let close = embed(&e, "database connection settings");
    let far = embed(&e, "banana orange apple");
    let s_close = dot(&query, &close);
    let s_far = dot(&query, &far);
    assert!(s_close > s_far, "shared-token passage ({s_close}) must outscore unrelated one ({s_far})");
    assert!(s_close > 0.0, "shared tokens must give positive similarity");
}

#[test]
fn case_insensitive() {
    let e = MockEmbedder::new();
    assert_eq!(e.bucket_counts("Hello"), e.bucket_counts("hello"));
}

#[test]
fn empty_text_is_zero_vector() {
    let e = MockEmbedder::new();
    let v = embed(&e, "   ");
    assert!(v.iter().all(|&x| x == 0.0), "blank text must give zero vector");
    assert_eq!(norm(&v), 0.0);
}

#[test]
fn dim_is_respected() {
    let e = MockEmbedder::with_dim(32);
    assert_eq!(e.dim(), 32);
    assert_eq!(e.bucket_counts("x").len(), 32);
}

#[test]
fn fnv1a_bucket_exact_values() {
    // FNV-1a of the empty string is the offset basis; of "a" a known constant.
    let e = MockEmbedder::with_dim(usize::MAX);
    assert_eq!(e.bucket(""), (FNV_OFFSET % (usize::MAX as u64)) as usize);
    let h_a = (FNV_OFFSET ^ 0x61).wrapping_mul(FNV_PRIME);
    assert_eq!(h_a, 0xaf63dc4c8601ec8c);
    let e64 = MockEmbedder::new();
    assert_eq!(e64.bucket("a"), (0xaf63dc4c8601ec8cu64 % 64) as usize);
    assert_eq!(DEFAULT_DIM, 64);
}

#[test]
fn counts_sum_to_word_count() {
    let e = MockEmbedder::with_dim(7);
    let c = e.bucket_counts("one two two THREE three three");
    assert_eq!(c.iter().sum::<usize>(), 6);
    assert_eq!(c[e.bucket("two")] >= 2, true);
    let z = MockEmbedder::with_dim(0);
    assert_eq!(z.dim(), 1);
    assert_eq!(z.bucket_counts("a b c"), vec![3]);
}

#[test]
fn device_names() {
    assert_eq!(Device::from_name("cpu"), Device::Cpu);
    assert_eq!(Device::from_name("  CPU "), Device::Cpu);
    assert_eq!(Device::from_name("dml"), Device::DirectML);
    assert_eq!(Device::from_name("DirectML"), Device::DirectML);
    assert_eq!(Device::from_name("auto"), Device::Auto);
    assert_eq!(Device::from_name("gpu"), Device::Auto);
}

#[test]
fn session_sizing() {
    assert_eq!(worker_count(None, 16), 1);
    assert_eq!(worker_count(Some(0), 16), 4);
    assert_eq!(worker_count(Some(0), 4), 2);
    assert_eq!(worker_count(Some(0), 1), 1);
    assert_eq!(worker_count(Some(3), 2), 3);
    let (b, q) = tunings(Device::DirectML, None, 1, 8);
    assert_eq!((b.device, b.threads), (Device::DirectML, 6));
    assert_eq!((q.device, q.threads), (Device::Cpu, 2));
    let (b, _) = tunings(Device::Cpu, None, 4, 8);
    assert_eq!(b.threads, 2);
    let (b, _) = tunings(Device::Cpu, Some(8), 4, 8);
    assert_eq!(b.threads, 2);
    let (b, _) = tunings(Device::Cpu, Some(16), 1, 8);
    assert_eq!(b.threads, 8);
    let (b, q) = tunings(Device::Cpu, None, 1, 1);
    assert_eq!((b.threads, q.threads), (1, 1));
    assert_eq!(bulk_device(2, Device::DirectML), Device::Cpu);
    assert_eq!(bulk_device(1, Device::DirectML), Device::DirectML);
    assert_eq!(pinned_session(5, 2), 1);
    assert_eq!(pinned_session(5, 0), 0);
}

#[test]
fn resolve_model_default_and_case_insensitive() {
    assert_eq!(validate_model_name("").unwrap(), "multilingual-e5-small");
    assert_eq!(validate_model_name("   ").unwrap(), "multilingual-e5-small");
    assert_eq!(validate_model_name("Multilingual-E5-BASE").unwrap(), "multilingual-e5-base");
    assert_eq!(validate_model_name("  multilingual-e5-large  ").unwrap(), "multilingual-e5-large");
}

#[test]
fn resolve_model_unknown_lists_supported() {
    let err = validate_model_name("bge-zzz").unwrap_err();
    assert!(err.contains("unknown model 'bge-zzz'"), "got: {err}");
    for name in supported_model_names() {
        assert!(err.contains(&name), "error must list '{name}': {err}");
    }
}

#[test]
fn supported_models_match_core_whitelist() {
    let names = supported_model_names();
    assert_eq!(names, vec!["multilingual-e5-small", "multilingual-e5-base", "multilingual-e5-large"]);
    assert_eq!(validate_model_name(DEFAULT_MODEL).unwrap(), "multilingual-e5-small");
    for name in &names {
        assert!(validate_model_name(name).is_ok(), "core name '{name}' must resolve");
    }
}
