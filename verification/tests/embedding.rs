use tesseract::embedding::{
    is_retryable_error, is_retryable_status, status_error, NoopEmbeddingService, OpenAIEmbeddingConfig, TestEmbeddingService,
};
use tesseract::error::Error;

/// The test embedding of `text`: its digest bytes, L2-normalized.
fn embed(svc: &TestEmbeddingService, text: &str) -> Vec<f64> {
    let mut v: Vec<f64> = svc.embedding_bytes(text).iter().map(|&b| b as f64).collect();
    let norm = v.iter().map(|x| x * x).sum::<f64>().sqrt();
    if norm > 0.0 {
        for x in &mut v {
            *x /= norm;
        }
    }
    v
}

fn norm(v: &[f64]) -> f64 {
    v.iter().map(|x| x * x).sum::<f64>().sqrt()
}

#[test]
fn deterministic_embedding() {
    let svc = TestEmbeddingService::new(32);
    assert_eq!(embed(&svc, "hello world"), embed(&svc, "hello world"));
}

#[test]
fn different_texts_differ() {
    let svc = TestEmbeddingService::new(32);
    assert_ne!(embed(&svc, "cat"), embed(&svc, "dog"));
}

#[test]
fn l2_normalized() {
    let svc = TestEmbeddingService::new(32);
    let v = embed(&svc, "test vector");
    assert!((norm(&v) - 1.0).abs() < 1e-6);
}

#[test]
fn dimension_configurable() {
    let svc = TestEmbeddingService::new(16);
    assert_eq!(embed(&svc, "dim test").len(), 16);
}

#[test]
fn dimension_clamped_to_32() {
    let svc = TestEmbeddingService::new(128);
    assert_eq!(embed(&svc, "clamp test").len(), 32);
}

#[test]
fn default_dim_is_128() {
    assert_eq!(TestEmbeddingService::default_dim(), 128);
}

#[test]
fn empty_text_produces_vector() {
    let svc = TestEmbeddingService::new(32);
    let v = embed(&svc, "");
    assert_eq!(v.len(), 32);
    assert!((norm(&v) - 1.0).abs() < 1e-6);
}

#[test]
fn embedding_bytes_are_the_digest_prefix() {
    let svc = TestEmbeddingService::new(8);
    assert_eq!(svc.embedding_bytes(""), vec![227, 176, 196, 66, 152, 252, 28, 20]);
    let svc = TestEmbeddingService::new(4);
    assert_eq!(svc.embedding_bytes("abc"), vec![186, 120, 22, 191]);
    let svc = TestEmbeddingService::new(0);
    assert!(svc.embedding_bytes("abc").is_empty());
}

#[test]
fn leading_bytes_takes_a_prefix() {
    let digest: Vec<u8> = (0u8..32).collect();
    assert_eq!(TestEmbeddingService::new(3).leading_bytes(&digest), vec![0, 1, 2]);
    assert_eq!(TestEmbeddingService::new(1000).leading_bytes(&digest), digest);
}

#[test]
fn noop_embedding_returns_error() {
    let svc = NoopEmbeddingService;
    let err = svc.embed_error();
    match err {
        Error::ServiceError(msg) => {
            assert!(msg.contains("No embedding service configured"));
        }
        _ => panic!("Expected ServiceError, got {err:?}"),
    }
}

#[test]
fn retry_policy() {
    let c = OpenAIEmbeddingConfig::default();
    assert_eq!((c.timeout_secs, c.max_retries, c.base_delay_ms), (30, 3, 1000));
    assert_eq!(c.retry_delay_ms(1), 1000);
    assert_eq!(c.retry_delay_ms(2), 2000);
    assert_eq!(c.retry_delay_ms(3), 4000);
    let c = OpenAIEmbeddingConfig { base_delay_ms: 5, ..c };
    assert_eq!(c.retry_delay_ms(11), 5 * 1024);
}

#[test]
fn retryable_statuses_and_errors() {
    assert!(is_retryable_status(429));
    assert!(is_retryable_status(500));
    assert!(is_retryable_status(503));
    assert!(is_retryable_status(599));
    assert!(!is_retryable_status(400));
    assert!(!is_retryable_status(600));
    assert!(!is_retryable_status(200));
    assert!(is_retryable_error(&Error::ServiceError("Embedding rate limited (429): slow down".into())));
    assert!(is_retryable_error(&Error::ServiceError("Embedding server error (502)".into())));
    assert!(!is_retryable_error(&Error::ServiceError("Embedding request failed".into())));
    assert!(!is_retryable_error(&Error::NotFound("Embedding rate limited".into())));
}

#[test]
fn settings_parse_or_default() {
    let c = OpenAIEmbeddingConfig::from_settings(None, None);
    assert_eq!((c.timeout_secs, c.max_retries, c.base_delay_ms), (30, 3, 1000));
    let c = OpenAIEmbeddingConfig::from_settings(Some("12"), Some("+5"));
    assert_eq!((c.timeout_secs, c.max_retries), (12, 5));
    let c = OpenAIEmbeddingConfig::from_settings(Some(" 12"), Some("4294967296"));
    assert_eq!((c.timeout_secs, c.max_retries), (30, 3));
    let c = OpenAIEmbeddingConfig::from_settings(Some("18446744073709551615"), Some("4294967295"));
    assert_eq!((c.timeout_secs, c.max_retries), (u64::MAX, u32::MAX));
    let c = OpenAIEmbeddingConfig::from_settings(Some("18446744073709551616"), Some("-1"));
    assert_eq!((c.timeout_secs, c.max_retries), (30, 3));
}

#[test]
fn retry_schedule() {
    let c = OpenAIEmbeddingConfig::default();
    let limited = Error::ServiceError("Embedding rate limited (429): x".into());
    let failed = Error::ServiceError("Embedding request failed (400): x".into());
    assert_eq!(c.retry_after(0, &limited), Some(1000));
    assert_eq!(c.retry_after(1, &limited), Some(2000));
    assert_eq!(c.retry_after(2, &limited), Some(4000));
    assert_eq!(c.retry_after(3, &limited), None);
    assert_eq!(c.retry_after(0, &failed), None);
}

#[test]
fn response_status_errors() {
    assert!(status_error(200, "").is_none());
    assert!(status_error(204, "x").is_none());
    let m = |e: Option<Error>| match e {
        Some(Error::ServiceError(m)) => m,
        other => panic!("unexpected {other:?}"),
    };
    assert_eq!(m(status_error(429, "slow")), "Embedding rate limited (429): slow");
    assert_eq!(m(status_error(503, "down")), "Embedding server error (503): down");
    assert_eq!(m(status_error(404, "nope")), "Embedding request failed (404): nope");
    assert_eq!(m(status_error(302, "")), "Embedding request failed (302): ");
    assert!(is_retryable_error(&status_error(429, "a").unwrap()));
    assert!(is_retryable_error(&status_error(500, "a").unwrap()));
    assert!(!is_retryable_error(&status_error(401, "a").unwrap()));
    let t = OpenAIEmbeddingConfig { timeout_secs: 7, ..OpenAIEmbeddingConfig::default() }.timeout_error();
    assert_eq!(t.to_string(), "Embedding request timed out after 7s");
}
