//! Embedding services: the byte material of the deterministic test
//! embedding, the unconfigured service, and the retry policy of the HTTP
//! embedding client.

use vstd::prelude::*;
use vstd::arithmetic::power2::{pow2, lemma_pow2_unfold};
use crate::error::Error;
use crate::text::{decimal, owned, parse_u128, parse_u128_spec, push_decimal, push_str, starts_with};
use vstd::string::*;

verus! {

/// What SHA-256 gives for a byte string.
pub uninterp spec fn sha256_spec(data: Seq<u8>) -> Seq<u8>;

/// The SHA-256 digest of `data` (`sha2::Sha256::digest`), 32 bytes long.
#[verifier::external_body]
fn sha256_digest(data: &[u8]) -> (r: Vec<u8>)
    ensures
        r@ == sha256_spec(data@),
        r@.len() == 32,
{
    <sha2::Sha256 as sha2::Digest>::digest(data).to_vec()
}

/// A deterministic embedding service for use in tests: the embedding of a
/// text is built from the leading bytes of its SHA-256 digest.
pub struct TestEmbeddingService {
    dim: usize,
}

/// The number of digest bytes used for a requested dimension: at most 32.
pub open spec fn clamped_dim(dim: usize) -> nat {
    if dim < 32 {
        dim as nat
    } else {
        32
    }
}

impl TestEmbeddingService {
    /// The configured dimension.
    pub closed spec fn dim_spec(&self) -> usize {
        self.dim
    }

    /// Create a new `TestEmbeddingService` with the given dimension (used
    /// clamped to at most 32, the digest length).
    pub fn new(dim: usize) -> (r: Self)
        ensures
            r.dim_spec() == dim,
    {
        TestEmbeddingService { dim }
    }

    /// Return the default embedding dimension (128).
    pub fn default_dim() -> (r: usize)
        ensures
            r == 128,
    {
        128
    }

    /// The leading `min(dim, 32)` bytes of a digest.
    pub fn leading_bytes(&self, digest: &Vec<u8>) -> (r: Vec<u8>)
        requires
            digest.len() == 32,
        ensures
            r@ == digest@.take(clamped_dim(self.dim_spec()) as int),
    {
        let n: usize = if self.dim < 32 {
            self.dim
        } else {
            32
        };
        let mut out: Vec<u8> = Vec::new();
        let mut i: usize = 0;
        while i < n
            invariant
                n <= 32,
                n == clamped_dim(self.dim),
                digest.len() == 32,
                i <= n,
                out@ == digest@.take(i as int),
            decreases n - i,
        {
            out.push(digest[i]);
            proof {
                assert(out@ =~= digest@.take(i + 1));
            }
            i = i + 1;
        }
        out
    }

    /// The bytes an embedding of `text` is made from: the leading
    /// `min(dim, 32)` bytes of the SHA-256 digest of its UTF-8 encoding.
    pub fn embedding_bytes(&self, text: &str) -> (r: Vec<u8>)
        ensures
            r@ == sha256_spec(text.spec_bytes()).take(clamped_dim(self.dim_spec()) as int),
            r@.len() == clamped_dim(self.dim_spec()),
    {
        let digest = sha256_digest(text.as_bytes());
        self.leading_bytes(&digest)
    }
}

/// No-op embedding service: every request fails with a configuration error.
pub struct NoopEmbeddingService;

/// The message of the error of the no-op embedding service.
pub open spec fn not_configured_message() -> Seq<char> {
    "No embedding service configured. Provide a vector directly or configure an embedding provider."@
}

impl NoopEmbeddingService {
    /// The error every embedding request gets.
    pub fn embed_error(&self) -> (r: Error)
        ensures
            r matches Error::ServiceError(m) && m@ == not_configured_message(),
    {
        Error::ServiceError(owned("No embedding service configured. Provide a vector directly or configure an embedding provider."))
    }
}

/// Configuration for the OpenAI embedding HTTP client.
#[derive(Debug, Clone, Copy)]
pub struct OpenAIEmbeddingConfig {
    /// Per-request timeout in seconds.
    pub timeout_secs: u64,
    /// Maximum number of retries on retryable HTTP status codes (429, 5xx).
    pub max_retries: u32,
    /// Base delay in milliseconds for exponential backoff.
    pub base_delay_ms: u64,
}

impl Default for OpenAIEmbeddingConfig {
    fn default() -> (r: Self)
        ensures
            r.timeout_secs == 30,
            r.max_retries == 3,
            r.base_delay_ms == 1000,
    {
        OpenAIEmbeddingConfig { timeout_secs: 30, max_retries: 3, base_delay_ms: 1000 }
    }
}

impl OpenAIEmbeddingConfig {
    /// The delay before retry `attempt` (counting from 1):
    /// `base_delay_ms * 2^(attempt - 1)` milliseconds.
    pub fn retry_delay_ms(&self, attempt: u32) -> (r: u64)
        requires
            attempt >= 1,
            self.base_delay_ms * pow2((attempt - 1) as nat) <= u64::MAX,
        ensures
            r == self.base_delay_ms * pow2((attempt - 1) as nat),
    {
        let mut d = self.base_delay_ms;
        let mut k: u32 = 1;
        proof {
            vstd::arithmetic::power2::lemma2_to64();
            assert(self.base_delay_ms * pow2(0) == self.base_delay_ms);
        }
        while k < attempt
            invariant
                1 <= k <= attempt,
                d == self.base_delay_ms * pow2((k - 1) as nat),
                self.base_delay_ms * pow2((attempt - 1) as nat) <= u64::MAX,
            decreases attempt - k,
        {
            proof {
                lemma_pow2_unfold(k as nat);
                if (k as nat) < (attempt - 1) as nat {
                    vstd::arithmetic::power2::lemma_pow2_strictly_increases(k as nat, (attempt - 1) as nat);
                }
                assert(self.base_delay_ms * pow2(k as nat) <= self.base_delay_ms * pow2((attempt - 1) as nat)) by (nonlinear_arith)
                    requires
                        pow2(k as nat) <= pow2((attempt - 1) as nat),
                ;
                assert(self.base_delay_ms * pow2(k as nat) == 2 * d) by (nonlinear_arith)
                    requires
                        pow2(k as nat) == 2 * pow2((k - 1) as nat),
                        d == self.base_delay_ms * pow2((k - 1) as nat),
                ;
            }
            d = d * 2;
            k = k + 1;
        }
        d
    }
}

impl OpenAIEmbeddingConfig {
    /// The configuration from the timeout and retry-count settings (text,
    /// when set): each setting that parses as an unsigned number of its type
    /// is used, and otherwise the default (30 s, 3 retries); the base delay is
    /// 1000 ms.
    pub fn from_settings(timeout_secs: Option<&str>, max_retries: Option<&str>) -> (r: Self)
        ensures
            r.timeout_secs == match timeout_secs {
                Some(t) => match parse_u128_spec(t@) {
                    Some(v) => if v <= u64::MAX { v as u64 } else { 30 },
                    None => 30,
                },
                None => 30,
            },
            r.max_retries == match max_retries {
                Some(t) => match parse_u128_spec(t@) {
                    Some(v) => if v <= u32::MAX { v as u32 } else { 3 },
                    None => 3,
                },
                None => 3,
            },
            r.base_delay_ms == 1000,
    {
        let timeout: u64 = match timeout_secs {
            Some(t) => match parse_u128(t) {
                Some(v) => if v <= u64::MAX as u128 { v as u64 } else { 30 },
                None => 30,
            },
            None => 30,
        };
        let retries: u32 = match max_retries {
            Some(t) => match parse_u128(t) {
                Some(v) => if v <= u32::MAX as u128 { v as u32 } else { 3 },
                None => 3,
            },
            None => 3,
        };
        OpenAIEmbeddingConfig { timeout_secs: timeout, max_retries: retries, base_delay_ms: 1000 }
    }

    /// After attempt `attempt` (counting from 0) failed with `e`: the delay
    /// before the next attempt, `base_delay_ms * 2^attempt` milliseconds,
    /// when the error is retryable and retries remain; `None` when the
    /// failure is the answer.
    pub fn retry_after(&self, attempt: u32, e: &Error) -> (r: Option<u64>)
        requires
            is_retryable_error_spec(e) && attempt < self.max_retries ==> self.base_delay_ms * pow2(
                attempt as nat,
            ) <= u64::MAX,
        ensures
            r is Some <==> is_retryable_error_spec(e) && attempt < self.max_retries,
            r matches Some(d) ==> d == self.base_delay_ms * pow2(attempt as nat),
    {
        if is_retryable_error(e) && attempt < self.max_retries {
            Some(self.retry_delay_ms(attempt + 1))
        } else {
            None
        }
    }

    /// The error of a request that ran past the configured timeout.
    pub fn timeout_error(&self) -> (r: Error)
        ensures
            r matches Error::ServiceError(m) && m@ == "Embedding request timed out after "@ + decimal(
                self.timeout_secs as nat,
            ) + "s"@,
    {
        let mut m = owned("Embedding request timed out after ");
        push_decimal(&mut m, self.timeout_secs as u128);
        push_str(&mut m, "s");
        Error::ServiceError(m)
    }
}

/// The error that an embedding response with HTTP status `status` and body
/// `body` stands for: rate limiting for 429, a server error for 5xx, a failed
/// request for any other status outside 2xx, and none for 2xx.
pub fn status_error(status: u16, body: &str) -> (r: Option<Error>)
    ensures
        status == 429 ==> (r matches Some(Error::ServiceError(m)) && m@ == "Embedding rate limited (429): "@ + body@),
        500 <= status <= 599 ==> (r matches Some(Error::ServiceError(m)) && m@ == "Embedding server error ("@
            + decimal(status as nat) + "): "@ + body@),
        status != 429 && !(500 <= status <= 599) && !(200 <= status <= 299) ==> (r matches Some(
            Error::ServiceError(m),
        ) && m@ == "Embedding request failed ("@ + decimal(status as nat) + "): "@ + body@),
        200 <= status <= 299 ==> r is None,
{
    if status == 429 {
        let mut m = owned("Embedding rate limited (429): ");
        push_str(&mut m, body);
        Some(Error::ServiceError(m))
    } else if 500 <= status && status <= 599 {
        let mut m = owned("Embedding server error (");
        push_decimal(&mut m, status as u128);
        push_str(&mut m, "): ");
        push_str(&mut m, body);
        Some(Error::ServiceError(m))
    } else if 200 <= status && status <= 299 {
        None
    } else {
        let mut m = owned("Embedding request failed (");
        push_decimal(&mut m, status as u128);
        push_str(&mut m, "): ");
        push_str(&mut m, body);
        Some(Error::ServiceError(m))
    }
}

/// An HTTP status that makes the embedding client retry: 429 or any 5xx.
pub fn is_retryable_status(status: u16) -> (r: bool)
    ensures
        r == (status == 429 || (500 <= status && status <= 599)),
{
    status == 429 || (500 <= status && status <= 599)
}

/// `s` begins with `p`.
pub open spec fn text_starts_with(s: Seq<char>, p: Seq<char>) -> bool {
    s.len() >= p.len() && s.subrange(0, p.len() as int) == p
}

/// The error makes the embedding client retry: a service error reporting
/// rate limiting or a server error.
pub open spec fn is_retryable_error_spec(e: &Error) -> bool {
    e matches Error::ServiceError(m) && (text_starts_with(m@, "Embedding rate limited"@)
        || text_starts_with(m@, "Embedding server error"@))
}

/// An embedding error that makes the client retry: a service error reporting
/// rate limiting or a server error.
pub fn is_retryable_error(e: &Error) -> (r: bool)
    ensures
        r == is_retryable_error_spec(e),
{
    match e {
        Error::ServiceError(m) => starts_with(m.as_str(), "Embedding rate limited") || starts_with(
            m.as_str(),
            "Embedding server error",
        ),
        _ => false,
    }
}

} // verus!
