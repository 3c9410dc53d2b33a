//! Connection parameters for the Tesseract HTTP endpoint.

use vstd::prelude::*;
use crate::text::{decimal, owned, push_decimal, push_str};

verus! {

/// Connection parameters for the Tesseract HTTP endpoint.
#[derive(Debug, Clone)]
pub struct TesseractConfig {
    /// Tesseract server hostname or IP address.
    pub host: String,
    /// Tesseract server port.
    pub port: u16,
    /// HTTP request timeout in milliseconds.
    pub timeout_ms: u64,
}

impl Default for TesseractConfig {
    fn default() -> (r: Self)
        ensures
            r.host@ == "localhost"@,
            r.port == 8081,
            r.timeout_ms == 5000,
    {
        TesseractConfig { host: owned("localhost"), port: 8081, timeout_ms: 5000 }
    }
}

impl TesseractConfig {
    /// Create a new config from explicit values.
    pub fn new(host: &str, port: u16, timeout_ms: u64) -> (r: Self)
        ensures
            r.host@ == host@,
            r.port == port,
            r.timeout_ms == timeout_ms,
    {
        TesseractConfig { host: owned(host), port, timeout_ms }
    }

    /// Return the base URL string (`http://host:port`).
    pub fn base_url(&self) -> (r: String)
        ensures
            r@ == "http://"@ + self.host@ + ":"@ + decimal(self.port as nat),
    {
        let mut s = owned("http://");
        push_str(&mut s, self.host.as_str());
        push_str(&mut s, ":");
        push_decimal(&mut s, self.port as u128);
        s
    }
}

} // verus!
