//! Request and response bodies of the query API.

use vstd::prelude::*;
use std::collections::HashMap;

verus! {

/// Query request body.
#[derive(Debug)]
pub struct QueryRequest {
    pub vql: String,
    pub user_id: Option<String>,
}

/// Insert response body.
#[derive(Debug)]
pub struct InsertResponse {
    pub success: bool,
    pub id: u64,
    pub error: Option<String>,
}

/// Health check response.
#[derive(Debug)]
pub struct HealthResponse {
    pub status: String,
    pub version: String,
}

/// Readiness check diagnostics.
#[derive(Debug)]
pub struct ReadinessResponse {
    pub status: String,
    pub checks: HashMap<String, bool>,
}

/// The OpenAPI description of the query API.
pub struct ApiDoc;

} // verus!
