//! The query-facade value types: request parameters, response
//! envelopes, and their documented defaults.  The HTTP layer that
//! carries them stays outside the crate and hands over plain values.

use vstd::prelude::*;

verus! {

/// A uniform response envelope: either a payload or an error message.
pub struct ApiResponse<T> {
    pub success: bool,
    pub data: Option<T>,
    pub error: Option<String>,
}

impl<T> ApiResponse<T> {
    /// A successful response carrying its payload.
    pub fn ok(data: T) -> (r: ApiResponse<T>)
        ensures
            r.success,
            r.data == Some(data),
            r.error is None,
    {
        ApiResponse { success: true, data: Some(data), error: None }
    }

    /// A failed response carrying its message.
    pub fn error(message: String) -> (r: ApiResponse<T>)
        ensures
            !r.success,
            r.data is None,
            r.error == Some(message),
    {
        ApiResponse { success: false, data: None, error: Some(message) }
    }
}

/// A fuzzy card or deck search request.
pub struct SearchQuery {
    pub q: String,
    pub limit: usize,
    pub set_code: Option<String>,
    pub rarity: Option<String>,
    pub color: Option<String>,
}

/// A type-ahead request.
pub struct AutocompleteQuery {
    pub prefix: String,
    pub limit: usize,
}

/// A single-card price request.
pub struct PriceQuery {
    pub condition: String,
}

/// A price-history request over a trailing window of days.
pub struct PriceHistoryQuery {
    pub days: u32,
}

/// A trending-price request.
pub struct TrendingQuery {
    pub direction: String,
    pub limit: usize,
}

/// A ranked result list with its originating query.
pub struct SearchResponse<T> {
    pub query: String,
    pub count: usize,
    pub results: Vec<T>,
}

/// An error surfaced to a caller of the facade.
pub struct ApiError {
    pub error: String,
    pub message: String,
}

/// Liveness information of the store behind the facade.
pub struct HealthResponse {
    pub status: String,
    pub redis: String,
    pub timestamp: Option<i64>,
}

/// Store memory statistics.
pub struct MemoryUsage {
    pub used_memory: u64,
    pub used_memory_human: String,
    pub used_memory_peak: u64,
    pub used_memory_peak_human: String,
}

/// The default result cap of a search request.
pub fn default_limit() -> (r: usize)
    ensures
        r == 50,
{
    50
}

/// The default suggestion cap of a type-ahead request.
pub fn default_autocomplete_limit() -> (r: usize)
    ensures
        r == 10,
{
    10
}

/// The default condition of a price request.
pub fn default_condition() -> (r: String)
    ensures
        r@ == "Near Mint"@,
{
    String::from_str("Near Mint")
}

/// The default window of a price-history request.
pub fn default_days() -> (r: u32)
    ensures
        r == 30,
{
    30
}

/// The default direction of a trending-price request.
pub fn default_direction() -> (r: String)
    ensures
        r@ == "up"@,
{
    String::from_str("up")
}

} // verus!
