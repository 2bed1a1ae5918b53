//! HAR (HTTP Archive) 1.2 data structures.
//!
//! Fields are leniently modelled: many are `Option` even where the
//! specification says required, because real-world HAR files are often
//! inconsistent.  Millisecond quantities, which HAR writes as JSON
//! numbers, are kept exactly as the bit pattern of the IEEE-754 double
//! they denote (see [`Millis`]); the library orders and compares them but
//! does no arithmetic on them.
use vstd::prelude::*;

verus! {

/// A millisecond quantity, held as the bit pattern of an IEEE-754
/// binary64 value (`f64::to_bits`).
#[derive(Debug, Clone, Copy, PartialEq, Eq, Structural)]
pub struct Millis {
    /// The raw bits of the double.
    pub bits: u64,
}

/// The sign bit of a double.
pub open spec fn sign_bit() -> int {
    0x8000_0000_0000_0000
}

/// The bits of positive infinity; larger magnitudes are NaN.
pub open spec fn infinity_bits() -> int {
    0x7FF0_0000_0000_0000
}

impl Millis {
    /// Position of the value in `f64::total_cmp`'s order: the bits read as
    /// a signed integer, with the magnitude bits of negative values
    /// flipped.  `total_cmp(a, b)` is the integer comparison of the keys.
    pub open spec fn total_key(self) -> int {
        if (self.bits as int) < sign_bit() {
            self.bits as int
        } else {
            -1 - (self.bits - sign_bit())
        }
    }

    /// The double satisfies `value >= 0.0` (true for `-0.0`, false for NaN).
    pub open spec fn is_nonnegative(self) -> bool {
        (self.bits as int) <= infinity_bits() || self.bits as int == sign_bit()
    }

    /// Position of the value in the numeric order that `f64::partial_cmp`
    /// gives on non-NaN values: as `total_key`, but with `-0.0` equal to
    /// `+0.0`.
    pub open spec fn numeric_key(self) -> int {
        if self.bits as int == sign_bit() {
            0
        } else {
            self.total_key()
        }
    }

    /// The zero value `0.0`.
    pub fn zero() -> (m: Millis)
        ensures
            m.bits == 0,
    {
        Millis { bits: 0 }
    }

    /// `total_key` computed.
    pub fn total_key_of(&self) -> (k: i128)
        ensures
            k == self.total_key(),
    {
        if self.bits < 0x8000_0000_0000_0000 {
            self.bits as i128
        } else {
            -1 - ((self.bits - 0x8000_0000_0000_0000) as i128)
        }
    }

    /// `numeric_key` computed.
    pub fn numeric_key_of(&self) -> (k: i128)
        ensures
            k == self.numeric_key(),
    {
        if self.bits == 0x8000_0000_0000_0000 {
            0
        } else {
            self.total_key_of()
        }
    }

    /// `is_nonnegative` computed.
    pub fn nonnegative(&self) -> (b: bool)
        ensures
            b == self.is_nonnegative(),
    {
        self.bits <= 0x7FF0_0000_0000_0000 || self.bits == 0x8000_0000_0000_0000
    }
}

/// Root of a HAR file.
#[derive(Debug, Clone)]
pub struct Har {
    /// The HAR log containing all entries.
    pub log: Log,
}

/// Top-level log object containing the HAR data.
#[derive(Debug, Clone)]
pub struct Log {
    /// HAR format version (e.g. "1.2").
    pub version: String,
    /// Software that created the HAR file.
    pub creator: Creator,
    /// Optional browser info.
    pub browser: Option<Browser>,
    /// Optional list of pages (page groupings).
    pub pages: Option<Vec<Page>>,
    /// The HTTP request/response entries.
    pub entries: Vec<Entry>,
    /// Optional free-form comment.
    pub comment: Option<String>,
}

/// Software that generated the HAR file.
#[derive(Debug, Clone)]
pub struct Creator {
    /// Application name (e.g. "Chrome").
    pub name: String,
    /// Application version.
    pub version: String,
    /// Optional comment.
    pub comment: Option<String>,
}

/// Browser info embedded in the HAR.
#[derive(Debug, Clone)]
pub struct Browser {
    /// Browser name.
    pub name: String,
    /// Browser version.
    pub version: String,
    /// Optional comment.
    pub comment: Option<String>,
}

/// A page view grouping multiple entries.
#[derive(Debug, Clone)]
pub struct Page {
    /// ISO 8601 start time.
    pub started_date_time: String,
    /// Unique page identifier (referenced by entries).
    pub id: String,
    /// Page title.
    pub title: String,
    /// Additional page timing info.
    pub page_timings: PageTimings,
    /// Optional comment.
    pub comment: Option<String>,
}

/// Page-level timing information.
#[derive(Debug, Clone)]
pub struct PageTimings {
    /// Optional content loaded time in ms.
    pub on_content_load: Option<Millis>,
    /// Optional page load time in ms.
    pub on_load: Option<Millis>,
    /// Optional comment.
    pub comment: Option<String>,
}

/// A single HTTP request-response pair.
#[derive(Debug, Clone)]
pub struct Entry {
    /// ISO 8601 request start time.
    pub started_date_time: String,
    /// Total elapsed time in milliseconds.
    pub time: Millis,
    /// The HTTP request.
    pub request: Request,
    /// The HTTP response.
    pub response: Response,
    /// Cache state info.
    pub cache: Cache,
    /// Detailed timing breakdown in milliseconds.
    pub timings: Timings,
    /// Optional server IP address.
    pub server_ip_address: Option<String>,
    /// Optional connection identifier.
    pub connection: Option<String>,
    /// Optional page reference (matches a Page id).
    pub pageref: Option<String>,
    /// Optional comment.
    pub comment: Option<String>,
}

/// An HTTP request.
#[derive(Debug, Clone)]
pub struct Request {
    /// HTTP method: GET, POST, PUT, DELETE, etc.
    pub method: String,
    /// Full request URL.
    pub url: String,
    /// HTTP version (e.g. "HTTP/1.1").
    pub http_version: String,
    /// Request cookies.
    pub cookies: Vec<Cookie>,
    /// Request headers.
    pub headers: Vec<Header>,
    /// Parsed query string parameters.
    pub query_string: Vec<QueryParam>,
    /// POST data (for POST/PUT requests).
    pub post_data: Option<PostData>,
    /// Total header size in bytes (-1 when unknown).
    pub headers_size: i64,
    /// Total body size in bytes (-1 when unknown).
    pub body_size: i64,
    /// Optional comment.
    pub comment: Option<String>,
}

/// An HTTP response.
#[derive(Debug, Clone)]
pub struct Response {
    /// HTTP status code.
    pub status: u16,
    /// HTTP status text (e.g. "OK", "Not Found").
    pub status_text: String,
    /// HTTP version.
    pub http_version: String,
    /// Response cookies.
    pub cookies: Vec<Cookie>,
    /// Response headers.
    pub headers: Vec<Header>,
    /// Response body metadata.
    pub content: Content,
    /// Redirect target URL (for 3xx responses).
    pub redirect_url: String,
    /// Total header size in bytes (-1 when unknown).
    pub headers_size: i64,
    /// Total body size in bytes (-1 when unknown).
    pub body_size: i64,
    /// Optional comment.
    pub comment: Option<String>,
}

/// Response content metadata.
#[derive(Debug, Clone)]
pub struct Content {
    /// Content size in bytes.
    pub size: u64,
    /// Optional compressed size.
    pub compression: Option<u64>,
    /// MIME type (e.g. "application/json").
    pub mime_type: String,
    /// Optional full response body text.
    pub text: Option<String>,
    /// Optional content encoding.
    pub encoding: Option<String>,
    /// Optional comment.
    pub comment: Option<String>,
}

/// Detailed timing breakdown for a request in milliseconds.
#[derive(Debug, Clone)]
pub struct Timings {
    /// Time spent in queue / blocked.
    pub blocked: Option<Millis>,
    /// DNS resolution time.
    pub dns: Option<Millis>,
    /// TCP connect time.
    pub connect: Option<Millis>,
    /// Request send time.
    pub send: Millis,
    /// Time waiting for first response byte.
    pub wait: Millis,
    /// Response receive time.
    pub receive: Millis,
    /// SSL/TLS handshake time.
    pub ssl: Option<Millis>,
    /// Optional comment.
    pub comment: Option<String>,
}

/// Cache state before and after the request.
#[derive(Debug, Clone)]
pub struct Cache {
    /// Optional cache state before request.
    pub before_request: Option<CacheState>,
    /// Optional cache state after request.
    pub after_request: Option<CacheState>,
    /// Optional comment.
    pub comment: Option<String>,
}

/// Cache entry state.
#[derive(Debug, Clone)]
pub struct CacheState {
    /// Optional expiration timestamp.
    pub expires: Option<String>,
    /// Last access timestamp.
    pub last_access: String,
    /// `ETag` value.
    pub e_tag: String,
    /// Hit count.
    pub hit_count: u64,
    /// Optional comment.
    pub comment: Option<String>,
}

/// An HTTP cookie.
#[derive(Debug, Clone)]
pub struct Cookie {
    /// Cookie name.
    pub name: String,
    /// Cookie value.
    pub value: String,
    /// Optional path.
    pub path: Option<String>,
    /// Optional domain.
    pub domain: Option<String>,
    /// Optional expiration.
    pub expires: Option<String>,
    /// Optional `HttpOnly` flag.
    pub http_only: Option<bool>,
    /// Optional Secure flag.
    pub secure: Option<bool>,
    /// Optional comment.
    pub comment: Option<String>,
}

/// An HTTP header.
#[derive(Debug, Clone)]
pub struct Header {
    /// Header name.
    pub name: String,
    /// Header value.
    pub value: String,
    /// Optional comment.
    pub comment: Option<String>,
}

/// A parsed query string parameter.
#[derive(Debug, Clone)]
pub struct QueryParam {
    /// Parameter name.
    pub name: String,
    /// Parameter value.
    pub value: String,
    /// Optional comment.
    pub comment: Option<String>,
}

/// POST data (body) of a request.
#[derive(Debug, Clone)]
pub struct PostData {
    /// Content MIME type.
    pub mime_type: String,
    /// Body text.
    pub text: String,
    /// Parsed form parameters (for form submissions).
    pub params: Option<Vec<PostParam>>,
    /// Optional comment.
    pub comment: Option<String>,
}

/// A POST form parameter.
#[derive(Debug, Clone)]
pub struct PostParam {
    /// Parameter name.
    pub name: String,
    /// Optional parameter value.
    pub value: Option<String>,
    /// Optional uploaded file name.
    pub file_name: Option<String>,
    /// Optional content type for file uploads.
    pub content_type: Option<String>,
    /// Optional comment.
    pub comment: Option<String>,
}

} // verus!
