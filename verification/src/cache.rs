//! Which responses a client may keep, and for how long.

use vstd::prelude::*;

verus! {

/// Seconds for which a cacheable response may be kept: one day.
pub const MAX_AGE_SECONDS: u64 = 86400;

/// The content types of responses that never change once published.
pub open spec fn cacheable(content_type: Seq<char>) -> bool {
    ||| content_type == "text/css"@
    ||| content_type == "application/javascript"@
    ||| content_type == "image/svg+xml"@
    ||| content_type == "image/webp"@
    ||| content_type == "font/woff2"@
    ||| content_type == "image/png"@
}

fn same_text(a: &str, b: &str) -> (r: bool)
    ensures
        r == (a@ == b@),
{
    a.to_owned() == b.to_owned()
}

/// Whether a response of this content type gets a caching header.
pub fn is_cacheable(content_type: &str) -> (b: bool)
    ensures
        b == cacheable(content_type@),
{
    same_text(content_type, "text/css") || same_text(content_type, "application/javascript")
        || same_text(content_type, "image/svg+xml") || same_text(content_type, "image/webp")
        || same_text(content_type, "font/woff2") || same_text(content_type, "image/png")
}

/// The caching header given to a cacheable response.
pub fn cache_control_value() -> (v: String)
    ensures
        v@ == "public, max-age=86400"@,
{
    "public, max-age=86400".to_owned()
}

} // verus!
