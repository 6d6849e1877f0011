//! Extraction of a client's IP address from HTTP proxy headers.
//!
//! Each supported proxy convention (Cloudflare, AWS CloudFront, Fly.io,
//! Akamai, Nginx, RFC 7239 `Forwarded`, `X-Forwarded-For`) stores the
//! client address in its own header, with its own rules for which
//! occurrence of the header to trust and how to read the value. One
//! extractor per convention selects the trusted occurrence, checks that
//! it is printable ASCII, decodes it, and returns either the address or
//! a precise description of what went wrong.

pub mod ascii;
pub mod errors;
pub mod extract;
pub mod forwarded;
pub mod headers;
pub mod ip;
pub mod laws;

pub use errors::Error;
pub use extract::{
    cf_connecting_ip, cloudfront_viewer_address, fly_client_ip, rightmost_forwarded,
    rightmost_x_forwarded_for, true_client_ip, x_real_ip,
};
pub use headers::AsciiHeaderValue;
pub use ip::IpAddress;
