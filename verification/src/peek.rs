//! The report of a peek at an HTTP server.

use vstd::prelude::*;
use crate::text::{decimal, push_decimal, push_str, string_of};

verus! {

/// The text of a boolean.
pub open spec fn bool_text(b: bool) -> Seq<char> {
    if b { "true"@ } else { "false"@ }
}

/// The report of a peek at `url`: the status code and its reason, whether the
/// answer came over HTTP/2, whether it asked for strict transport security,
/// and how many milliseconds the request took.
pub open spec fn spec_peek_report(
    url: Seq<char>,
    status: u16,
    reason: Seq<char>,
    http2: bool,
    hsts: bool,
    millis: u128,
) -> Seq<char> {
    "URL: "@ + url + "\nStatus: "@ + decimal(status as nat) + " "@ + reason + "\nHTTP/2: "@
        + bool_text(http2) + "\nHSTS: "@ + bool_text(hsts) + "\nTime: "@ + decimal(millis as nat)
        + "ms\n"@
}

fn push_bool(out: &mut Vec<char>, b: bool)
    ensures
        final(out)@ == old(out)@ + bool_text(b),
{
    if b {
        push_str(out, "true");
    } else {
        push_str(out, "false");
    }
}

/// Writes the report of a peek at `url`.
pub fn peek_report(url: &str, status: u16, reason: &str, http2: bool, hsts: bool, millis: u128) -> (r: String)
    ensures
        r@ == spec_peek_report(url@, status, reason@, http2, hsts, millis),
{
    let mut out: Vec<char> = Vec::new();
    push_str(&mut out, "URL: ");
    push_str(&mut out, url);
    push_str(&mut out, "\nStatus: ");
    push_decimal(&mut out, status as u128);
    push_str(&mut out, " ");
    push_str(&mut out, reason);
    push_str(&mut out, "\nHTTP/2: ");
    push_bool(&mut out, http2);
    push_str(&mut out, "\nHSTS: ");
    push_bool(&mut out, hsts);
    push_str(&mut out, "\nTime: ");
    push_decimal(&mut out, millis);
    push_str(&mut out, "ms\n");
    string_of(out.as_slice())
}

/// The report holds, line by line, the URL, the status code and reason,
/// whether the answer came over HTTP/2, whether it asked for strict
/// transport security, and the time; each yes/no line depends on its own
/// input alone.
pub proof fn law_peek_report_lines(
    url: Seq<char>,
    status: u16,
    reason: Seq<char>,
    http2: bool,
    hsts: bool,
    millis: u128,
)
    ensures
        spec_peek_report(url, status, reason, http2, hsts, millis) == "URL: "@ + url
            + "\nStatus: "@ + decimal(status as nat) + " "@ + reason + "\nHTTP/2: "@ + (if http2 {
            "true"@
        } else {
            "false"@
        }) + "\nHSTS: "@ + (if hsts {
            "true"@
        } else {
            "false"@
        }) + "\nTime: "@ + decimal(millis as nat) + "ms\n"@,
{
}

} // verus!
