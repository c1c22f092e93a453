//! The text side of the download: the request that asks for the shared file,
//! and the line that ends the headers of the response.

use vstd::prelude::*;
use vstd::string::{StringExecFns, StringSliceAdditionalSpecFns};

verus! {

broadcast use vstd::slice::group_slice_axioms;

/// The request for `file` on `host`.
pub open spec fn request_text(host: Seq<char>, file: Seq<char>) -> Seq<char> {
    "GET /"@ + file + " HTTP/1.1\r\nHost: "@ + host
        + "\r\nUser-Agent: miaow\r\nAccept: */*\r\n\r\n"@
}

/// The request that fetches `file` from `host`.
pub fn request(host: &str, file: &str) -> (text: String)
    ensures
        text@ == request_text(host@, file@),
{
    let mut text = String::from_str("GET /");
    text.append(file);
    text.append(" HTTP/1.1\r\nHost: ");
    text.append(host);
    text.append("\r\nUser-Agent: miaow\r\nAccept: */*\r\n\r\n");
    text
}

/// Whether `line` is the empty line that ends the headers: a carriage return
/// and a line feed, nothing else.
pub fn ends_headers(line: &str) -> (last: bool)
    ensures
        last == (line.spec_bytes() == seq![0x0du8, 0x0au8]),
{
    let bytes = line.as_bytes();
    let last = bytes.len() == 2 && bytes[0] == 0x0d && bytes[1] == 0x0a;
    assert(last ==> bytes@ =~= seq![0x0du8, 0x0au8]);
    last
}

} // verus!
