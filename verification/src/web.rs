use vstd::prelude::*;

use base64::prelude::{Engine, BASE64_STANDARD};

verus! {

/// What the outside standard-alphabet base64 encoder returns for a byte
/// string: a pure function of the bytes alone.
pub uninterp spec fn base64_of(b: Seq<u8>) -> Seq<char>;

/// Relies on base64's `BASE64_STANDARD` engine: padded standard-alphabet
/// encoding, four output characters for every three input bytes begun.
#[verifier::external_body]
fn base64_encode(content: &[u8]) -> (r: String)
    ensures
        r@ == base64_of(content@),
        r@.len() == 4 * ((content@.len() + 2) / 3),
{
    BASE64_STANDARD.encode(content)
}

/// A `data:` URI carrying the given payload under the given MIME type.
pub fn data_uri(content: &[u8], mime: &str) -> (r: String)
    ensures
        r@ == "data:"@ + mime@ + ";base64,"@ + base64_of(content@),
{
    let mut out = String::new();
    out.append("data:");
    out.append(mime);
    out.append(";base64,");
    let b64 = base64_encode(content);
    out.append(b64.as_str());
    out
}

} // verus!
