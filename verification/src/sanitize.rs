//! Putting documents into a canonical form before they are compared.

use vstd::prelude::*;

use html5ever::serialize::SerializeOpts;
use html5ever::tendril::TendrilSink;
use html5ever::ParseOpts;
use markup5ever_rcdom::{RcDom, SerializableHandle};

verus! {

/// The document that html5ever's parser builds from `html` and its
/// serializer writes back out.
pub uninterp spec fn reserialized(html: Seq<char>) -> Seq<char>;

/// Parses `html` with `html5ever::parse_document` into an `RcDom` and
/// serializes the document again with `html5ever::serialize`, so that both
/// documents of a comparison are spec-compliant HTML. The result is named
/// `reserialized`; what it is, is not stated. Serializing into a `Vec`
/// cannot fail and the serializer writes UTF-8, so neither unwrap panics.
#[verifier::external_body]
pub fn sanitize(html: &str) -> (r: String)
    ensures
        r@ == reserialized(html@),
{
    let dom = html5ever::parse_document(RcDom::default(), ParseOpts::default()).one(html);
    let mut bytes = vec![];
    let handle = SerializableHandle::from(dom.document);
    html5ever::serialize(&mut bytes, &handle, SerializeOpts::default()).unwrap();
    String::from_utf8(bytes).unwrap()
}

} // verus!
