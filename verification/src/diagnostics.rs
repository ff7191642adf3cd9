//! Warnings that several readers give.
use crate::document::InternalDocument;
use crate::text;
use crate::text::{join_strings, push_decimal};
use vstd::prelude::*;

verus! {

/// The warning that bytes could not be decoded.
pub open spec fn lossy_decode_message(what: Seq<char>) -> Seq<char> {
    "The "@ + what
        + " is not valid UTF-8 or does not match its declared encoding; undecodable bytes were replaced by the replacement character"@
}

/// Warns that bytes could not be decoded.
pub fn push_lossy_decode_warning(doc: &mut InternalDocument, source: &str, what: &str)
    ensures
        final(doc)@ == old(doc)@.with_warning(source@, lossy_decode_message(what@)),
        final(doc).metadata == old(doc).metadata,
{
    let mut message = "The ".to_owned();
    message.append(what);
    message.append(
        " is not valid UTF-8 or does not match its declared encoding; undecodable bytes were replaced by the replacement character",
    );
    doc.add_warning(source, message);
}

/// The warning that parsing stopped before the end.
pub open spec fn truncated_parse_message(what: Seq<char>, cause: Seq<char>) -> Seq<char> {
    "Parsing of "@ + what + " stopped before the end: "@ + cause
}

/// Warns that parsing stopped before the end.
pub fn push_truncated_parse_warning(doc: &mut InternalDocument, source: &str, what: &str, cause: &str)
    ensures
        final(doc)@ == old(doc)@.with_warning(source@, truncated_parse_message(what@, cause@)),
        final(doc).metadata == old(doc).metadata,
{
    let mut message = "Parsing of ".to_owned();
    message.append(what);
    message.append(" stopped before the end: ");
    message.append(cause);
    doc.add_warning(source, message);
}

/// The warning that a document ended inside elements.
pub open spec fn unclosed_elements_message(names: Seq<Seq<char>>) -> Seq<char> {
    "The document ended with "@ + text::decimal(names.len()) + " unclosed elements: "@ + text::join(names, ", "@)
}

/// Warns that a document ended inside elements, if it did.
pub fn push_unclosed_elements_warning(doc: &mut InternalDocument, source: &str, names: &Vec<String>)
    ensures
        final(doc)@ == if names@.len() == 0 {
            old(doc)@
        } else {
            old(doc)@.with_warning(source@, unclosed_elements_message(text::strings(names@)))
        },
        final(doc).metadata == old(doc).metadata,
{
    if names.len() > 0 {
        let mut message = "The document ended with ".to_owned();
        push_decimal(&mut message, names.len() as u64);
        message.append(" unclosed elements: ");
        message.append(join_strings(names.as_slice(), ", ").as_str());
        doc.add_warning(source, message);
    }
}

} // verus!
