//! Legacy character encodings, decoded by the `encoding_rs` crate.
use vstd::prelude::*;

verus! {

/// What `encoding_rs` makes of bytes under an encoding label: the decoded text and whether any
/// malformed sequence was replaced; `None` for a label that it does not know.
pub uninterp spec fn decoding(label: Seq<char>, bytes: Seq<u8>) -> Option<(Seq<char>, bool)>;

/// `encoding_rs::Encoding::for_label` followed by `Encoding::decode`, which sniffs a byte order
/// mark, replaces malformed sequences and reports whether it had to. Both depend on their arguments
/// alone, and `shift_jis` and `utf-8` are labels that the crate knows. The buffer that `decode` allocates must
/// not exceed the address space.
#[verifier::external_body]
pub(crate) fn decode_labelled(label: &str, bytes: &[u8]) -> (r: Option<(String, bool)>)
    requires
        bytes@.len() <= usize::MAX / 16,
    ensures
        match r {
            Some((text, had_errors)) => decoding(label@, bytes@) == Some((text@, had_errors)),
            None => decoding(label@, bytes@) is None,
        },
        label@ == "shift_jis"@ || label@ == "utf-8"@ ==> r is Some,
{
    let encoding = encoding_rs::Encoding::for_label(label.as_bytes())?;
    let (text, _, had_errors) = encoding.decode(bytes);
    Some((text.into_owned(), had_errors))
}

} // verus!
