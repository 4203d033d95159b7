//! Bytes as they arrive from a socket or a pipe.
use vstd::prelude::*;
use vstd::utf8::{decode_utf8, valid_utf8};

verus! {

/// The text that `String::from_utf8_lossy` reads in a sequence of bytes.
pub uninterp spec fn utf8_lossy(bytes: Seq<u8>) -> Seq<char>;

/// `String::from_utf8_lossy`. Its result is a function of the bytes, named
/// `utf8_lossy`, and on well-formed UTF-8 it is the text that the bytes encode.
/// Where the replacement characters stand in the text of ill-formed bytes is
/// left unsaid.
#[verifier::external_body]
pub(crate) fn lossy_text(bytes: &[u8]) -> (r: String)
    ensures
        r@ == utf8_lossy(bytes@),
        valid_utf8(bytes@) ==> r@ == decode_utf8(bytes@),
{
    String::from_utf8_lossy(bytes).into_owned()
}

/// A copy of the bytes of a slice from position `from` on.
pub fn bytes_from(bytes: &[u8], from: usize) -> (r: Vec<u8>)
    requires
        from <= bytes.len(),
    ensures
        r@ == bytes@.skip(from as int),
{
    let mut out: Vec<u8> = Vec::new();
    append_bytes(&mut out, bytes, from);
    assert(out@ =~= bytes@.skip(from as int));
    out
}

/// Appends the bytes of a slice from position `from` on.
pub fn append_bytes(out: &mut Vec<u8>, bytes: &[u8], from: usize)
    requires
        from <= bytes.len(),
    ensures
        final(out)@ == old(out)@ + bytes@.skip(from as int),
{
    let mut i: usize = from;
    while i < bytes.len()
        invariant
            from <= i <= bytes.len(),
            out@ == old(out)@ + bytes@.subrange(from as int, i as int),
        decreases bytes.len() - i,
    {
        out.push(bytes[i]);
        i += 1;
        assert(out@ =~= old(out)@ + bytes@.subrange(from as int, i as int));
    }
    assert(bytes@.subrange(from as int, i as int) =~= bytes@.skip(from as int));
}

} // verus!
