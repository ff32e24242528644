//! The compressed persistence form: the verified codec's bytes, run through
//! zstd. Packing always succeeds and unpacking inverts it exactly; corrupt or
//! foreign bytes come back as "absent".

use vstd::prelude::*;

use crate::brain::Brain;
use crate::codec::spec_decode;

verus! {

/// What zstd decompression yields on any byte string: the framed payload, or
/// nothing when the bytes are not a well-formed frame. A function of the
/// bytes alone for the one zstd build this crate is pinned to.
pub uninterp spec fn zstd_unframe(s: Seq<u8>) -> Option<Seq<u8>>;

/// Relies on zstd::stream::encode_all: compresses the bytes into a zstd
/// frame. Reading a `&[u8]` and writing into a growing `Vec` cannot fail and
/// the level zero is valid, so the call returns the frame; zstd documents
/// that decompression inverts compression, so unframing the result yields
/// the input bytes.
#[verifier::external_body]
fn zstd_compress(bytes: &Vec<u8>) -> (r: Vec<u8>)
    ensures
        zstd_unframe(r@) == Some(bytes@),
{
    zstd::stream::encode_all(bytes.as_slice(), 0).expect(
        "compressing into a growing buffer cannot fail",
    )
}

/// Relies on zstd::stream::decode_all: decompresses a zstd frame, failing
/// exactly on bytes that are not one; on success the result is the frame's
/// payload.
#[verifier::external_body]
fn zstd_decompress(bytes: &Vec<u8>) -> (r: Option<Vec<u8>>)
    ensures
        r is Some <==> zstd_unframe(bytes@) is Some,
        r is Some ==> r.unwrap()@ == zstd_unframe(bytes@).unwrap(),
{
    zstd::stream::decode_all(bytes.as_slice()).ok()
}

impl Brain {
    /// The Brain's durable form: its binary encoding, compressed. Unframing
    /// the result decodes back to exactly this Brain's model.
    pub fn to_packed(&self) -> (r: Vec<u8>)
        requires
            self.inv(),
        ensures
            zstd_unframe(r@) is Some,
            spec_decode(zstd_unframe(r@).unwrap()) == Some(self@),
    {
        let encoded = self.encode();
        zstd_compress(&encoded)
    }

    /// Reads a Brain back from its durable form. Returns nothing exactly when
    /// the bytes do not unframe to the encoding of a well-formed model; on
    /// success the model is exactly what the payload denotes, so unpacking a
    /// packed Brain reproduces it.
    pub fn from_packed(bytes: &Vec<u8>) -> (r: Option<Brain>)
        ensures
            r is Some <==> (zstd_unframe(bytes@) matches Some(raw) && spec_decode(raw) is Some),
            r is Some ==> r.unwrap()@ == spec_decode(zstd_unframe(bytes@).unwrap()).unwrap(),
            r is Some ==> r.unwrap().inv(),
    {
        match zstd_decompress(bytes) {
            Some(raw) => Brain::decode(&raw),
            None => None,
        }
    }
}

} // verus!
