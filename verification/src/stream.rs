//! Inflating a zlib stream, a piece at a time.

use vstd::prelude::*;
use crate::text::append_all;

verus! {

/// `flate2::read::ZlibDecoder`, the decoder that inflates what it reads.
/// Nothing is known of a decoder but what `unread` and `ends_well` say.
#[verifier::external_type_specification]
#[verifier::external_body]
#[verifier::reject_recursive_types(R)]
pub struct ExZlibDecoder<R>(flate2::read::ZlibDecoder<R>);

/// The bytes that the decoder has still to give: what its reads hand out,
/// one after the other, until the stream ends or breaks.
pub uninterp spec fn unread(decoder: flate2::read::ZlibDecoder<&[u8]>) -> Seq<u8>;

/// Whether the decoder's stream is whole: whether, once the unread bytes
/// are given, it ends without an error.
pub uninterp spec fn ends_well(decoder: flate2::read::ZlibDecoder<&[u8]>) -> bool;

/// What a decoder makes of the zlib stream `data`: the bytes that it
/// inflates to, up to its end or to the place where it breaks, and whether
/// it comes to its end without an error.
pub uninterp spec fn zlib_stream(data: Seq<u8>) -> (Seq<u8>, bool);

/// The bytes that the zlib stream `data` inflates to, up to its end or to
/// the place where it breaks.
pub open spec fn zlib_bytes(data: Seq<u8>) -> Seq<u8> {
    zlib_stream(data).0
}

/// Whether the zlib stream `data` is whole: whether it inflates to its end
/// without an error.
pub open spec fn zlib_whole(data: Seq<u8>) -> bool {
    zlib_stream(data).1
}

/// What the zlib stream `data` inflates to, if it is whole.
pub open spec fn zlib_inflate(data: Seq<u8>) -> Option<Seq<u8>> {
    if zlib_whole(data) {
        Some(zlib_bytes(data))
    } else {
        None
    }
}

/// `flate2::read::ZlibDecoder::new` on a slice of bytes: a decoder that has
/// yet to give all that the stream inflates to.
#[verifier::external_body]
pub(crate) fn open_stream<'a>(data: &'a [u8]) -> (decoder: flate2::read::ZlibDecoder<&'a [u8]>)
    ensures
        unread(decoder) == zlib_stream(data@).0,
        ends_well(decoder) == zlib_stream(data@).1,
{
    flate2::read::ZlibDecoder::new(data)
}

/// `Read::read` of `flate2::read::ZlibDecoder`, into a buffer of 1024
/// bytes. It hands out the next unread bytes, at least one and at most
/// 1024 of them; at the end of a whole stream it hands out none; where the
/// stream breaks it fails, and gives nothing.
#[verifier::external_body]
pub(crate) fn read_stream(decoder: &mut flate2::read::ZlibDecoder<&[u8]>) -> (r: Option<Vec<u8>>)
    ensures
        ends_well(*final(decoder)) == ends_well(*old(decoder)),
        match r {
            Some(piece) => {
                &&& piece@.len() <= 1024
                &&& piece@.len() <= unread(*old(decoder)).len()
                &&& piece@ == unread(*old(decoder)).take(piece@.len() as int)
                &&& unread(*final(decoder)) == unread(*old(decoder)).skip(piece@.len() as int)
                &&& piece@.len() == 0 ==> unread(*old(decoder)).len() == 0 && ends_well(
                    *old(decoder),
                )
            },
            None => unread(*old(decoder)).len() == 0 && !ends_well(*old(decoder)),
        },
{
    let mut buffer = [0u8; 1024];
    match std::io::Read::read(decoder, &mut buffer) {
        Ok(n) => Some(buffer[..n].to_vec()),
        Err(_) => None,
    }
}

/// Inflates a zlib stream to its end. A stream that breaks gives nothing.
pub fn inflate_all(data: &[u8]) -> (r: Option<Vec<u8>>)
    ensures
        match r {
            Some(bytes) => zlib_inflate(data@) == Some(bytes@),
            None => zlib_inflate(data@) is None,
        },
{
    let mut decoder = open_stream(data);
    let mut bytes: Vec<u8> = Vec::new();
    loop
        invariant
            ends_well(decoder) == zlib_whole(data@),
            bytes@ + unread(decoder) == zlib_bytes(data@),
        decreases unread(decoder).len(),
    {
        match read_stream(&mut decoder) {
            None => {
                return None;
            },
            Some(piece) => {
                if piece.len() == 0 {
                    assert(bytes@ + Seq::<u8>::empty() =~= bytes@);
                    return Some(bytes);
                }
                append_all(&mut bytes, piece.as_slice());
                assert(bytes@ + unread(decoder) =~= zlib_bytes(data@));
            },
        }
    }
}

/// What inflating the start of the stream `data` gives when at least `want`
/// bytes are asked for: some start of what the stream inflates to, of at
/// least `want` bytes, or all of it where the stream is whole and shorter;
/// nothing where the stream breaks before `want` bytes.
pub open spec fn is_start_of(start: Option<Seq<u8>>, data: Seq<u8>, want: nat) -> bool {
    match start {
        Some(bytes) => {
            &&& bytes.len() <= zlib_bytes(data).len()
            &&& bytes == zlib_bytes(data).take(bytes.len() as int)
            &&& bytes.len() >= want || (zlib_whole(data) && bytes == zlib_bytes(data))
        },
        None => !zlib_whole(data) && zlib_bytes(data).len() < want,
    }
}

/// Inflates the start of a zlib stream: it stops reading as soon as it has
/// `want` bytes, and so does not see what may be broken further on.
pub fn inflate_start(data: &[u8], want: usize) -> (r: Option<Vec<u8>>)
    ensures
        is_start_of(
            match r {
                Some(bytes) => Some(bytes@),
                None => None,
            },
            data@,
            want as nat,
        ),
{
    let mut decoder = open_stream(data);
    let mut bytes: Vec<u8> = Vec::new();
    assert(zlib_bytes(data@).take(0) =~= bytes@);
    while bytes.len() < want
        invariant
            ends_well(decoder) == zlib_whole(data@),
            bytes@ + unread(decoder) == zlib_bytes(data@),
        decreases unread(decoder).len(),
    {
        match read_stream(&mut decoder) {
            None => {
                assert(bytes@ + Seq::<u8>::empty() =~= bytes@);
                return None;
            },
            Some(piece) => {
                if piece.len() == 0 {
                    assert(bytes@ + Seq::<u8>::empty() =~= bytes@);
                    assert(bytes@ =~= zlib_bytes(data@).take(bytes@.len() as int));
                    return Some(bytes);
                }
                append_all(&mut bytes, piece.as_slice());
                assert(bytes@ + unread(decoder) =~= zlib_bytes(data@));
            },
        }
    }
    assert(bytes@ =~= zlib_bytes(data@).take(bytes@.len() as int));
    Some(bytes)
}

} // verus!
