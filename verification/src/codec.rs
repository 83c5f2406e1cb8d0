//! The calls into the Zstandard library and into the standard library's UTF-8 decoder.

use vstd::prelude::*;

verus! {

/// The error of a failed call into the Zstandard library.
#[verifier::external_type_specification]
#[verifier::external_body]
pub struct ExIoError(std::io::Error);

/// The frame that `zstd::stream::encode_all` makes of `data` at compression level
/// `level`.
pub uninterp spec fn zstd_encoded(data: Seq<u8>, level: i32) -> Seq<u8>;

/// What `zstd::stream::decode_all` recovers from `data`, or `None` where `data` cannot be
/// decoded.
pub uninterp spec fn zstd_decoded(data: Seq<u8>) -> Option<Seq<u8>>;

/// What `String::from_utf8_lossy` makes of bytes that are not valid UTF-8.
pub uninterp spec fn utf8_lossy(bytes: Seq<u8>) -> Seq<char>;

/// The text that `bytes` are read as.
pub open spec fn text_of(bytes: Seq<u8>) -> Seq<char> {
    if vstd::utf8::valid_utf8(bytes) {
        vstd::utf8::decode_utf8(bytes)
    } else {
        utf8_lossy(bytes)
    }
}

/// Calls `zstd::stream::encode_all`.
///
/// Trusted: a successful call returns the frame that data and level determine (the
/// encoder runs on one thread and uses neither time nor chance), and decoding that frame
/// gives the data back. When the call succeeds is left unsaid, since it fails for want of
/// memory.
#[verifier::external_body]
pub(crate) fn zstd_encode(data: &[u8], level: i32) -> (result: Result<Vec<u8>, std::io::Error>)
    ensures
        result matches Ok(frame) ==> frame@ == zstd_encoded(data@, level),
        result matches Ok(frame) ==> zstd_decoded(frame@) == Some(data@),
{
    zstd::stream::encode_all(data, level)
}

/// Calls `zstd::stream::decode_all`.
///
/// Trusted: a successful call returns what the bytes determine, so that it fails on bytes
/// that decode to nothing. That it succeeds on all others is left unsaid, since it fails
/// for want of memory too.
#[verifier::external_body]
pub(crate) fn zstd_decode(data: &[u8]) -> (result: Result<Vec<u8>, std::io::Error>)
    ensures
        result matches Ok(content) ==> zstd_decoded(data@) == Some(content@),
{
    zstd::stream::decode_all(data)
}

/// Calls `String::from_utf8_lossy`.
///
/// Trusted: valid UTF-8 is decoded as it is, and of other bytes the result depends on
/// them alone.
#[verifier::external_body]
pub(crate) fn lossy_string(bytes: &[u8]) -> (text: String)
    ensures
        text@ == if vstd::utf8::valid_utf8(bytes@) {
            vstd::utf8::decode_utf8(bytes@)
        } else {
            utf8_lossy(bytes@)
        },
{
    String::from_utf8_lossy(bytes).into_owned()
}

/// `result` is what `zstd::stream::encode_all` may return for `bytes`, all of them and no
/// others, at `level`.
pub closed spec fn encoding_gives(
    bytes: Seq<u8>,
    level: i32,
    result: Result<Vec<u8>, std::io::Error>,
) -> bool {
    exists|data: &[u8]| data@ == bytes && #[trigger] call_ensures(zstd_encode, (data, level), result)
}

/// `result` is what `zstd::stream::decode_all` may return for `bytes`, all of them and no
/// others.
pub closed spec fn decoding_gives(bytes: Seq<u8>, result: Result<Vec<u8>, std::io::Error>) -> bool {
    exists|data: &[u8]| data@ == bytes && #[trigger] call_ensures(zstd_decode, (data,), result)
}

/// Compresses `data`. Success and failure are those of the encoder.
pub(crate) fn compress(data: &[u8], level: i32) -> (result: Result<Vec<u8>, std::io::Error>)
    ensures
        encoding_gives(data@, level, result),
        result matches Ok(frame) ==> frame@ == zstd_encoded(data@, level),
        result matches Ok(frame) ==> zstd_decoded(frame@) == Some(data@),
{
    let result = zstd_encode(data, level);
    assert(call_ensures(zstd_encode, (data, level), result));
    result
}

/// Decompresses `data`. Success and failure are those of the decoder.
pub(crate) fn decompress(data: &[u8]) -> (result: Result<Vec<u8>, std::io::Error>)
    ensures
        decoding_gives(data@, result),
        result matches Ok(content) ==> zstd_decoded(data@) == Some(content@),
{
    let result = zstd_decode(data);
    assert(call_ensures(zstd_decode, (data,), result));
    result
}

/// What encoding gives comes from a call of the encoder on just these bytes at just this
/// level.
pub(crate) proof fn encoding_is_of_all_bytes(
    bytes: Seq<u8>,
    level: i32,
    result: Result<Vec<u8>, std::io::Error>,
)
    requires
        encoding_gives(bytes, level, result),
    ensures
        exists|data: &[u8]| data@ == bytes && #[trigger] call_ensures(
            zstd_encode,
            (data, level),
            result,
        ),
{
}

/// What decoding gives comes from a call of the decoder on just these bytes.
pub(crate) proof fn decoding_is_of_all_bytes(
    bytes: Seq<u8>,
    result: Result<Vec<u8>, std::io::Error>,
)
    requires
        decoding_gives(bytes, result),
    ensures
        exists|data: &[u8]| data@ == bytes && #[trigger] call_ensures(
            zstd_decode,
            (data,),
            result,
        ),
{
}

/// Decoding a frame that encoding gave gives nothing but the encoded bytes, whatever the
/// level.
pub proof fn decoding_undoes_encoding(
    bytes: Seq<u8>,
    level: i32,
    frame: Vec<u8>,
    content: Vec<u8>,
)
    requires
        encoding_gives(bytes, level, Ok(frame)),
        decoding_gives(frame@, Ok(content)),
    ensures
        content@ == bytes,
{
    encoding_is_of_all_bytes(bytes, level, Ok(frame));
    decoding_is_of_all_bytes(frame@, Ok(content));
}

} // verus!
