//! The leaves of the binary wire format, length-prefixed frames, and the
//! compression that large messages go through.

use vstd::prelude::*;

verus! {

/// The variable-length form of an unsigned number: seven bits to a byte, least
/// significant first, with the top bit set on every byte but the last.
#[verifier::opaque]
pub open spec fn varint(n: nat) -> Seq<u8>
    decreases n,
{
    if n < 128 {
        seq![n as u8]
    } else {
        seq![(128 + n % 128) as u8] + varint(n / 128)
    }
}

/// Reads a variable-length number that may take up to `most` bytes, the last of
/// which may be `top` at most. Gives the number and how many bytes it took.
#[verifier::opaque]
pub open spec fn read_varint(bytes: Seq<u8>, most: nat, top: nat) -> Option<(nat, nat)>
    decreases most,
{
    if bytes.len() == 0 || most == 0 {
        None
    } else if bytes[0] < 128 {
        if most == 1 && bytes[0] > top {
            None
        } else {
            Some((bytes[0] as nat, 1))
        }
    } else {
        match read_varint(bytes.drop_first(), (most - 1) as nat, top) {
            Some((high, used)) => Some(((bytes[0] - 128 + 128 * high) as nat, used + 1)),
            None => None,
        }
    }
}

/// Reads a 64-bit number: ten bytes at most, the tenth being `0` or `1`.
pub open spec fn read_u64(bytes: Seq<u8>) -> Option<(nat, nat)> {
    read_varint(bytes, 10, 1)
}

/// Reads a 32-bit number: five bytes at most, the fifth being `15` at most.
pub open spec fn read_u32(bytes: Seq<u8>) -> Option<(nat, nat)> {
    read_varint(bytes, 5, 15)
}

/// Reads a length in bytes: a number as wide as the machine's addresses.
pub open spec fn read_len(bytes: Seq<u8>) -> Option<(nat, nat)> {
    if usize::BITS == 64 {
        read_u64(bytes)
    } else {
        read_u32(bytes)
    }
}

/// Reads a flag: one byte, `0` or `1`.
pub open spec fn read_bool(bytes: Seq<u8>) -> Option<(bool, nat)> {
    if bytes.len() > 0 && bytes[0] <= 1 {
        Some((bytes[0] == 1, 1))
    } else {
        None
    }
}

/// The form of a flag.
pub open spec fn bool_bytes(flag: bool) -> Seq<u8> {
    if flag {
        seq![1u8]
    } else {
        seq![0u8]
    }
}

/// The form of a text: its length in bytes, then its UTF-8 bytes.
pub open spec fn text_bytes(text: Seq<char>) -> Seq<u8> {
    let utf8 = vstd::utf8::encode_utf8(text);
    varint(utf8.len()) + utf8
}

/// Reads a text: a length, then that many bytes of valid UTF-8.
pub open spec fn read_text(bytes: Seq<u8>) -> Option<(Seq<char>, nat)> {
    match read_len(bytes) {
        Some((len, used)) => {
            let end = used + len;
            if end <= bytes.len() && vstd::utf8::valid_utf8(bytes.subrange(used as int, end as int)) {
                Some((vstd::utf8::decode_utf8(bytes.subrange(used as int, end as int)), end))
            } else {
                None
            }
        },
        None => None,
    }
}

/// The form of bytes: how many there are, then the bytes.
pub open spec fn blob_bytes(blob: Seq<u8>) -> Seq<u8> {
    varint(blob.len()) + blob
}

/// Reads bytes: how many there are, then that many.
pub open spec fn read_blob(bytes: Seq<u8>) -> Option<(Seq<u8>, nat)> {
    match read_len(bytes) {
        Some((len, used)) => if used + len <= bytes.len() {
            Some((bytes.subrange(used as int, (used + len) as int), used + len))
        } else {
            None
        },
        None => None,
    }
}

/// `postcard::to_allocvec` on a `u64`: the variable-length form of the number.
#[verifier::external_body]
pub(crate) fn encode_u64(value: u64) -> (bytes: Vec<u8>)
    ensures
        bytes@ == varint(value as nat),
{
    postcard::to_allocvec(&value).unwrap()
}

/// `postcard::to_allocvec` on a `u32`: the variable-length form of the number.
#[verifier::external_body]
pub(crate) fn encode_u32(value: u32) -> (bytes: Vec<u8>)
    ensures
        bytes@ == varint(value as nat),
{
    postcard::to_allocvec(&value).unwrap()
}

/// `postcard::to_allocvec` on a `bool`: one byte, `0` or `1`.
#[verifier::external_body]
pub(crate) fn encode_bool(value: bool) -> (bytes: Vec<u8>)
    ensures
        bytes@ == bool_bytes(value),
{
    postcard::to_allocvec(&value).unwrap()
}

/// `postcard::to_allocvec` on a `str`: the length in bytes, then the bytes.
#[verifier::external_body]
pub(crate) fn encode_text(value: &str) -> (bytes: Vec<u8>)
    ensures
        bytes@ == text_bytes(value@),
{
    postcard::to_allocvec(value).unwrap()
}

/// `postcard::to_allocvec` on bytes: how many there are, then the bytes.
#[verifier::external_body]
pub(crate) fn encode_blob(value: &[u8]) -> (bytes: Vec<u8>)
    ensures
        bytes@ == blob_bytes(value@),
{
    postcard::to_allocvec(value).unwrap()
}

/// `postcard::to_allocvec` on an array of bytes: the bytes, and nothing before them.
#[verifier::external_body]
pub(crate) fn encode_array(value: &[u8; 32]) -> (bytes: Vec<u8>)
    ensures
        bytes@ == value@,
{
    postcard::to_allocvec(value).unwrap()
}

/// `postcard::take_from_bytes` for a `u64`: the number at the front and the bytes
/// behind it, or nothing where the front is not the form of such a number.
#[verifier::external_body]
pub(crate) fn take_u64(bytes: &[u8]) -> (taken: Option<(u64, &[u8])>)
    ensures
        match read_u64(bytes@) {
            Some((value, used)) => {
                &&& used <= bytes@.len()
                &&& taken matches Some((n, rest)) && n == value && rest@ == bytes@.skip(used as int)
            },
            None => taken is None,
        },
{
    postcard::take_from_bytes::<u64>(bytes).ok()
}

/// `postcard::take_from_bytes` for a `u32`, as for a `u64`.
#[verifier::external_body]
pub(crate) fn take_u32(bytes: &[u8]) -> (taken: Option<(u32, &[u8])>)
    ensures
        match read_u32(bytes@) {
            Some((value, used)) => {
                &&& used <= bytes@.len()
                &&& taken matches Some((n, rest)) && n == value && rest@ == bytes@.skip(used as int)
            },
            None => taken is None,
        },
{
    postcard::take_from_bytes::<u32>(bytes).ok()
}

/// `postcard::take_from_bytes` for a `bool`: the flag at the front and the bytes
/// behind it, or nothing where the first byte is neither `0` nor `1`.
#[verifier::external_body]
pub(crate) fn take_bool(bytes: &[u8]) -> (taken: Option<(bool, &[u8])>)
    ensures
        match read_bool(bytes@) {
            Some((value, used)) => taken matches Some((flag, rest)) && flag == value && rest@
                == bytes@.skip(used as int),
            None => taken is None,
        },
{
    postcard::take_from_bytes::<bool>(bytes).ok()
}

/// `postcard::take_from_bytes` for a `String`: the text at the front and the bytes
/// behind it, or nothing where the length or the UTF-8 is not sound.
#[verifier::external_body]
pub(crate) fn take_text(bytes: &[u8]) -> (taken: Option<(String, &[u8])>)
    ensures
        match read_text(bytes@) {
            Some((value, used)) => {
                &&& used <= bytes@.len()
                &&& taken matches Some((text, rest)) && text@ == value && rest@ == bytes@.skip(used as int)
            },
            None => taken is None,
        },
{
    postcard::take_from_bytes::<String>(bytes).ok()
}

/// `postcard::take_from_bytes` for borrowed bytes: the bytes at the front and those
/// behind them, or nothing where there are fewer than announced.
#[verifier::external_body]
pub(crate) fn take_blob(bytes: &[u8]) -> (taken: Option<(&[u8], &[u8])>)
    ensures
        match read_blob(bytes@) {
            Some((value, used)) => {
                &&& used <= bytes@.len()
                &&& taken matches Some((blob, rest)) && blob@ == value && rest@ == bytes@.skip(used as int)
            },
            None => taken is None,
        },
{
    postcard::take_from_bytes::<&[u8]>(bytes).ok()
}

/// One more than the largest number that `most` bytes can hold.
pub open spec fn varint_cap(most: nat, top: nat) -> nat
    decreases most,
{
    if most <= 1 {
        top + 1
    } else {
        128 * varint_cap((most - 1) as nat, top)
    }
}

proof fn lemma_varint_read(n: nat, most: nat, top: nat, rest: Seq<u8>)
    requires
        most > 0,
        top < 128,
        n < varint_cap(most, top),
    ensures
        read_varint(varint(n) + rest, most, top) == Some((n, varint(n).len())),
    decreases most,
{
    reveal(varint);
    reveal(read_varint);
    let bytes = varint(n) + rest;
    if n >= 128 {
        let high = n / 128;
        assert(high < varint_cap((most - 1) as nat, top));
        lemma_varint_read(high, (most - 1) as nat, top, rest);
        assert(bytes.drop_first() =~= varint(high) + rest);
        assert(bytes[0] == 128 + n % 128);
    } else {
        assert(bytes[0] == n);
    }
}

/// What is read back of a 64-bit number is that number.
pub proof fn law_u64_read_back(n: nat, rest: Seq<u8>)
    requires
        n <= u64::MAX,
    ensures
        read_u64(varint(n) + rest) == Some((n, varint(n).len())),
{
    reveal_with_fuel(varint_cap, 10);
    lemma_varint_read(n, 10, 1, rest);
}

/// What is read back of a 32-bit number is that number.
pub proof fn law_u32_read_back(n: nat, rest: Seq<u8>)
    requires
        n <= u32::MAX,
    ensures
        read_u32(varint(n) + rest) == Some((n, varint(n).len())),
{
    reveal_with_fuel(varint_cap, 10);
    lemma_varint_read(n, 5, 15, rest);
}

/// What is read back of a length is that length.
pub proof fn law_len_read_back(n: nat, rest: Seq<u8>)
    requires
        n <= usize::MAX,
    ensures
        read_len(varint(n) + rest) == Some((n, varint(n).len())),
{
    if usize::BITS == 64 {
        law_u64_read_back(n, rest);
    } else {
        law_u32_read_back(n, rest);
    }
}

/// What is read back of a flag is that flag.
pub proof fn law_bool_read_back(flag: bool, rest: Seq<u8>)
    ensures
        read_bool(bool_bytes(flag) + rest) == Some((flag, 1nat)),
{
    assert((bool_bytes(flag) + rest)[0] == bool_bytes(flag)[0]);
}

/// What is read back of a text is that text.
pub proof fn law_text_read_back(text: Seq<char>, rest: Seq<u8>)
    requires
        vstd::utf8::encode_utf8(text).len() <= usize::MAX,
    ensures
        read_text(text_bytes(text) + rest) == Some((text, text_bytes(text).len())),
{
    let utf8 = vstd::utf8::encode_utf8(text);
    let bytes = text_bytes(text) + rest;
    law_len_read_back(utf8.len(), utf8 + rest);
    assert(bytes =~= varint(utf8.len()) + (utf8 + rest));
    let used = varint(utf8.len()).len();
    assert(bytes.subrange(used as int, (used + utf8.len()) as int) =~= utf8);
    vstd::utf8::encode_utf8_valid_utf8(text);
    vstd::utf8::encode_utf8_decode_utf8(text);
}

/// What is read back of bytes is those bytes.
pub proof fn law_blob_read_back(blob: Seq<u8>, rest: Seq<u8>)
    requires
        blob.len() <= usize::MAX,
    ensures
        read_blob(blob_bytes(blob) + rest) == Some((blob, blob_bytes(blob).len())),
{
    let bytes = blob_bytes(blob) + rest;
    law_len_read_back(blob.len(), blob + rest);
    assert(bytes =~= varint(blob.len()) + (blob + rest));
    let used = varint(blob.len()).len();
    assert(bytes.subrange(used as int, (used + blob.len()) as int) =~= blob);
}

/// The form of a number is not empty.
pub(crate) proof fn lemma_varint_len(n: nat)
    ensures
        varint(n).len() > 0,
{
    reveal(varint);
}

/// A number takes at least one byte, and no more than there are.
pub proof fn lemma_read_varint_bounds(bytes: Seq<u8>, most: nat, top: nat)
    ensures
        read_varint(bytes, most, top) matches Some((value, used)) ==> 1 <= used <= bytes.len(),
    decreases most,
{
    reveal(read_varint);
    if bytes.len() > 0 && most > 0 && bytes[0] >= 128 {
        lemma_read_varint_bounds(bytes.drop_first(), (most - 1) as nat, top);
    }
}


/// What `zstd` makes of compressed bytes: the bytes that were compressed, or
/// nothing where they are not whole frames of that format.
pub uninterp spec fn zstd_decoded(bytes: Seq<u8>) -> Option<Seq<u8>>;

/// `zstd::encode_all`: bytes that `zstd::decode_all` turns back into `data`, whatever
/// the level. Which of the possible forms comes out is left open. Reading from and
/// writing to memory does not fail, so neither does this, unless memory runs out.
#[verifier::external_body]
pub(crate) fn zstd_encode(data: &[u8], level: i32) -> (bytes: Vec<u8>)
    requires
        0 <= level <= 22,
    ensures
        zstd_decoded(bytes@) == Some(data@),
{
    zstd::encode_all(data, level).unwrap()
}

/// `zstd::decode_all`: the decompressed bytes, or nothing where it fails.
#[verifier::external_body]
pub(crate) fn zstd_decode(bytes: &[u8]) -> (data: Option<Vec<u8>>)
    ensures
        match data {
            Some(plain) => zstd_decoded(bytes@) == Some(plain@),
            None => zstd_decoded(bytes@) is None,
        },
{
    zstd::decode_all(bytes).ok()
}

/// What stands for bytes that are not UTF-8 once they are made a text.
pub uninterp spec fn replaced_text(bytes: Seq<u8>) -> Seq<char>;

/// The text that stands for bytes: the one they encode where they are UTF-8.
pub open spec fn lossy_text(bytes: Seq<u8>) -> Seq<char> {
    if vstd::utf8::valid_utf8(bytes) {
        vstd::utf8::decode_utf8(bytes)
    } else {
        replaced_text(bytes)
    }
}

/// The character that stands for what is not UTF-8.
pub const REPLACEMENT: char = '\u{FFFD}';

/// Whether the text that stands for bytes which are not UTF-8 shows that something was
/// replaced, and has a slash only where the bytes have one.
pub open spec fn shows_replacement(bytes: Seq<u8>) -> bool {
    !vstd::utf8::valid_utf8(bytes) ==> replaced_text(bytes).contains(REPLACEMENT) && (replaced_text(bytes).contains('/')
        ==> bytes.contains(47u8))
}

/// `String::from_utf8_lossy`: the text that the bytes encode, with replacement
/// characters where they are not UTF-8. Nothing else is put in: there is a replacement
/// character where the bytes are not UTF-8, and a slash only where the bytes have one.
#[verifier::external_body]
pub(crate) fn to_text_lossy(bytes: &[u8]) -> (text: String)
    ensures
        text@ == (if vstd::utf8::valid_utf8(bytes@) {
            vstd::utf8::decode_utf8(bytes@)
        } else {
            replaced_text(bytes@)
        }),
        !vstd::utf8::valid_utf8(bytes@) ==> text@.contains(REPLACEMENT),
        text@.contains('/') ==> bytes@.contains(47u8),
{
    String::from_utf8_lossy(bytes).into_owned()
}


/// Puts bytes behind others.
pub(crate) fn push_all(bytes: &mut Vec<u8>, more: Vec<u8>)
    ensures
        final(bytes)@ == old(bytes)@ + more@,
{
    let mut rest = more;
    bytes.append(&mut rest);
}

} // verus!
