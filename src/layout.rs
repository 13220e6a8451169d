//! The on-disk layout: `<root>/<user>/<base32 of stream id>/`, and how the names in it
//! map back to users and streams.
use vstd::prelude::*;
use vstd::string::StringSliceAdditionalSpecFns;
use vstd::utf8::{is_ascii_chars, is_ascii_chars_encode_utf8, decode_utf8, decode_utf8_encode_utf8, encode_utf8, encode_utf8_decode_utf8, encode_utf8_valid_utf8, valid_utf8};

verus! {

/// RFC 4648 base32 of `b`, without padding, as data_encoding writes it.
pub uninterp spec fn base32_nopad(b: Seq<u8>) -> Seq<char>;

/// A symbol of the base32 alphabet: `A` to `Z` and `2` to `7`.
pub open spec fn is_base32_symbol(c: char) -> bool {
    ('A' <= c && c <= 'Z') || ('2' <= c && c <= '7')
}

/// Relies on data_encoding::BASE32_NOPAD.encode: RFC 4648 base32 without padding,
/// written with the symbols `A`-`Z` and `2`-`7` alone, 8 symbols for each 5 bytes
/// and fewer for a shorter last group; decoding gives the input back, so no other
/// input has the same encoding. It panics on inputs longer than usize::MAX / 512 bytes.
#[verifier::external_body]
fn base32_encode(b: &[u8]) -> (r: String)
    requires
        b@.len() <= usize::MAX / 512,
    ensures
        r@ == base32_nopad(b@),
        forall|i: int| 0 <= i < r@.len() ==> is_base32_symbol(#[trigger] r@[i]),
        forall|c: Seq<u8>| base32_nopad(c) == r@ ==> c == b@,
        r@.len() <= 2 * b@.len(),
{
    data_encoding::BASE32_NOPAD.encode(b)
}

/// Relies on data_encoding::BASE32_NOPAD.decode: the encoding is canonical, so decoding
/// accepts exactly the outputs of encode and gives back what was encoded; it panics on
/// inputs longer than usize::MAX / 8 bytes.
#[verifier::external_body]
fn base32_decode(s: &str) -> (r: Option<Vec<u8>>)
    requires
        s.spec_bytes().len() <= usize::MAX / 8,
    ensures
        r matches Some(b) ==> base32_nopad(b@) == s@,
        r is None ==> forall|b: Seq<u8>| base32_nopad(b) != s@,
        r matches Some(v) ==> forall|b: Seq<u8>| base32_nopad(b) == s@ ==> v@ == b,
{
    data_encoding::BASE32_NOPAD.decode(s.as_bytes()).ok()
}

/// Relies on String::from_utf8: it accepts exactly the valid UTF-8 byte strings and
/// decodes them.
#[verifier::external_body]
fn utf8_string(b: Vec<u8>) -> (r: Option<String>)
    ensures
        r is Some <==> valid_utf8(b@),
        r matches Some(s) ==> s@ == decode_utf8(b@),
{
    String::from_utf8(b).ok()
}

/// The directory name of the stream `id`.
pub open spec fn dir_name_of(id: Seq<char>) -> Seq<char> {
    base32_nopad(encode_utf8(id))
}

/// The stream whose directory is named `name`, if it names one.
pub open spec fn stream_of_dir(name: Seq<char>) -> Option<Seq<char>> {
    if encode_utf8(name).len() <= usize::MAX / 8 && exists|id: Seq<char>| dir_name_of(id) == name {
        Some(choose|id: Seq<char>| dir_name_of(id) == name)
    } else {
        None
    }
}

/// The name under which the stream `stream_id` is stored: base32 of its UTF-8 bytes,
/// which holds only letters and digits and stands for that stream alone.
pub fn stream_dir_name(stream_id: &str) -> (r: String)
    requires
        stream_id.spec_bytes().len() <= usize::MAX / 512,
    ensures
        r@ == dir_name_of(stream_id@),
        forall|i: int| 0 <= i < r@.len() ==> is_base32_symbol(#[trigger] r@[i]),
        stream_of_dir(r@) == Some(stream_id@),
{
    let r = base32_encode(stream_id.as_bytes());
    proof {
        assert(is_ascii_chars(r@));
        is_ascii_chars_encode_utf8(r@);
        assert(encode_utf8(r@).len() == r@.len());
        assert(dir_name_of(stream_id@) == r@);
        let c = choose|id: Seq<char>| dir_name_of(id) == r@;
        assert(encode_utf8(c) == encode_utf8(stream_id@));
        encode_utf8_decode_utf8(c);
        encode_utf8_decode_utf8(stream_id@);
    }
    r
}

/// The stream that a directory name stands for; a name that is not the base32 of a
/// UTF-8 string stands for none.
pub fn stream_id_from_dir_name(name: &str) -> (r: Option<String>)
    ensures
        r matches Some(id) ==> stream_of_dir(name@) == Some(id@),
        r is None ==> stream_of_dir(name@) is None,
{
    if name.as_bytes().len() > usize::MAX / 8 {
        return None;
    }
    let decoded = base32_decode(name);
    match decoded {
        Some(bytes) => {
            let ghost b = bytes@;
            let r = utf8_string(bytes);
            proof {
                if exists|id: Seq<char>| dir_name_of(id) == name@ {
                    let id = choose|id: Seq<char>| dir_name_of(id) == name@;
                    assert(b == encode_utf8(id));
                    encode_utf8_valid_utf8(id);
                    encode_utf8_decode_utf8(id);
                }
                if r is Some {
                    let s = r->Some_0;
                    decode_utf8_encode_utf8(b);
                    assert(dir_name_of(s@) == name@);
                }
            }
            r
        },
        None => {
            proof {
                if exists|id: Seq<char>| dir_name_of(id) == name@ {
                    let id = choose|id: Seq<char>| dir_name_of(id) == name@;
                    assert(base32_nopad(encode_utf8(id)) == name@);
                }
            }
            None
        },
    }
}

} // verus!
