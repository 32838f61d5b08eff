//! The server's answer to an HTTP upgrade request: the accept key and the
//! `101 Switching Protocols` response that carries it.
use vstd::prelude::*;
use vstd::utf8::encode_utf8;
use vstd::string::StringSliceAdditionalSpecFns;
use rustc_serialize::base64::{ToBase64, STANDARD};

verus! {

/// The fixed GUID that the protocol appends to the client's key.
pub const KEY_GUID: &'static str = "258EAFA5-E914-47DA-95CA-C5AB0DC85B11";

/// The request header that carries the client's key.
pub const KEY_HEADER: &'static str = "Sec-WebSocket-Key";

/// The response up to the accept key.
pub const RESPONSE_HEAD: &'static str = "HTTP/1.1 101 Switching Protocols\r\nConnection: Upgrade\r\nSec-WebSocket-Accept: ";

/// The response after the accept key.
pub const RESPONSE_TAIL: &'static str = "\r\nUpgrade: websocket\r\n\r\n";

/// The SHA-1 digest of a byte sequence.
pub uninterp spec fn sha1_digest(data: Seq<u8>) -> Seq<u8>;

/// The standard, padded base64 text of a byte sequence.
pub uninterp spec fn base64_text(data: Seq<u8>) -> Seq<char>;

/// Relies on `sha1::Sha1` (`update`, then `digest().bytes()`): the 20-byte
/// SHA-1 digest of `data`.
#[verifier::external_body]
fn sha1(data: &[u8]) -> (r: Vec<u8>)
    ensures
        r@ == sha1_digest(data@),
        r@.len() == 20,
{
    let mut m = sha1::Sha1::new();
    m.update(data);
    m.digest().bytes().to_vec()
}

/// A character of the standard base64 alphabet.
pub open spec fn is_base64_char(c: char) -> bool {
    ('A' <= c && c <= 'Z') || ('a' <= c && c <= 'z') || ('0' <= c && c <= '9') || c == '+' || c
        == '/'
}

/// How many `=` end the padded base64 text of `n` bytes.
pub open spec fn base64_padding(n: nat) -> nat {
    if n % 3 == 0 {
        0
    } else {
        (3 - n % 3) as nat
    }
}

/// Relies on rustc_serialize's `ToBase64::to_base64` with the `STANDARD`
/// configuration (standard alphabet, padded, no line breaks): four
/// characters for every three bytes begun, of the alphabet, and `=` for
/// the missing bytes of the last group.
#[verifier::external_body]
fn to_base64(data: &[u8]) -> (r: String)
    ensures
        r@ == base64_text(data@),
        r@.len() == 4 * ((data@.len() + 2) / 3),
        forall|i: int|
            0 <= i < r@.len() - base64_padding(data@.len()) ==> is_base64_char(#[trigger] r@[i]),
        forall|i: int|
            r@.len() - base64_padding(data@.len()) <= i < r@.len() ==> #[trigger] r@[i] == '=',
{
    data.to_base64(STANDARD)
}

/// The accept key for the client key `key`: the base64 text of the SHA-1
/// digest of the key's bytes followed by the GUID's.
pub open spec fn accept_key_spec(key: Seq<char>) -> Seq<char> {
    base64_text(sha1_digest(encode_utf8(key) + KEY_GUID.spec_bytes()))
}

/// Appends `s` to `out`.
pub(crate) fn push_all(out: &mut Vec<u8>, s: &[u8])
    ensures
        final(out)@ == old(out)@ + s@,
{
    let ghost prefix = old(out)@;
    let mut i: usize = 0;
    while i < s.len()
        invariant
            i <= s@.len(),
            out@ == prefix + s@.subrange(0, i as int),
        decreases s@.len() - i,
    {
        out.push(s[i]);
        i = i + 1;
        assert(out@ =~= prefix + s@.subrange(0, i as int));
    }
    assert(s@.subrange(0, s@.len() as int) =~= s@);
}

/// The accept key that answers the client key `key`.
pub fn gen_key(key: &str) -> (r: String)
    ensures
        r@ == accept_key_spec(key@),
        r@.len() == 28,
        forall|i: int| 0 <= i < 27 ==> is_base64_char(#[trigger] r@[i]),
        r@[27] == '=',
{
    let mut data: Vec<u8> = Vec::new();
    push_all(&mut data, key.as_bytes());
    push_all(&mut data, KEY_GUID.as_bytes());
    let digest = sha1(data.as_slice());
    to_base64(digest.as_slice())
}

/// The bytes of the upgrade response whose status block starts with `head`
/// and which carries the accept key `accept`.
pub open spec fn upgrade_response_spec(head: &str, accept: Seq<char>) -> Seq<u8> {
    head.spec_bytes() + encode_utf8(accept) + RESPONSE_TAIL.spec_bytes()
}

/// The upgrade response, starting with `head`, carrying the accept key
/// `accept`.
pub fn upgrade_response(head: &str, accept: &str) -> (r: Vec<u8>)
    ensures
        r@ == upgrade_response_spec(head, accept@),
{
    let mut out: Vec<u8> = Vec::new();
    push_all(&mut out, head.as_bytes());
    push_all(&mut out, accept.as_bytes());
    push_all(&mut out, RESPONSE_TAIL.as_bytes());
    out
}

/// The bytes of the upgrade response whose status block starts with `head`
/// and which accepts the client key `key`.
pub open spec fn response_spec(head: &str, key: Seq<char>) -> Seq<u8> {
    upgrade_response_spec(head, accept_key_spec(key))
}

/// The upgrade response, starting with `head`, that accepts the client key
/// `key`.
pub fn handshake_response(head: &str, key: &str) -> (r: Vec<u8>)
    ensures
        r@ == response_spec(head, key@),
{
    let accept = gen_key(key);
    upgrade_response(head, accept.as_str())
}

} // verus!
