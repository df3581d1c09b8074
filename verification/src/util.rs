//! Primitive codecs shared by every packet type: the base-128 varint that
//! carries a packet's remaining length, and the length-prefixed UTF-8 string.

use vstd::prelude::*;
use vstd::slice::slice_subrange;
use vstd::utf8::{decode_utf8, encode_utf8, valid_utf8};

use crate::error::MqttError;

verus! {

// ---------------------------------------------------------------------------
// Remaining length (MQTT 2.2.3): a base-128 varint, least-significant group
// first, high bit of each byte as continuation flag.
// ---------------------------------------------------------------------------

/// The varint encoding of `n`: groups of 7 bits, least significant first,
/// every byte but the last carrying the continuation bit 0x80.
pub open spec fn rl_encoding(n: u32) -> Seq<u8>
    decreases n,
{
    if n < 128 {
        seq![n as u8]
    } else {
        seq![(n % 128 + 128) as u8] + rl_encoding(n / 128)
    }
}

/// 128 raised to `k`.
pub open spec fn pow128(k: int) -> int
    decreases k,
{
    if k <= 0 {
        1
    } else {
        128 * pow128(k - 1)
    }
}

/// The value carried by the low 7 bits of the first `count` bytes of `s`,
/// each group weighted by its position.
pub open spec fn rl_value(s: Seq<u8>, count: int) -> int
    decreases count,
{
    if count <= 0 {
        0
    } else {
        rl_value(s, count - 1) + (s[count - 1] % 128) * pow128(count - 1)
    }
}

/// What decoding a remaining-length field from the front of `s` yields,
/// scanning from byte `i` on: the value and the number of bytes consumed,
/// or the error. A varint that does not terminate within 4 bytes is
/// malformed; one cut short by the end of the buffer is truncated.
pub open spec fn rl_parse_from(s: Seq<u8>, i: int) -> Result<(u32, int), MqttError>
    decreases 4 - i,
{
    if i < 0 || i >= 4 {
        Err(MqttError::MalformedLength)
    } else if i >= s.len() {
        Err(MqttError::TruncatedInput)
    } else if s[i] < 128 {
        Ok((rl_value(s, i + 1) as u32, i + 1))
    } else {
        rl_parse_from(s, i + 1)
    }
}

/// What decoding a remaining-length field from the front of `s` yields.
pub open spec fn rl_parse(s: Seq<u8>) -> Result<(u32, int), MqttError> {
    rl_parse_from(s, 0)
}

/// Encode the remaining length field according to MQTT spec 2.2.3.
pub fn encode_remaining_length(len: u32) -> (r: Vec<u8>)
    ensures
        r@ == rl_encoding(len),
{
    let mut data = Vec::<u8>::new();
    let mut temp = len;

    while temp >= 128
        invariant
            rl_encoding(len) =~= data@ + rl_encoding(temp),
        decreases temp,
    {
        data.push((temp % 128 + 128) as u8);
        temp = temp / 128;
    }
    data.push(temp as u8);

    proof {
        assert(rl_encoding(temp) =~= seq![temp as u8]);
        assert(data@ =~= rl_encoding(len));
    }
    data
}

/// Decode the remaining length field according to MQTT spec 2.2.3.
///
/// Returns the decoded value together with the number of bytes the varint
/// occupied.
pub fn decode_remaining_length(encoded: &[u8]) -> (r: Result<(u32, usize), MqttError>)
    ensures
        match r {
            Ok((value, consumed)) => rl_parse(encoded@) == Ok::<(u32, int), MqttError>(
                (value, consumed as int),
            ) && 1 <= consumed <= 4 && consumed <= encoded@.len(),
            Err(e) => rl_parse(encoded@) == Err::<(u32, int), MqttError>(e),
        },
{
    let ghost s = encoded@;
    let mut value: u32 = 0;
    let mut multiplier: u32 = 1;
    let mut i: usize = 0;

    while i < 4
        invariant
            0 <= i <= 4,
            multiplier == pow128(i as int),
            i == 0 ==> multiplier == 1,
            i == 1 ==> multiplier == 128,
            i == 2 ==> multiplier == 16384,
            i == 3 ==> multiplier == 2097152,
            i == 4 ==> multiplier == 268435456,
            value == rl_value(s, i as int),
            value < multiplier,
            rl_parse(s) == rl_parse_from(s, i as int),
            s == encoded@,
        decreases 4 - i,
    {
        if i >= encoded.len() {
            return Err(MqttError::TruncatedInput);
        }
        let b = encoded[i];
        proof {
            assert(value + (b % 128) * multiplier < 128 * multiplier && (b % 128) * multiplier
                >= 0) by (nonlinear_arith)
                requires
                    value < multiplier,
                    0 < multiplier,
            ;
            assert(128 * multiplier <= 268435456);
        }
        if b < 128 {
            let result = value + (b as u32) * multiplier;
            return Ok((result, i + 1));
        }
        value = value + ((b - 128) as u32) * multiplier;
        multiplier = multiplier * 128;
        i = i + 1;
    }
    Err(MqttError::MalformedLength)
}

/// How many bytes the varint encoding of `n` takes, by value range.
pub proof fn lemma_rl_encoding_len(n: u32)
    ensures
        1 <= rl_encoding(n).len() <= 5,
        n < 128 <==> rl_encoding(n).len() == 1,
        128 <= n < 16384 <==> rl_encoding(n).len() == 2,
        16384 <= n < 2097152 <==> rl_encoding(n).len() == 3,
        2097152 <= n < 268435456 <==> rl_encoding(n).len() == 4,
    decreases n,
{
    if n >= 128 {
        lemma_rl_encoding_len(n / 128);
    }
}

/// Every byte of a varint encoding but the last carries the continuation
/// bit; the last does not.
proof fn lemma_rl_encoding_shape(n: u32)
    ensures
        forall|k: int| 0 <= k < rl_encoding(n).len() - 1 ==> rl_encoding(n)[k] >= 128,
        rl_encoding(n)[rl_encoding(n).len() - 1] < 128,
    decreases n,
{
    if n >= 128 {
        lemma_rl_encoding_shape(n / 128);
        assert forall|k: int| 0 <= k < rl_encoding(n).len() - 1 implies rl_encoding(n)[k]
            >= 128 by {
            if k > 0 {
                assert(rl_encoding(n)[k] == rl_encoding(n / 128)[k - 1]);
            }
        }
    }
}

/// The low 7 bits of the varint bytes of `n`, weighted by position, give
/// back `n`, also when an arbitrary suffix follows the encoding.
proof fn lemma_rl_encoding_value(n: u32, rest: Seq<u8>)
    ensures
        rl_value(rl_encoding(n) + rest, rl_encoding(n).len() as int) == n,
    decreases n,
{
    let s = rl_encoding(n) + rest;
    let c = rl_encoding(n).len() as int;
    if n < 128 {
        assert(rl_value(s, 1) == (s[0] % 128) * pow128(0) + rl_value(s, 0));
        assert(s[0] == n as u8);
    } else {
        let tail = rl_encoding(n / 128) + rest;
        lemma_rl_encoding_value(n / 128, rest);
        lemma_rl_value_shift(tail, (n % 128 + 128) as u8, c - 1);
        assert(s =~= seq![(n % 128 + 128) as u8] + tail);
        assert(rl_value(s, c) == (n % 128) + 128 * rl_value(tail, c - 1));
        vstd::arithmetic::div_mod::lemma_fundamental_div_mod(n as int, 128);
    }
}

/// Prepending one byte to a weighted sum multiplies the tail's weights by
/// 128 and adds the new byte's low bits.
proof fn lemma_rl_value_shift(tail: Seq<u8>, b: u8, count: int)
    requires
        0 <= count <= tail.len(),
    ensures
        rl_value(seq![b] + tail, count + 1) == (b % 128) + 128 * rl_value(tail, count),
    decreases count,
{
    let s = seq![b] + tail;
    if count == 0 {
        assert(rl_value(s, 1) == rl_value(s, 0) + (s[0] % 128) * pow128(0));
    } else {
        lemma_rl_value_shift(tail, b, count - 1);
        assert(s[count] == tail[count - 1]);
        assert(rl_value(s, count + 1) == rl_value(s, count) + (s[count] % 128) * pow128(count));
        assert(rl_value(tail, count) == rl_value(tail, count - 1) + (tail[count - 1] % 128)
            * pow128(count - 1));
        assert((tail[count - 1] % 128) * pow128(count) == 128 * ((tail[count - 1] % 128) * pow128(
            count - 1,
        ))) by (nonlinear_arith)
            requires
                pow128(count) == 128 * pow128(count - 1),
        ;
    }
}

/// Decoding a remaining-length field finds exactly the varint that encoding
/// produced: the value `n` back, consuming just the encoding's bytes,
/// whatever follows them.
pub proof fn lemma_rl_round_trip(n: u32, rest: Seq<u8>)
    requires
        n < 268435456,
    ensures
        rl_parse(rl_encoding(n) + rest) == Ok::<(u32, int), MqttError>(
            (n, rl_encoding(n).len() as int),
        ),
{
    let s = rl_encoding(n) + rest;
    let c = rl_encoding(n).len() as int;
    lemma_rl_encoding_len(n);
    lemma_rl_encoding_shape(n);
    lemma_rl_encoding_value(n, rest);
    assert(forall|k: int| 0 <= k < c ==> s[k] == rl_encoding(n)[k]);
    assert(s[c - 1] < 128);
    assert(forall|k: int| 0 <= k < c - 1 ==> s[k] >= 128);
    assert(rl_parse_from(s, c - 1) == Ok::<(u32, int), MqttError>((n, c)));
    if c >= 2 {
        assert(rl_parse_from(s, c - 2) == rl_parse_from(s, c - 1));
    }
    if c >= 3 {
        assert(rl_parse_from(s, c - 3) == rl_parse_from(s, c - 2));
    }
    if c >= 4 {
        assert(rl_parse_from(s, c - 4) == rl_parse_from(s, c - 3));
    }
}

// ---------------------------------------------------------------------------
// Length-prefixed UTF-8 strings (MQTT 1.5.3): a two-byte big-endian byte
// count followed by the UTF-8 bytes.
// ---------------------------------------------------------------------------

/// What `String::from_utf8_lossy` yields on bytes that are not valid UTF-8:
/// the repaired character sequence, a fixed function of the bytes alone.
pub uninterp spec fn replaced_utf8(bytes: Seq<u8>) -> Seq<char>;

/// The characters read from `bytes`: its exact UTF-8 decoding when the bytes
/// are valid UTF-8, and the repaired sequence otherwise.
pub open spec fn lossy_utf8(bytes: Seq<u8>) -> Seq<char> {
    if valid_utf8(bytes) {
        decode_utf8(bytes)
    } else {
        replaced_utf8(bytes)
    }
}

/// Relies on `String::from_utf8_lossy`: bytes that are valid UTF-8 decode to
/// exactly their characters, and any others are repaired with replacement
/// characters, a fixed function of the input bytes alone.
#[verifier::external_body]
fn lossy_string(bytes: &[u8]) -> (r: String)
    ensures
        r@ == lossy_utf8(bytes@),
        !valid_utf8(bytes@) ==> r@ == replaced_utf8(bytes@),
{
    String::from_utf8_lossy(bytes).into_owned()
}

/// The wire form of the string with characters `s`: a two-byte big-endian
/// count of its UTF-8 bytes, then those bytes.
pub open spec fn spec_encode_string(s: Seq<char>) -> Seq<u8>
    recommends
        encode_utf8(s).len() <= 65535,
{
    let bytes = encode_utf8(s);
    seq![(bytes.len() / 256) as u8, (bytes.len() % 256) as u8] + bytes
}

/// What decoding a length-prefixed string from the front of `s` yields: the
/// number of bytes consumed and the characters read, or the error.
pub open spec fn spec_decode_string(s: Seq<u8>) -> Result<(int, Seq<char>), MqttError> {
    if s.len() < 2 {
        Err(MqttError::TruncatedInput)
    } else {
        let l = s[0] * 256 + s[1];
        if s.len() < l + 2 {
            Err(MqttError::TruncatedInput)
        } else {
            Ok((l + 2, lossy_utf8(s.subrange(2, l + 2))))
        }
    }
}

/// Encode a string as its two-byte big-endian UTF-8 byte count followed by
/// its UTF-8 bytes; strings over 65535 bytes do not fit the prefix.
pub fn encode_string(s: &str) -> (r: Result<Vec<u8>, MqttError>)
    ensures
        match r {
            Ok(data) => encode_utf8(s@).len() <= 65535 && data@ == spec_encode_string(s@),
            Err(e) => e == MqttError::StringTooLong && encode_utf8(s@).len() > 65535,
        },
{
    let bytes = s.as_bytes();
    let n = bytes.len();
    if n > 65535 {
        return Err(MqttError::StringTooLong);
    }
    let mut data = Vec::<u8>::new();
    data.push((n / 256) as u8);
    data.push((n % 256) as u8);
    data.extend_from_slice(bytes);
    proof {
        assert(data@ =~= spec_encode_string(s@));
    }
    Ok(data)
}

/// Decode a length-prefixed string from the front of `encoded`.
///
/// Returns the number of bytes consumed (the declared length plus the two
/// prefix bytes) together with the text, repaired to valid UTF-8 where the
/// declared bytes are not.
pub fn decode_string(encoded: &[u8]) -> (r: Result<(usize, String), MqttError>)
    ensures
        match r {
            Ok((consumed, text)) => spec_decode_string(encoded@) == Ok::<
                (int, Seq<char>),
                MqttError,
            >((consumed as int, text@)),
            Err(e) => spec_decode_string(encoded@) == Err::<(int, Seq<char>), MqttError>(e),
        },
{
    if encoded.len() < 2 {
        return Err(MqttError::TruncatedInput);
    }
    let length = (encoded[0] as usize) * 256 + (encoded[1] as usize);
    if encoded.len() < length + 2 {
        return Err(MqttError::TruncatedInput);
    }
    let raw = slice_subrange(encoded, 2, length + 2);
    let text = lossy_string(raw);
    Ok((length + 2, text))
}

/// Decoding a string field finds exactly what encoding produced: the
/// characters back, consuming the prefix and the UTF-8 bytes, whatever
/// follows them.
pub proof fn lemma_string_round_trip(s: Seq<char>, rest: Seq<u8>)
    requires
        encode_utf8(s).len() <= 65535,
    ensures
        spec_decode_string(spec_encode_string(s) + rest) == Ok::<(int, Seq<char>), MqttError>(
            (encode_utf8(s).len() + 2int, s),
        ),
{
    broadcast use vstd::utf8::group_utf8_lib;

    let bytes = encode_utf8(s);
    let w = spec_encode_string(s) + rest;
    let l = bytes.len() as int;
    assert(w[0] == (l / 256) as u8 && w[1] == (l % 256) as u8);
    vstd::arithmetic::div_mod::lemma_fundamental_div_mod(l, 256);
    assert(w[0] * 256 + w[1] == l);
    assert(w.subrange(2, l + 2) =~= bytes);
    assert(decode_utf8(bytes) == s);
}

/// Whether two byte slices hold the same bytes.
pub fn bytes_eq(a: &[u8], b: &[u8]) -> (r: bool)
    ensures
        r == (a@ == b@),
{
    if a.len() != b.len() {
        return false;
    }
    let mut i: usize = 0;
    while i < a.len()
        invariant
            0 <= i <= a@.len(),
            a@.len() == b@.len(),
            forall|k: int| 0 <= k < i ==> a@[k] == b@[k],
        decreases a@.len() - i,
    {
        if a[i] != b[i] {
            return false;
        }
        i = i + 1;
    }
    proof {
        assert(a@ =~= b@);
    }
    true
}

} // verus!
