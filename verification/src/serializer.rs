//! The boundary between values and the bytes that stand for them in a log.
//!
//! A [`Codec`] turns the values of one type into bytes and back. What the
//! engine asks of it is that the encoding is deterministic and
//! self-delimiting: a value's bytes depend on the value alone, and no two
//! values have encodings of which one starts the other. [`Bincode`] is the
//! codec that `bincode` provides for a few plain types.

use crate::errors::DbError;
use crate::errors::DbResult;
use crate::wire::lemma_u32_round_trip;
use crate::wire::lemma_u64_round_trip;
use crate::wire::lemma_u128_same_bytes;
use crate::wire::u128_le;
use crate::wire::u32_le;
use crate::wire::u64_le;
use crate::wire::u64_value;
use vstd::prelude::*;
use vstd::utf8::decode_utf8;
use vstd::utf8::decode_utf8_encode_utf8;
use vstd::utf8::encode_utf8;
use vstd::utf8::encode_utf8_decode_utf8;
use vstd::utf8::encode_utf8_valid_utf8;
use vstd::utf8::valid_utf8;

verus! {

/// Encodes and decodes the values of `T`. Contracts speak of a value by its
/// view.
pub trait Codec<T: View> {
    /// Whether the codec can encode the value.
    spec fn encodable(v: T::V) -> bool;

    /// The bytes that stand for the value.
    spec fn encoding(v: T::V) -> Seq<u8>;

    /// The encoding is self-delimiting: where the encodings of two values
    /// both start the same bytes, the values are the same.
    proof fn lemma_self_delimiting(a: T::V, b: T::V, s: Seq<u8>)
        requires
            Self::encodable(a),
            Self::encodable(b),
            Self::encoding(a).is_prefix_of(s),
            Self::encoding(b).is_prefix_of(s),
        ensures
            a == b,
    ;

    /// Encodes a value. Fails if and only if the value cannot be encoded.
    fn serialize(t: &T) -> (r: DbResult<Vec<u8>>)
        ensures
            r is Ok <==> Self::encodable(t@),
            r matches Ok(b) ==> b@ == Self::encoding(t@),
    ;

    /// Decodes the value whose encoding starts `b`, and says how many bytes
    /// that encoding takes. Fails if and only if no value's encoding starts
    /// `b`.
    fn deserialize(b: &[u8]) -> (r: DbResult<(T, usize)>)
        ensures
            match r {
                Ok((t, n)) => {
                    &&& Self::encodable(t@)
                    &&& n <= b@.len()
                    &&& Self::encoding(t@) == b@.subrange(0, n as int)
                },
                Err(_) => forall|v: T::V|
                    Self::encodable(v) ==> !(#[trigger] Self::encoding(v)).is_prefix_of(b@),
            },
    ;
}

/// The bytes of a byte string or of a string's UTF-8 form: the length in
/// eight bytes, least significant first, then the bytes themselves.
pub open spec fn length_prefixed(body: Seq<u8>) -> Seq<u8> {
    u64_le(body.len()) + body
}

/// Whether a buffer starts with a length and as many bytes as it says.
pub open spec fn holds_length_prefixed(b: Seq<u8>) -> bool {
    b.len() >= 8 && u64_value(b.subrange(0, 8)) <= b.len() - 8
}

/// The bytes that follow the length at the start of a buffer, as many as
/// the length says.
pub open spec fn length_prefixed_body(b: Seq<u8>) -> Seq<u8>
    recommends
        holds_length_prefixed(b),
{
    b.subrange(8, 8 + u64_value(b.subrange(0, 8)) as int)
}

/// A buffer that starts with a length-prefixed body holds one.
pub proof fn lemma_length_prefixed(body: Seq<u8>, b: Seq<u8>)
    requires
        body.len() <= u64::MAX,
        length_prefixed(body).is_prefix_of(b),
    ensures
        holds_length_prefixed(b),
        length_prefixed_body(b) == body,
{
    lemma_u64_round_trip(body.len(), Seq::empty());
    let e = length_prefixed(body);
    assert(e.len() == 8 + body.len());
    assert(b.subrange(0, 8) =~= e.subrange(0, 8));
    assert(e.subrange(0, 8) =~= u64_le(body.len()));
    assert(u64_value(b.subrange(0, 8)) == body.len());
    assert(b.subrange(8, 8 + body.len() as int) =~= e.subrange(8, 8 + body.len() as int));
    assert(e.subrange(8, 8 + body.len() as int) =~= body);
}

/// A buffer that holds a length-prefixed body starts with its encoding.
pub proof fn lemma_holds_length_prefixed(b: Seq<u8>)
    requires
        holds_length_prefixed(b),
    ensures
        length_prefixed(length_prefixed_body(b)) == b.subrange(
            0,
            8 + length_prefixed_body(b).len() as int,
        ),
        length_prefixed_body(b).len() == u64_value(b.subrange(0, 8)),
{
    lemma_u64_round_trip(0, b.subrange(0, 8));
    assert(length_prefixed(length_prefixed_body(b)) =~= b.subrange(
        0,
        8 + length_prefixed_body(b).len() as int,
    ));
}

/// Calls `bincode::serialize` on a `u8`. With the options that this function
/// fixes the byte is written as it is, and nothing can fail: there is no
/// size limit and the bytes go to a vector.
#[verifier::external_body]
fn bincode_serialize_u8(v: &u8) -> (r: Result<Vec<u8>, bincode::Error>)
    ensures
        match r {
            Ok(b) => b@ == seq![*v],
            Err(_) => false,
        },
{
    bincode::serialize(v)
}

/// Calls `bincode::deserialize` for a `u8`. It reads the first byte and
/// leaves the rest; it fails where there is no byte.
#[verifier::external_body]
fn bincode_deserialize_u8(b: &[u8]) -> (r: Result<u8, bincode::Error>)
    ensures
        match r {
            Ok(v) => b@.len() >= 1 && v == b@[0],
            Err(_) => b@.len() < 1,
        },
{
    bincode::deserialize(b)
}

/// Calls `bincode::serialize` on a `u32`. With the options that this
/// function fixes the number is written in four bytes, least significant
/// first, and nothing can fail.
#[verifier::external_body]
fn bincode_serialize_u32(v: &u32) -> (r: Result<Vec<u8>, bincode::Error>)
    ensures
        match r {
            Ok(b) => b@ == u32_le(*v as nat),
            Err(_) => false,
        },
{
    bincode::serialize(v)
}

/// Calls `bincode::deserialize` for a `u32`. It reads the first four bytes,
/// least significant first, and leaves the rest; it fails where there are
/// fewer.
#[verifier::external_body]
fn bincode_deserialize_u32(b: &[u8]) -> (r: Result<u32, bincode::Error>)
    ensures
        match r {
            Ok(v) => b@.len() >= 4 && u32_le(v as nat) == b@.subrange(0, 4),
            Err(_) => b@.len() < 4,
        },
{
    bincode::deserialize(b)
}

/// Calls `bincode::serialize` on a `u64`. With the options that this
/// function fixes the number is written in eight bytes, least significant
/// first, and nothing can fail.
#[verifier::external_body]
fn bincode_serialize_u64(v: &u64) -> (r: Result<Vec<u8>, bincode::Error>)
    ensures
        match r {
            Ok(b) => b@ == u64_le(*v as nat),
            Err(_) => false,
        },
{
    bincode::serialize(v)
}

/// Calls `bincode::deserialize` for a `u64`. It reads the first eight
/// bytes, least significant first, and leaves the rest; it fails where
/// there are fewer.
#[verifier::external_body]
fn bincode_deserialize_u64(b: &[u8]) -> (r: Result<u64, bincode::Error>)
    ensures
        match r {
            Ok(v) => b@.len() >= 8 && u64_le(v as nat) == b@.subrange(0, 8),
            Err(_) => b@.len() < 8,
        },
{
    bincode::deserialize(b)
}

/// Calls `bincode::serialize` on a vector of bytes. It writes the number of
/// bytes as a `u64` and then the bytes, and nothing can fail.
#[verifier::external_body]
fn bincode_serialize_bytes(v: &Vec<u8>) -> (r: Result<Vec<u8>, bincode::Error>)
    ensures
        match r {
            Ok(b) => b@ == length_prefixed(v@),
            Err(_) => false,
        },
{
    bincode::serialize(v)
}

/// Calls `bincode::deserialize` for a vector of bytes. It reads a length as
/// a `u64` and then as many bytes, and leaves the rest; it fails where the
/// buffer holds fewer bytes than that.
#[verifier::external_body]
fn bincode_deserialize_bytes(b: &[u8]) -> (r: Result<Vec<u8>, bincode::Error>)
    ensures
        match r {
            Ok(v) => holds_length_prefixed(b@) && v@ == length_prefixed_body(b@),
            Err(_) => !holds_length_prefixed(b@),
        },
{
    bincode::deserialize(b)
}

/// Calls `bincode::serialize` on a string. It writes the number of bytes of
/// the string's UTF-8 form as a `u64` and then those bytes, and nothing can
/// fail.
#[verifier::external_body]
fn bincode_serialize_string(v: &String) -> (r: Result<Vec<u8>, bincode::Error>)
    ensures
        match r {
            Ok(b) => b@ == length_prefixed(encode_utf8(v@)),
            Err(_) => false,
        },
{
    bincode::serialize(v)
}

/// Calls `bincode::deserialize` for a string. It reads a length as a `u64`
/// and then as many bytes, which it decodes as UTF-8, and leaves the rest;
/// it fails where the buffer holds fewer bytes than that or where they are
/// not valid UTF-8.
#[verifier::external_body]
fn bincode_deserialize_string(b: &[u8]) -> (r: Result<String, bincode::Error>)
    ensures
        match r {
            Ok(v) => holds_length_prefixed(b@) && valid_utf8(length_prefixed_body(b@)) && v@
                == decode_utf8(length_prefixed_body(b@)),
            Err(_) => !(holds_length_prefixed(b@) && valid_utf8(length_prefixed_body(b@))),
        },
{
    bincode::deserialize(b)
}

/// The codec that `bincode` provides: fixed-width little-endian integers,
/// and a length in front of what varies in length.
#[derive(Debug, Copy, Clone)]
pub struct Bincode {}

impl Codec<u8> for Bincode {
    open spec fn encodable(v: u8) -> bool {
        true
    }

    open spec fn encoding(v: u8) -> Seq<u8> {
        seq![v]
    }

    proof fn lemma_self_delimiting(a: u8, b: u8, s: Seq<u8>) {
        assert(seq![a][0] == s[0]);
        assert(seq![b][0] == s[0]);
    }

    fn serialize(t: &u8) -> (r: DbResult<Vec<u8>>) {
        match bincode_serialize_u8(t) {
            Ok(b) => Ok(b),
            Err(e) => Err(DbError::Bincode(e)),
        }
    }

    fn deserialize(b: &[u8]) -> (r: DbResult<(u8, usize)>) {
        match bincode_deserialize_u8(b) {
            Ok(v) => {
                assert(seq![v] =~= b@.subrange(0, 1));
                Ok((v, 1))
            },
            Err(e) => Err(DbError::Bincode(e)),
        }
    }
}

impl Codec<u32> for Bincode {
    open spec fn encodable(v: u32) -> bool {
        true
    }

    open spec fn encoding(v: u32) -> Seq<u8> {
        u32_le(v as nat)
    }

    proof fn lemma_self_delimiting(a: u32, b: u32, s: Seq<u8>) {
        lemma_u32_round_trip(a as nat, Seq::empty());
        lemma_u32_round_trip(b as nat, Seq::empty());
        assert(u32_le(a as nat) =~= u32_le(b as nat));
    }

    fn serialize(t: &u32) -> (r: DbResult<Vec<u8>>) {
        match bincode_serialize_u32(t) {
            Ok(b) => Ok(b),
            Err(e) => Err(DbError::Bincode(e)),
        }
    }

    fn deserialize(b: &[u8]) -> (r: DbResult<(u32, usize)>) {
        match bincode_deserialize_u32(b) {
            Ok(v) => Ok((v, 4)),
            Err(e) => Err(DbError::Bincode(e)),
        }
    }
}

impl Codec<u64> for Bincode {
    open spec fn encodable(v: u64) -> bool {
        true
    }

    open spec fn encoding(v: u64) -> Seq<u8> {
        u64_le(v as nat)
    }

    proof fn lemma_self_delimiting(a: u64, b: u64, s: Seq<u8>) {
        lemma_u64_round_trip(a as nat, Seq::empty());
        lemma_u64_round_trip(b as nat, Seq::empty());
        assert(u64_le(a as nat) =~= u64_le(b as nat));
    }

    fn serialize(t: &u64) -> (r: DbResult<Vec<u8>>) {
        match bincode_serialize_u64(t) {
            Ok(b) => Ok(b),
            Err(e) => Err(DbError::Bincode(e)),
        }
    }

    fn deserialize(b: &[u8]) -> (r: DbResult<(u64, usize)>) {
        match bincode_deserialize_u64(b) {
            Ok(v) => Ok((v, 8)),
            Err(e) => Err(DbError::Bincode(e)),
        }
    }
}

impl Codec<Vec<u8>> for Bincode {
    open spec fn encodable(v: Seq<u8>) -> bool {
        v.len() <= u64::MAX
    }

    open spec fn encoding(v: Seq<u8>) -> Seq<u8> {
        length_prefixed(v)
    }

    proof fn lemma_self_delimiting(a: Seq<u8>, b: Seq<u8>, s: Seq<u8>) {
        lemma_length_prefixed(a, s);
        lemma_length_prefixed(b, s);
    }

    fn serialize(t: &Vec<u8>) -> (r: DbResult<Vec<u8>>) {
        match bincode_serialize_bytes(t) {
            Ok(b) => {
                let total = b.len();
                proof {
                    lemma_u64_round_trip(0, Seq::empty());
                }
                Ok(b)
            },
            Err(e) => Err(DbError::Bincode(e)),
        }
    }

    fn deserialize(b: &[u8]) -> (r: DbResult<(Vec<u8>, usize)>) {
        match bincode_deserialize_bytes(b) {
            Ok(v) => {
                let total = b.len();
                proof {
                    lemma_holds_length_prefixed(b@);
                    lemma_u64_round_trip(0, b@.subrange(0, 8));
                }
                let n = 8 + v.len();
                Ok((v, n))
            },
            Err(e) => {
                assert forall|v: Seq<u8>| <Bincode as Codec<Vec<u8>>>::encodable(v) implies !(#[trigger] <Bincode as Codec<Vec<u8>>>::encoding(v)).is_prefix_of(b@) by {
                    if <Bincode as Codec<Vec<u8>>>::encoding(v).is_prefix_of(b@) {
                        lemma_length_prefixed(v, b@);
                    }
                }
                Err(DbError::Bincode(e))
            },
        }
    }
}

impl Codec<String> for Bincode {
    open spec fn encodable(v: Seq<char>) -> bool {
        encode_utf8(v).len() <= u64::MAX
    }

    open spec fn encoding(v: Seq<char>) -> Seq<u8> {
        length_prefixed(encode_utf8(v))
    }

    proof fn lemma_self_delimiting(a: Seq<char>, b: Seq<char>, s: Seq<u8>) {
        lemma_length_prefixed(encode_utf8(a), s);
        lemma_length_prefixed(encode_utf8(b), s);
        encode_utf8_decode_utf8(a);
        encode_utf8_decode_utf8(b);
    }

    fn serialize(t: &String) -> (r: DbResult<Vec<u8>>) {
        match bincode_serialize_string(t) {
            Ok(b) => {
                let total = b.len();
                proof {
                    lemma_u64_round_trip(0, Seq::empty());
                }
                Ok(b)
            },
            Err(e) => Err(DbError::Bincode(e)),
        }
    }

    fn deserialize(b: &[u8]) -> (r: DbResult<(String, usize)>) {
        match bincode_deserialize_string(b) {
            Ok(v) => {
                let total = b.len();
                proof {
                    lemma_holds_length_prefixed(b@);
                    lemma_u64_round_trip(0, b@.subrange(0, 8));
                    decode_utf8_encode_utf8(length_prefixed_body(b@));
                }
                let n = 8 + v.as_str().len();
                Ok((v, n))
            },
            Err(e) => {
                assert forall|v: Seq<char>| <Bincode as Codec<String>>::encodable(v) implies !(#[trigger] <Bincode as Codec<String>>::encoding(v)).is_prefix_of(b@) by {
                    if <Bincode as Codec<String>>::encoding(v).is_prefix_of(b@) {
                        lemma_length_prefixed(encode_utf8(v), b@);
                        encode_utf8_valid_utf8(v);
                    }
                }
                Err(DbError::Bincode(e))
            },
        }
    }
}


/// The bytes of a run of 128-bit numbers: sixteen bytes for each number,
/// least significant first, one number after the other.
pub open spec fn numbers_body(v: Seq<u128>) -> Seq<u8> {
    Seq::new(16 * v.len(), |j: int| u128_le(v[j / 16] as nat)[j % 16])
}

/// Whether a buffer starts with a count and sixteen bytes for each number
/// that is counted.
pub open spec fn holds_numbers(b: Seq<u8>) -> bool {
    b.len() >= 8 && 16 * u64_value(b.subrange(0, 8)) <= b.len() - 8
}

/// Runs of numbers with the same bytes are the same.
pub proof fn lemma_numbers_same_body(a: Seq<u128>, b: Seq<u128>)
    requires
        a.len() == b.len(),
        numbers_body(a) == numbers_body(b),
    ensures
        a == b,
{
    assert forall|i: int| 0 <= i < a.len() implies a[i] == b[i] by {
        assert forall|k: int| 0 <= k < 16 implies u128_le(a[i] as nat)[k] == u128_le(
            b[i] as nat,
        )[k] by {
            let j = 16 * i + k;
            assert(j / 16 == i && j % 16 == k);
            assert(numbers_body(a)[j] == u128_le(a[i] as nat)[k]);
            assert(numbers_body(b)[j] == u128_le(b[i] as nat)[k]);
        }
        lemma_u64_round_trip(0, Seq::empty());
        assert(u128_le(a[i] as nat) =~= u128_le(b[i] as nat));
        lemma_u128_same_bytes(a[i] as nat, b[i] as nat);
    }
    assert(a =~= b);
}

/// Calls `bincode::serialize` on a vector of 128-bit numbers. It writes the
/// count of the numbers as a `u64` and then each number in sixteen bytes,
/// least significant first, and nothing can fail.
#[verifier::external_body]
fn bincode_serialize_numbers(v: &Vec<u128>) -> (r: Result<Vec<u8>, bincode::Error>)
    ensures
        match r {
            Ok(b) => b@ == u64_le(v@.len()) + numbers_body(v@),
            Err(_) => false,
        },
{
    bincode::serialize(v)
}

/// Calls `bincode::deserialize` for a vector of 128-bit numbers. It reads a
/// count as a `u64` and then sixteen bytes for each number, and leaves the
/// rest; it fails where the buffer holds fewer bytes than that.
#[verifier::external_body]
fn bincode_deserialize_numbers(b: &[u8]) -> (r: Result<Vec<u128>, bincode::Error>)
    ensures
        match r {
            Ok(v) => holds_numbers(b@) && v@.len() == u64_value(b@.subrange(0, 8))
                && numbers_body(v@) == b@.subrange(8, 8 + 16 * v@.len() as int),
            Err(_) => !holds_numbers(b@),
        },
{
    bincode::deserialize(b)
}

impl Codec<Vec<u128>> for Bincode {
    open spec fn encodable(v: Seq<u128>) -> bool {
        v.len() <= u64::MAX
    }

    open spec fn encoding(v: Seq<u128>) -> Seq<u8> {
        u64_le(v.len()) + numbers_body(v)
    }

    proof fn lemma_self_delimiting(a: Seq<u128>, b: Seq<u128>, s: Seq<u8>) {
        lemma_u64_round_trip(a.len(), Seq::empty());
        lemma_u64_round_trip(b.len(), Seq::empty());
        let ea = <Bincode as Codec<Vec<u128>>>::encoding(a);
        let eb = <Bincode as Codec<Vec<u128>>>::encoding(b);
        assert(s.subrange(0, 8) =~= ea.subrange(0, 8));
        assert(s.subrange(0, 8) =~= eb.subrange(0, 8));
        assert(ea.subrange(0, 8) =~= u64_le(a.len()));
        assert(eb.subrange(0, 8) =~= u64_le(b.len()));
        assert(a.len() == b.len());
        assert(numbers_body(a) =~= ea.skip(8));
        assert(numbers_body(b) =~= eb.skip(8));
        assert(ea =~= eb);
        lemma_numbers_same_body(a, b);
    }

    fn serialize(t: &Vec<u128>) -> (r: DbResult<Vec<u8>>) {
        match bincode_serialize_numbers(t) {
            Ok(b) => {
                let total = b.len();
                proof {
                    lemma_u64_round_trip(0, Seq::empty());
                }
                Ok(b)
            },
            Err(e) => Err(DbError::Bincode(e)),
        }
    }

    fn deserialize(b: &[u8]) -> (r: DbResult<(Vec<u128>, usize)>) {
        match bincode_deserialize_numbers(b) {
            Ok(v) => {
                let total = b.len();
                proof {
                    lemma_u64_round_trip(0, b@.subrange(0, 8));
                    assert(<Bincode as Codec<Vec<u128>>>::encoding(v@) =~= b@.subrange(
                        0,
                        8 + 16 * v@.len() as int,
                    ));
                }
                let n = 8 + 16 * v.len();
                Ok((v, n))
            },
            Err(e) => {
                assert forall|v: Seq<u128>| <Bincode as Codec<Vec<u128>>>::encodable(
                    v,
                ) implies !(#[trigger] <Bincode as Codec<Vec<u128>>>::encoding(v)).is_prefix_of(
                    b@,
                ) by {
                    let ev = <Bincode as Codec<Vec<u128>>>::encoding(v);
                    if ev.is_prefix_of(b@) {
                        lemma_u64_round_trip(v.len(), Seq::empty());
                        assert(b@.subrange(0, 8) =~= ev.subrange(0, 8));
                        assert(ev.subrange(0, 8) =~= u64_le(v.len()));
                    }
                }
                Err(DbError::Bincode(e))
            },
        }
    }
}

} // verus!
