//! The byte codec: serialization of primitive values to a flat little-endian
//! encoding, and deserialization back.
//!
//! The wire format writes multi-byte integers low byte first. A deserializer
//! consumes its input by popping bytes off the *end* of a buffer, so a
//! top-level caller reverses the serialized bytes once and every field is
//! then read in wire order.

use vstd::prelude::*;
use crate::error::Error;
use crate::error::ErrorKind;
use crate::hashing::sig_hash;
use crate::hashing::hash_signature;
use vstd::string::StringExecFns;
use vstd::string::StrSliceExecFns;
use vstd::utf8::char_is_scalar;
use vstd::utf8::char_u32_cast;
use vstd::utf8::decode_utf8;
use vstd::utf8::encode_scalar;
use vstd::utf8::encode_utf8;
use vstd::utf8::encode_utf8_decode_utf8;
use vstd::utf8::encode_utf8_valid_utf8;
use vstd::utf8::has_width_1_encoding;
use vstd::utf8::has_width_2_encoding;
use vstd::utf8::has_width_3_encoding;
use vstd::utf8::valid_utf8;

verus! {

/// 256 to the power of `n`: the number of values of an `n`-byte integer.
pub open spec fn p256(n: nat) -> int
    decreases n,
{
    if n == 0 {
        1
    } else {
        256 * p256((n - 1) as nat)
    }
}

/// The `n`-byte little-endian encoding of `v`, in wire order (low byte
/// first).
pub open spec fn le_bytes(v: int, n: nat) -> Seq<u8>
    decreases n,
{
    if n == 0 {
        Seq::empty()
    } else {
        seq![(v % 256) as u8] + le_bytes(v / 256, (n - 1) as nat)
    }
}

/// The value of the `n` bytes at the end of buffer `b`, reading the last
/// byte as the lowest: what popping `n` bytes off `b` yields.
pub open spec fn tail_value(b: Seq<u8>, n: nat) -> int
    decreases n,
{
    if n == 0 {
        0
    } else {
        (b.last() as int) + 256 * tail_value(b.drop_last(), (n - 1) as nat)
    }
}

pub proof fn lemma_p256_pos(n: nat)
    ensures
        p256(n) >= 1,
    decreases n,
{
    if n > 0 {
        lemma_p256_pos((n - 1) as nat);
    }
}

pub proof fn lemma_p256_mono(a: nat, b: nat)
    requires
        a <= b,
    ensures
        p256(a) <= p256(b),
    decreases b,
{
    lemma_p256_pos(a);
    if a < b {
        lemma_p256_mono(a, (b - 1) as nat);
        lemma_p256_pos((b - 1) as nat);
    }
}

pub proof fn lemma_le_bytes_len(v: int, n: nat)
    ensures
        le_bytes(v, n).len() == n,
    decreases n,
{
    if n > 0 {
        lemma_le_bytes_len(v / 256, (n - 1) as nat);
    }
}

pub proof fn lemma_tail_value_bound(b: Seq<u8>, n: nat)
    requires
        b.len() >= n,
    ensures
        0 <= tail_value(b, n) < p256(n),
    decreases n,
{
    if n > 0 {
        lemma_tail_value_bound(b.drop_last(), (n - 1) as nat);
        let t = tail_value(b.drop_last(), (n - 1) as nat);
        assert(256 * t <= 256 * (p256((n - 1) as nat) - 1) && 256 * t >= 0) by (nonlinear_arith)
            requires
                0 <= t <= p256((n - 1) as nat) - 1,
        ;
    }
}

/// Popping the reversed little-endian encoding of `v` off a buffer that
/// holds it on top of `rest` yields `v` back and leaves `rest`.
pub proof fn lemma_le_round(v: int, n: nat, rest: Seq<u8>)
    requires
        0 <= v < p256(n),
    ensures
        (rest + le_bytes(v, n).reverse()).len() == rest.len() + n,
        tail_value(rest + le_bytes(v, n).reverse(), n) == v,
        (rest + le_bytes(v, n).reverse()).take(rest.len() as int) == rest,
    decreases n,
{
    lemma_le_bytes_len(v, n);
    let b = rest + le_bytes(v, n).reverse();
    if n == 0 {
        assert(b =~= rest);
        assert(b.take(rest.len() as int) =~= rest);
    } else {
        let lo = (v % 256) as u8;
        let hi = v / 256;
        assert(hi < p256((n - 1) as nat) && hi >= 0) by (nonlinear_arith)
            requires
                0 <= v < 256 * p256((n - 1) as nat),
                hi == v / 256,
        ;
        lemma_le_bytes_len(hi, (n - 1) as nat);
        lemma_le_round(hi, (n - 1) as nat, rest);
        let tail = le_bytes(hi, (n - 1) as nat);
        assert(le_bytes(v, n).reverse() =~= tail.reverse() + seq![lo]);
        assert(b.drop_last() =~= rest + tail.reverse());
        assert(b.last() == lo);
        vstd::arithmetic::div_mod::lemma_fundamental_div_mod(v, 256);
        assert(b.take(rest.len() as int) =~= (rest + tail.reverse()).take(rest.len() as int));
    }
}

/// `take` of a prefix is unchanged by dropping the last element.
pub proof fn lemma_drop_last_take(b: Seq<u8>, k: int)
    requires
        0 <= k <= b.len() - 1,
    ensures
        b.drop_last().take(k) == b.take(k),
{
    assert(b.drop_last().take(k) =~= b.take(k));
}

/// Builds the `n`-byte little-endian encoding of `v`, in wire order.
pub fn le_vec(v: u64, n: usize) -> (r: Vec<u8>)
    ensures
        r@ == le_bytes(v as int, n as nat),
    decreases n,
{
    if n == 0 {
        Vec::new()
    } else {
        let mut out: Vec<u8> = Vec::new();
        out.push((v % 256) as u8);
        let mut tail = le_vec(v / 256, n - 1);
        out.append(&mut tail);
        proof {
            assert(out@ =~= le_bytes(v as int, n as nat));
        }
        out
    }
}

/// Pops `n` bytes off the end of the buffer and reads them as one
/// little-endian integer, low byte popped first.
pub fn pop_le(bytes: &mut Vec<u8>, n: usize) -> (r: Result<u64, Error>)
    requires
        n <= 8,
    ensures
        old(bytes)@.len() >= n ==> ({
            &&& r matches Ok(v)
            &&& v as int == tail_value(old(bytes)@, n as nat)
            &&& final(bytes)@ == old(bytes)@.take(old(bytes)@.len() - n)
        }),
        old(bytes)@.len() < n ==> (r matches Err(e) && e.spec_kind() == ErrorKind::Encoding),
    decreases n,
{
    if n == 0 {
        proof {
            assert(bytes@.take(bytes@.len() as int) =~= bytes@);
        }
        Ok(0)
    } else {
        match bytes.pop() {
            None => Err(Error::with_kind(
                ErrorKind::Encoding,
                String::from_str("serialized data is shorter than its type"),
            )),
            Some(b) => {
                let ghost popped = old(bytes)@;
                match pop_le(bytes, n - 1) {
                    Err(e) => Err(e),
                    Ok(hi) => {
                        proof {
                            lemma_tail_value_bound(popped.drop_last(), (n - 1) as nat);
                            lemma_p256_mono((n - 1) as nat, 7);
                            assert(p256(7) == 0x100_0000_0000_0000) by {
                                reveal_with_fuel(p256, 9);
                            }
                            if popped.len() >= n {
                                lemma_drop_last_take(popped, popped.len() - n);
                            }
                        }
                        Ok((b as u64) + 256 * hi)
                    },
                }
            },
        }
    }
}

/// A copy of the bytes in reverse order: what a top-level deserializer is
/// handed so that popping yields the wire stream front to back.
pub fn reversed(v: &Vec<u8>) -> (r: Vec<u8>)
    ensures
        r@ == v@.reverse(),
{
    let mut out: Vec<u8> = Vec::new();
    let mut i = v.len();
    proof {
        assert(out@ =~= v@.skip(i as int).reverse());
    }
    while i > 0
        invariant
            i <= v@.len(),
            out@ == v@.skip(i as int).reverse(),
        decreases i,
    {
        i = i - 1;
        out.push(v[i]);
        proof {
            assert(out@ =~= v@.skip(i as int).reverse());
        }
    }
    proof {
        assert(v@.skip(0) =~= v@);
    }
    out
}

/// A fresh buffer holding the same bytes.
pub fn copied(v: &Vec<u8>) -> (r: Vec<u8>)
    ensures
        r@ == v@,
{
    let mut out: Vec<u8> = Vec::new();
    let n = v.len();
    let mut i: usize = 0;
    while i < n
        invariant
            n == v@.len(),
            i <= n,
            out@ == v@.take(i as int),
        decreases n - i,
    {
        out.push(v[i]);
        proof {
            assert(out@ =~= v@.take(i + 1));
        }
        i = i + 1;
    }
    proof {
        assert(v@.take(n as int) =~= v@);
    }
    out
}

/// A type the byte codec understands. `serialize` writes the wire encoding;
/// `deserialize` pops one value off the end of a buffer, so a top-level
/// caller hands it the wire bytes reversed. `signature` is the type's
/// fingerprint text, from which the schema hash is derived.
pub trait Bytes: DeepView + Sized {
    /// The wire encoding of an abstract value.
    spec fn ser(v: Self::V) -> Seq<u8>;

    /// Reading one value by popping bytes off the end of buffer `b`: the
    /// value's abstraction and the remaining buffer, or the failure kind.
    spec fn deser(b: Seq<u8>) -> Result<(Self::V, Seq<u8>), ErrorKind>;

    /// The abstract values whose encoding deserializes back to themselves.
    spec fn codec_wf(v: Self::V) -> bool;

    /// The signature text of this type.
    spec fn spec_sig() -> Seq<char>;

    /// Round trip: popping a value's reversed encoding off any buffer
    /// yields the value back and leaves the rest of the buffer untouched.
    proof fn lemma_round_trip(v: Self::V, rest: Seq<u8>)
        requires
            Self::codec_wf(v),
        ensures
            Self::deser(rest + Self::ser(v).reverse()) == Ok::<(Self::V, Seq<u8>), ErrorKind>(
                (v, rest),
            ),
    ;

    fn serialize(&self) -> (r: Vec<u8>)
        ensures
            r@ == Self::ser(self.deep_view()),
    ;

    fn deserialize(bytes: &mut Vec<u8>) -> (r: Result<Self, Error>)
        ensures
            match Self::deser(old(bytes)@) {
                Ok(p) => r matches Ok(x) && x.deep_view() == p.0 && final(bytes)@ == p.1,
                Err(k) => r matches Err(e) && e.spec_kind() == k,
            },
    ;

    fn signature() -> (r: String)
        ensures
            r@ == Self::spec_sig(),
    ;

    fn hash() -> (r: u64)
        ensures
            r == sig_hash(Self::spec_sig()),
    ;
}

impl Bytes for u8 {
    open spec fn ser(v: u8) -> Seq<u8> {
        le_bytes(v as int, 1)
    }

    open spec fn deser(b: Seq<u8>) -> Result<(u8, Seq<u8>), ErrorKind> {
        if b.len() >= 1 {
            Ok((tail_value(b, 1) as u8, b.take(b.len() - 1)))
        } else {
            Err(ErrorKind::Encoding)
        }
    }

    open spec fn codec_wf(v: u8) -> bool {
        true
    }

    open spec fn spec_sig() -> Seq<char> {
        "u8"@
    }

    proof fn lemma_round_trip(v: u8, rest: Seq<u8>) {
        reveal_with_fuel(p256, 2);
        lemma_le_round(v as int, 1, rest);
        lemma_le_bytes_len(v as int, 1);
    }

    fn serialize(&self) -> (r: Vec<u8>) {
        le_vec(*self as u64, 1)
    }

    fn deserialize(bytes: &mut Vec<u8>) -> (r: Result<u8, Error>) {
        match pop_le(bytes, 1) {
            Ok(v) => {
                proof {
                    lemma_tail_value_bound(old(bytes)@, 1);
                    reveal_with_fuel(p256, 2);
                }
                Ok(v as u8)
            },
            Err(e) => Err(e),
        }
    }

    fn signature() -> (r: String) {
        String::from_str("u8")
    }

    fn hash() -> (r: u64) {
        let sig = Self::signature();
        hash_signature(sig.as_str())
    }
}

impl Bytes for u16 {
    open spec fn ser(v: u16) -> Seq<u8> {
        le_bytes(v as int, 2)
    }

    open spec fn deser(b: Seq<u8>) -> Result<(u16, Seq<u8>), ErrorKind> {
        if b.len() >= 2 {
            Ok((tail_value(b, 2) as u16, b.take(b.len() - 2)))
        } else {
            Err(ErrorKind::Encoding)
        }
    }

    open spec fn codec_wf(v: u16) -> bool {
        true
    }

    open spec fn spec_sig() -> Seq<char> {
        "u16"@
    }

    proof fn lemma_round_trip(v: u16, rest: Seq<u8>) {
        reveal_with_fuel(p256, 3);
        lemma_le_round(v as int, 2, rest);
        lemma_le_bytes_len(v as int, 2);
    }

    fn serialize(&self) -> (r: Vec<u8>) {
        le_vec(*self as u64, 2)
    }

    fn deserialize(bytes: &mut Vec<u8>) -> (r: Result<u16, Error>) {
        match pop_le(bytes, 2) {
            Ok(v) => {
                proof {
                    lemma_tail_value_bound(old(bytes)@, 2);
                    reveal_with_fuel(p256, 3);
                }
                Ok(v as u16)
            },
            Err(e) => Err(e),
        }
    }

    fn signature() -> (r: String) {
        String::from_str("u16")
    }

    fn hash() -> (r: u64) {
        let sig = Self::signature();
        hash_signature(sig.as_str())
    }
}

impl Bytes for u32 {
    open spec fn ser(v: u32) -> Seq<u8> {
        le_bytes(v as int, 4)
    }

    open spec fn deser(b: Seq<u8>) -> Result<(u32, Seq<u8>), ErrorKind> {
        if b.len() >= 4 {
            Ok((tail_value(b, 4) as u32, b.take(b.len() - 4)))
        } else {
            Err(ErrorKind::Encoding)
        }
    }

    open spec fn codec_wf(v: u32) -> bool {
        true
    }

    open spec fn spec_sig() -> Seq<char> {
        "u32"@
    }

    proof fn lemma_round_trip(v: u32, rest: Seq<u8>) {
        reveal_with_fuel(p256, 5);
        lemma_le_round(v as int, 4, rest);
        lemma_le_bytes_len(v as int, 4);
    }

    fn serialize(&self) -> (r: Vec<u8>) {
        le_vec(*self as u64, 4)
    }

    fn deserialize(bytes: &mut Vec<u8>) -> (r: Result<u32, Error>) {
        match pop_le(bytes, 4) {
            Ok(v) => {
                proof {
                    lemma_tail_value_bound(old(bytes)@, 4);
                    reveal_with_fuel(p256, 5);
                }
                Ok(v as u32)
            },
            Err(e) => Err(e),
        }
    }

    fn signature() -> (r: String) {
        String::from_str("u32")
    }

    fn hash() -> (r: u64) {
        let sig = Self::signature();
        hash_signature(sig.as_str())
    }
}

impl Bytes for u64 {
    open spec fn ser(v: u64) -> Seq<u8> {
        le_bytes(v as int, 8)
    }

    open spec fn deser(b: Seq<u8>) -> Result<(u64, Seq<u8>), ErrorKind> {
        if b.len() >= 8 {
            Ok((tail_value(b, 8) as u64, b.take(b.len() - 8)))
        } else {
            Err(ErrorKind::Encoding)
        }
    }

    open spec fn codec_wf(v: u64) -> bool {
        true
    }

    open spec fn spec_sig() -> Seq<char> {
        "u64"@
    }

    proof fn lemma_round_trip(v: u64, rest: Seq<u8>) {
        reveal_with_fuel(p256, 9);
        lemma_le_round(v as int, 8, rest);
        lemma_le_bytes_len(v as int, 8);
    }

    fn serialize(&self) -> (r: Vec<u8>) {
        le_vec(*self, 8)
    }

    fn deserialize(bytes: &mut Vec<u8>) -> (r: Result<u64, Error>) {
        match pop_le(bytes, 8) {
            Ok(v) => Ok(v),
            Err(e) => Err(e),
        }
    }

    fn signature() -> (r: String) {
        String::from_str("u64")
    }

    fn hash() -> (r: u64) {
        let sig = Self::signature();
        hash_signature(sig.as_str())
    }
}

impl Bytes for i8 {
    /// Two's complement, little-endian.
    open spec fn ser(v: i8) -> Seq<u8> {
        le_bytes((v as u8) as int, 1)
    }

    open spec fn deser(b: Seq<u8>) -> Result<(i8, Seq<u8>), ErrorKind> {
        if b.len() >= 1 {
            Ok(((tail_value(b, 1) as u8) as i8, b.take(b.len() - 1)))
        } else {
            Err(ErrorKind::Encoding)
        }
    }

    open spec fn codec_wf(v: i8) -> bool {
        true
    }

    open spec fn spec_sig() -> Seq<char> {
        "i8"@
    }

    proof fn lemma_round_trip(v: i8, rest: Seq<u8>) {
        reveal_with_fuel(p256, 2);
        lemma_le_round((v as u8) as int, 1, rest);
        lemma_le_bytes_len((v as u8) as int, 1);
        assert(((v as u8) as i8) == v) by (bit_vector);
    }

    fn serialize(&self) -> (r: Vec<u8>) {
        le_vec((*self as u8) as u64, 1)
    }

    fn deserialize(bytes: &mut Vec<u8>) -> (r: Result<i8, Error>) {
        match pop_le(bytes, 1) {
            Ok(v) => {
                proof {
                    lemma_tail_value_bound(old(bytes)@, 1);
                    reveal_with_fuel(p256, 2);
                }
                Ok((v as u8) as i8)
            },
            Err(e) => Err(e),
        }
    }

    fn signature() -> (r: String) {
        String::from_str("i8")
    }

    fn hash() -> (r: u64) {
        let sig = Self::signature();
        hash_signature(sig.as_str())
    }
}

impl Bytes for i16 {
    /// Two's complement, little-endian.
    open spec fn ser(v: i16) -> Seq<u8> {
        le_bytes((v as u16) as int, 2)
    }

    open spec fn deser(b: Seq<u8>) -> Result<(i16, Seq<u8>), ErrorKind> {
        if b.len() >= 2 {
            Ok(((tail_value(b, 2) as u16) as i16, b.take(b.len() - 2)))
        } else {
            Err(ErrorKind::Encoding)
        }
    }

    open spec fn codec_wf(v: i16) -> bool {
        true
    }

    open spec fn spec_sig() -> Seq<char> {
        "i16"@
    }

    proof fn lemma_round_trip(v: i16, rest: Seq<u8>) {
        reveal_with_fuel(p256, 3);
        lemma_le_round((v as u16) as int, 2, rest);
        lemma_le_bytes_len((v as u16) as int, 2);
        assert(((v as u16) as i16) == v) by (bit_vector);
    }

    fn serialize(&self) -> (r: Vec<u8>) {
        le_vec((*self as u16) as u64, 2)
    }

    fn deserialize(bytes: &mut Vec<u8>) -> (r: Result<i16, Error>) {
        match pop_le(bytes, 2) {
            Ok(v) => {
                proof {
                    lemma_tail_value_bound(old(bytes)@, 2);
                    reveal_with_fuel(p256, 3);
                }
                Ok((v as u16) as i16)
            },
            Err(e) => Err(e),
        }
    }

    fn signature() -> (r: String) {
        String::from_str("i16")
    }

    fn hash() -> (r: u64) {
        let sig = Self::signature();
        hash_signature(sig.as_str())
    }
}

impl Bytes for i32 {
    /// Two's complement, little-endian.
    open spec fn ser(v: i32) -> Seq<u8> {
        le_bytes((v as u32) as int, 4)
    }

    open spec fn deser(b: Seq<u8>) -> Result<(i32, Seq<u8>), ErrorKind> {
        if b.len() >= 4 {
            Ok(((tail_value(b, 4) as u32) as i32, b.take(b.len() - 4)))
        } else {
            Err(ErrorKind::Encoding)
        }
    }

    open spec fn codec_wf(v: i32) -> bool {
        true
    }

    open spec fn spec_sig() -> Seq<char> {
        "i32"@
    }

    proof fn lemma_round_trip(v: i32, rest: Seq<u8>) {
        reveal_with_fuel(p256, 5);
        lemma_le_round((v as u32) as int, 4, rest);
        lemma_le_bytes_len((v as u32) as int, 4);
        assert(((v as u32) as i32) == v) by (bit_vector);
    }

    fn serialize(&self) -> (r: Vec<u8>) {
        le_vec((*self as u32) as u64, 4)
    }

    fn deserialize(bytes: &mut Vec<u8>) -> (r: Result<i32, Error>) {
        match pop_le(bytes, 4) {
            Ok(v) => {
                proof {
                    lemma_tail_value_bound(old(bytes)@, 4);
                    reveal_with_fuel(p256, 5);
                }
                Ok((v as u32) as i32)
            },
            Err(e) => Err(e),
        }
    }

    fn signature() -> (r: String) {
        String::from_str("i32")
    }

    fn hash() -> (r: u64) {
        let sig = Self::signature();
        hash_signature(sig.as_str())
    }
}

impl Bytes for i64 {
    /// Two's complement, little-endian.
    open spec fn ser(v: i64) -> Seq<u8> {
        le_bytes((v as u64) as int, 8)
    }

    open spec fn deser(b: Seq<u8>) -> Result<(i64, Seq<u8>), ErrorKind> {
        if b.len() >= 8 {
            Ok(((tail_value(b, 8) as u64) as i64, b.take(b.len() - 8)))
        } else {
            Err(ErrorKind::Encoding)
        }
    }

    open spec fn codec_wf(v: i64) -> bool {
        true
    }

    open spec fn spec_sig() -> Seq<char> {
        "i64"@
    }

    proof fn lemma_round_trip(v: i64, rest: Seq<u8>) {
        reveal_with_fuel(p256, 9);
        lemma_le_round((v as u64) as int, 8, rest);
        lemma_le_bytes_len((v as u64) as int, 8);
        assert(((v as u64) as i64) == v) by (bit_vector);
    }

    fn serialize(&self) -> (r: Vec<u8>) {
        le_vec((*self as u64) as u64, 8)
    }

    fn deserialize(bytes: &mut Vec<u8>) -> (r: Result<i64, Error>) {
        match pop_le(bytes, 8) {
            Ok(v) => {
                proof {
                    lemma_tail_value_bound(old(bytes)@, 8);
                    reveal_with_fuel(p256, 9);
                }
                Ok((v as u64) as i64)
            },
            Err(e) => Err(e),
        }
    }

    fn signature() -> (r: String) {
        String::from_str("i64")
    }

    fn hash() -> (r: u64) {
        let sig = Self::signature();
        hash_signature(sig.as_str())
    }
}

impl Bytes for bool {
    open spec fn ser(v: bool) -> Seq<u8> {
        seq![if v { 1u8 } else { 0u8 }]
    }

    open spec fn deser(b: Seq<u8>) -> Result<(bool, Seq<u8>), ErrorKind> {
        if b.len() >= 1 {
            Ok((b.last() == 1, b.take(b.len() - 1)))
        } else {
            Err(ErrorKind::Encoding)
        }
    }

    open spec fn codec_wf(v: bool) -> bool {
        true
    }

    open spec fn spec_sig() -> Seq<char> {
        "bool"@
    }

    proof fn lemma_round_trip(v: bool, rest: Seq<u8>) {
        let e = Self::ser(v);
        assert(e.reverse() =~= e);
        assert((rest + e).last() == e[0]);
        assert((rest + e).take(rest.len() as int) =~= rest);
    }

    /// One byte: 1 for true, 0 for false. Reading maps exactly the byte
    /// value 1 to true; every other byte reads as false.
    fn serialize(&self) -> (r: Vec<u8>) {
        let mut out: Vec<u8> = Vec::new();
        out.push(if *self { 1 } else { 0 });
        out
    }

    fn deserialize(bytes: &mut Vec<u8>) -> (r: Result<bool, Error>) {
        match bytes.pop() {
            Some(b) => Ok(b == 1),
            None => Err(Error::with_kind(
                ErrorKind::Encoding,
                String::from_str("serialized data is shorter than its type"),
            )),
        }
    }

    fn signature() -> (r: String) {
        String::from_str("bool")
    }

    fn hash() -> (r: u64) {
        let sig = Self::signature();
        hash_signature(sig.as_str())
    }
}

/// Splits a buffer at the NUL terminator nearest its end: the bytes that
/// popping yields before the first 0 (in pop order, which is wire order),
/// and the buffer that remains below the 0. A buffer without a 0 is
/// consumed whole.
pub open spec fn take_until_nul(b: Seq<u8>) -> (Seq<u8>, Seq<u8>)
    decreases b.len(),
{
    if b.len() == 0 {
        (Seq::empty(), Seq::empty())
    } else if b.last() == 0 {
        (Seq::empty(), b.drop_last())
    } else {
        let p = take_until_nul(b.drop_last());
        (seq![b.last()] + p.0, p.1)
    }
}

/// A sequence of characters that contains no NUL. Only such strings survive
/// the codec's round trip: the encoding is NUL-terminated, so a NUL inside
/// the text truncates it on read.
pub open spec fn nul_free(v: Seq<char>) -> bool {
    forall|i: int| 0 <= i < v.len() ==> v[i] != '\0'
}

/// The UTF-8 encoding of a NUL-free text contains no 0 byte: every
/// character other than NUL encodes to bytes that are all nonzero.
pub proof fn lemma_encode_utf8_no_nul(v: Seq<char>)
    requires
        nul_free(v),
    ensures
        forall|i: int|
            0 <= i < vstd::utf8::encode_utf8(v).len() ==> vstd::utf8::encode_utf8(v)[i] != 0,
    decreases v.len(),
{
    if v.len() > 0 {
        let c = v[0];
        let s = c as u32;
        char_is_scalar(c);
        char_u32_cast(c, s);
        assert(c != '\0');
        assert(s != 0) by {
            if s == 0 {
                assert((0u32 as char) == c);
                assert(('\0' as u32) == 0);
            }
        }
        let head = encode_scalar(s);
        assert(forall|i: int| 0 <= i < head.len() ==> head[i] != 0) by {
            if has_width_1_encoding(s) {
                assert((s & 0x7F) as u8 != 0) by (bit_vector)
                    requires
                        s <= 0x7F && s != 0,
                ;
            } else if has_width_2_encoding(s) {
                assert(0xC0u8 | ((s >> 6) & 0x1F) as u8 != 0) by (bit_vector);
                assert(0x80u8 | (s & 0x3F) as u8 != 0) by (bit_vector);
            } else if has_width_3_encoding(s) {
                assert(0xE0u8 | ((s >> 12) & 0x0F) as u8 != 0) by (bit_vector);
                assert(0x80u8 | ((s >> 6) & 0x3F) as u8 != 0) by (bit_vector);
                assert(0x80u8 | (s & 0x3F) as u8 != 0) by (bit_vector);
            } else {
                assert(0xF0u8 | ((s >> 18) & 0x7) as u8 != 0) by (bit_vector);
                assert(0x80u8 | ((s >> 12) & 0x3F) as u8 != 0) by (bit_vector);
                assert(0x80u8 | ((s >> 6) & 0x3F) as u8 != 0) by (bit_vector);
                assert(0x80u8 | (s & 0x3F) as u8 != 0) by (bit_vector);
            }
        }
        lemma_encode_utf8_no_nul(v.drop_first());
        assert(encode_utf8(v) =~= head + encode_utf8(v.drop_first()));
    }
}

/// Popping a NUL-terminated block off a buffer yields the block's bytes in
/// wire order and leaves the rest of the buffer.
pub proof fn lemma_take_until_nul_round(content: Seq<u8>, rest: Seq<u8>)
    requires
        forall|i: int| 0 <= i < content.len() ==> content[i] != 0,
    ensures
        take_until_nul(rest + (content + seq![0u8]).reverse()).0 == content,
        take_until_nul(rest + (content + seq![0u8]).reverse()).1 == rest,
    decreases content.len(),
{
    let b = rest + (content + seq![0u8]).reverse();
    assert((content + seq![0u8]).reverse() =~= seq![0u8] + content.reverse());
    if content.len() == 0 {
        assert(b.last() == 0);
        assert(b.drop_last() =~= rest);
    } else {
        assert(b.last() == content[0]);
        assert(content.reverse().drop_last() =~= content.drop_first().reverse());
        assert(b.drop_last() =~= rest + (content.drop_first() + seq![0u8]).reverse());
        lemma_take_until_nul_round(content.drop_first(), rest);
        assert(seq![content[0]] + content.drop_first() =~= content);
    }
}

/// Pops bytes off the end of `bytes` and appends them to `out` until a 0
/// byte is popped (and dropped) or the buffer runs out.
fn pop_until_nul(bytes: &mut Vec<u8>, out: &mut Vec<u8>)
    ensures
        final(out)@ == old(out)@ + take_until_nul(old(bytes)@).0,
        final(bytes)@ == take_until_nul(old(bytes)@).1,
    decreases old(bytes)@.len(),
{
    match bytes.pop() {
        None => {
            proof {
                assert(out@ =~= old(out)@ + take_until_nul(old(bytes)@).0);
            }
        },
        Some(b) => {
            if b != 0 {
                out.push(b);
                pop_until_nul(bytes, out);
                proof {
                    assert(out@ =~= old(out)@ + take_until_nul(old(bytes)@).0);
                }
            } else {
                proof {
                    assert(out@ =~= old(out)@ + take_until_nul(old(bytes)@).0);
                }
            }
        },
    }
}

/// Relies on `String::from_utf8`: it returns `Ok` exactly when the bytes
/// are valid UTF-8, and the returned string holds exactly those bytes.
#[verifier::external_body]
fn vec_to_string(v: Vec<u8>) -> (r: Option<String>)
    ensures
        r is Some <==> vstd::utf8::valid_utf8(v@),
        r matches Some(s) ==> vstd::utf8::encode_utf8(s@) == v@,
{
    String::from_utf8(v).ok()
}

impl Bytes for String {
    /// The text's UTF-8 bytes followed by a single NUL terminator.
    open spec fn ser(v: Seq<char>) -> Seq<u8> {
        vstd::utf8::encode_utf8(v) + seq![0u8]
    }

    open spec fn deser(b: Seq<u8>) -> Result<(Seq<char>, Seq<u8>), ErrorKind> {
        let p = take_until_nul(b);
        if vstd::utf8::valid_utf8(p.0) {
            Ok((vstd::utf8::decode_utf8(p.0), p.1))
        } else {
            Err(ErrorKind::Encoding)
        }
    }

    open spec fn codec_wf(v: Seq<char>) -> bool {
        nul_free(v)
    }

    open spec fn spec_sig() -> Seq<char> {
        "String"@
    }

    proof fn lemma_round_trip(v: Seq<char>, rest: Seq<u8>) {
        let enc = vstd::utf8::encode_utf8(v);
        lemma_encode_utf8_no_nul(v);
        lemma_take_until_nul_round(enc, rest);
        vstd::utf8::encode_utf8_valid_utf8(v);
        vstd::utf8::encode_utf8_decode_utf8(v);
    }

    fn serialize(&self) -> (r: Vec<u8>) {
        let mut out = self.as_str().as_bytes_vec();
        out.push(0);
        proof {
            assert(out@ =~= Self::ser(self.deep_view()));
        }
        out
    }

    fn deserialize(bytes: &mut Vec<u8>) -> (r: Result<String, Error>) {
        let mut content: Vec<u8> = Vec::new();
        pop_until_nul(bytes, &mut content);
        proof {
            assert(content@ =~= take_until_nul(old(bytes)@).0);
        }
        match vec_to_string(content) {
            Some(s) => {
                proof {
                    vstd::utf8::encode_utf8_decode_utf8(s@);
                }
                Ok(s)
            },
            None => Err(Error::with_kind(
                ErrorKind::Encoding,
                String::from_str("stored text is not valid UTF-8"),
            )),
        }
    }

    fn signature() -> (r: String) {
        String::from_str("String")
    }

    fn hash() -> (r: u64) {
        let sig = Self::signature();
        hash_signature(sig.as_str())
    }
}

/// Reversing a concatenation concatenates the reversals, swapped.
pub proof fn lemma_reverse_concat(a: Seq<u8>, b: Seq<u8>)
    ensures
        (a + b).reverse() == b.reverse() + a.reverse(),
{
    assert((a + b).reverse() =~= b.reverse() + a.reverse());
}

/// The concatenation of the wire encodings of the elements, in order.
pub open spec fn ser_elems<S: Bytes>(v: Seq<S::V>) -> Seq<u8>
    decreases v.len(),
{
    if v.len() == 0 {
        Seq::empty()
    } else {
        S::ser(v.first()) + ser_elems::<S>(v.drop_first())
    }
}

/// Reading `n` elements in turn by popping bytes off the end of buffer `b`.
pub open spec fn deser_elems<S: Bytes>(b: Seq<u8>, n: nat) -> Result<
    (Seq<S::V>, Seq<u8>),
    ErrorKind,
>
    decreases n,
{
    if n == 0 {
        Ok((Seq::empty(), b))
    } else {
        match S::deser(b) {
            Err(k) => Err(k),
            Ok(p) => match deser_elems::<S>(p.1, (n - 1) as nat) {
                Err(k) => Err(k),
                Ok(q) => Ok((seq![p.0] + q.0, q.1)),
            },
        }
    }
}

pub proof fn lemma_ser_elems_snoc<S: Bytes>(v: Seq<S::V>, x: S::V)
    ensures
        ser_elems::<S>(v.push(x)) == ser_elems::<S>(v) + S::ser(x),
    decreases v.len(),
{
    if v.len() == 0 {
        assert(v.push(x).first() == x);
        assert(v.push(x).drop_first() =~= Seq::<S::V>::empty());
        assert(ser_elems::<S>(v.push(x)) == S::ser(x) + ser_elems::<S>(Seq::<S::V>::empty()));
        assert(S::ser(x) + ser_elems::<S>(Seq::<S::V>::empty()) =~= ser_elems::<S>(v) + S::ser(
            x,
        ));
    } else {
        assert(v.push(x).first() == v.first());
        assert(v.push(x).drop_first() =~= v.drop_first().push(x));
        lemma_ser_elems_snoc::<S>(v.drop_first(), x);
        assert(ser_elems::<S>(v.push(x)) == S::ser(v.first()) + (ser_elems::<S>(v.drop_first())
            + S::ser(x)));
        assert(S::ser(v.first()) + (ser_elems::<S>(v.drop_first()) + S::ser(x)) =~= (S::ser(
            v.first(),
        ) + ser_elems::<S>(v.drop_first())) + S::ser(x));
    }
}

pub proof fn lemma_elems_round_trip<S: Bytes>(v: Seq<S::V>, rest: Seq<u8>)
    requires
        forall|i: int| 0 <= i < v.len() ==> S::codec_wf(#[trigger] v[i]),
    ensures
        deser_elems::<S>(rest + ser_elems::<S>(v).reverse(), v.len() as nat) == Ok::<
            (Seq<S::V>, Seq<u8>),
            ErrorKind,
        >((v, rest)),
    decreases v.len(),
{
    if v.len() == 0 {
        assert(v =~= Seq::<S::V>::empty());
        assert(rest + ser_elems::<S>(v).reverse() =~= rest);
    } else {
        let head = S::ser(v.first());
        let tail = ser_elems::<S>(v.drop_first());
        lemma_reverse_concat(head, tail);
        let b0 = rest + ser_elems::<S>(v).reverse();
        let b1 = rest + tail.reverse();
        assert(b0 =~= b1 + head.reverse());
        assert(S::codec_wf(v.first())) by {
            assert(v[0] == v.first());
        }
        S::lemma_round_trip(v.first(), b1);
        assert(S::deser(b0) == Ok::<(S::V, Seq<u8>), ErrorKind>((v.first(), b1)));
        assert(forall|j: int|
            0 <= j < v.drop_first().len() ==> S::codec_wf(#[trigger] v.drop_first()[j])) by {
            assert(forall|j: int|
                0 <= j < v.drop_first().len() ==> v.drop_first()[j] == v[j + 1]);
        }
        lemma_elems_round_trip::<S>(v.drop_first(), rest);
        assert(deser_elems::<S>(b1, (v.len() - 1) as nat) == Ok::<(Seq<S::V>, Seq<u8>), ErrorKind>(
            (v.drop_first(), rest),
        ));
        assert(deser_elems::<S>(b0, v.len() as nat) == Ok::<(Seq<S::V>, Seq<u8>), ErrorKind>(
            (seq![v.first()] + v.drop_first(), rest),
        ));
        assert(seq![v.first()] + v.drop_first() =~= v);
    }
}

impl<S: Bytes> Bytes for Vec<S> {
    /// An 8-byte little-endian element count, then each element's encoding.
    open spec fn ser(v: Seq<S::V>) -> Seq<u8> {
        le_bytes(v.len() as int, 8) + ser_elems::<S>(v)
    }

    open spec fn deser(b: Seq<u8>) -> Result<(Seq<S::V>, Seq<u8>), ErrorKind> {
        if b.len() >= 8 {
            deser_elems::<S>(b.take(b.len() - 8), tail_value(b, 8) as nat)
        } else {
            Err(ErrorKind::Encoding)
        }
    }

    open spec fn codec_wf(v: Seq<S::V>) -> bool {
        &&& v.len() < p256(8)
        &&& forall|i: int| 0 <= i < v.len() ==> S::codec_wf(#[trigger] v[i])
    }

    open spec fn spec_sig() -> Seq<char> {
        "Vec<"@ + S::spec_sig() + ">"@
    }

    proof fn lemma_round_trip(v: Seq<S::V>, rest: Seq<u8>) {
        let count = le_bytes(v.len() as int, 8);
        let body = ser_elems::<S>(v);
        lemma_reverse_concat(count, body);
        let b0 = rest + Self::ser(v).reverse();
        assert(b0 =~= (rest + body.reverse()) + count.reverse());
        lemma_le_round(v.len() as int, 8, rest + body.reverse());
        assert(b0.take(b0.len() - 8) == rest + body.reverse());
        lemma_elems_round_trip::<S>(v, rest);
    }

    fn serialize(&self) -> (r: Vec<u8>)
    {
        let n = self.len();
        let mut out = le_vec(n as u64, 8);
        let ghost dv = self.deep_view();
        proof {
            assert(dv.take(0) =~= Seq::<S::V>::empty());
            assert(out@ =~= le_bytes(dv.len() as int, 8) + ser_elems::<S>(dv.take(0)));
        }
        let mut i: usize = 0;
        while i < n
            invariant
                n == self@.len(),
                dv == self.deep_view(),
                i <= n,
                out@ == le_bytes(dv.len() as int, 8) + ser_elems::<S>(dv.take(i as int)),
            decreases n - i,
        {
            let mut e = self[i].serialize();
            out.append(&mut e);
            proof {
                assert(dv.take(i + 1) =~= dv.take(i as int).push(dv[i as int]));
                lemma_ser_elems_snoc::<S>(dv.take(i as int), dv[i as int]);
            }
            i = i + 1;
        }
        proof {
            assert(dv.take(n as int) =~= dv);
        }
        out
    }

    fn deserialize(bytes: &mut Vec<u8>) -> (r: Result<Vec<S>, Error>) {
        let n = match pop_le(bytes, 8) {
            Ok(v) => v,
            Err(e) => {
                return Err(e);
            },
        };
        let ghost b1 = old(bytes)@.take(old(bytes)@.len() - 8);
        let mut out: Vec<S> = Vec::new();
        let mut i: u64 = 0;
        proof {
            assert(out.deep_view() =~= Seq::<S::V>::empty());
            let d0 = deser_elems::<S>(bytes@, (n - i) as nat);
            if d0 is Ok {
                assert(out.deep_view() + d0->Ok_0.0 =~= d0->Ok_0.0);
            }
        }
        while i < n
            invariant
                i <= n,
                Self::deser(old(bytes)@) == deser_elems::<S>(b1, n as nat),
                match deser_elems::<S>(bytes@, (n - i) as nat) {
                    Ok(q) => deser_elems::<S>(b1, n as nat) == Ok::<
                        (Seq<S::V>, Seq<u8>),
                        ErrorKind,
                    >((out.deep_view() + q.0, q.1)),
                    Err(k) => deser_elems::<S>(b1, n as nat) == Err::<
                        (Seq<S::V>, Seq<u8>),
                        ErrorKind,
                    >(k),
                },
            decreases n - i,
        {
            let ghost pre = bytes@;
            let ghost pre_out = out.deep_view();
            match S::deserialize(bytes) {
                Ok(x) => {
                    out.push(x);
                    proof {
                        assert(out.deep_view() =~= pre_out.push(x.deep_view()));
                        let d = S::deser(pre);
                        if d is Ok {
                            let p = d->Ok_0;
                            let dq = deser_elems::<S>(p.1, (n - i - 1) as nat);
                            if dq is Ok {
                                let q = dq->Ok_0;
                                assert(pre_out + (seq![p.0] + q.0) =~= (pre_out.push(p.0)) + q.0);
                            }
                        }
                    }
                },
                Err(e) => {
                    return Err(e);
                },
            }
            i = i + 1;
        }
        proof {
            let d1 = deser_elems::<S>(bytes@, 0);
            if d1 is Ok {
                assert(out.deep_view() + d1->Ok_0.0 =~= out.deep_view());
            }
        }
        Ok(out)
    }

    fn signature() -> (r: String) {
        let mut sig = String::from_str("Vec<");
        let inner = S::signature();
        sig.append(inner.as_str());
        sig.append(">");
        sig
    }

    fn hash() -> (r: u64) {
        let sig = Self::signature();
        hash_signature(sig.as_str())
    }
}

} // verus!
