//! Values that the slab can store: a token that identifies the type, a
//! fixed width in bytes, and a byte encoding that loses nothing.

use vstd::prelude::*;
use vstd::bytes::*;

verus! {

/// A fixed-size type that can live in the slab.
///
/// Tokens must differ between types that are stored in one slab; the
/// tokens of the types implemented here are pairwise distinct. An impl
/// states the encoding and proves that it loses nothing, so it is written
/// in verified code.
pub trait Storable: Sized {
    /// The token that identifies this type in the directory.
    spec fn token() -> u64;

    /// The number of bytes that a value occupies.
    spec fn width() -> nat;

    /// The bytes of a value.
    spec fn encode(self) -> Seq<u8>;

    /// The value that `bytes` stand for.
    spec fn decode(bytes: Seq<u8>) -> Self;

    /// The width is positive and fits the machine, every value encodes to
    /// exactly that many bytes, and decoding gives the value back.
    proof fn encoding_is_exact()
        ensures
            0 < Self::width() <= usize::MAX,
            forall|v: Self| (#[trigger] v.encode()).len() == Self::width(),
            forall|v: Self| Self::decode(#[trigger] v.encode()) == v,
    ;

    fn type_token() -> (t: u64)
        ensures
            t == Self::token(),
    ;

    fn size() -> (n: usize)
        ensures
            n == Self::width(),
    ;

    fn to_bytes(&self) -> (b: Vec<u8>)
        ensures
            b@ == self.encode(),
    ;

    fn from_bytes(b: &[u8]) -> (v: Self)
        requires
            b@.len() == Self::width(),
        ensures
            v == Self::decode(b@),
    ;
}

impl Storable for u8 {
    open spec fn token() -> u64 {
        1
    }

    open spec fn width() -> nat {
        1
    }

    open spec fn encode(self) -> Seq<u8> {
        seq![self]
    }

    open spec fn decode(bytes: Seq<u8>) -> Self {
        bytes[0]
    }

    proof fn encoding_is_exact() {
    }

    fn type_token() -> (t: u64) {
        1
    }

    fn size() -> (n: usize) {
        1
    }

    fn to_bytes(&self) -> (b: Vec<u8>) {
        let mut b: Vec<u8> = Vec::new();
        b.push(*self);
        assert(b@ =~= seq![*self]);
        b
    }

    fn from_bytes(b: &[u8]) -> (v: Self) {
        b[0]
    }
}

impl Storable for u16 {
    open spec fn token() -> u64 {
        2
    }

    open spec fn width() -> nat {
        2
    }

    open spec fn encode(self) -> Seq<u8> {
        spec_u16_to_le_bytes(self)
    }

    open spec fn decode(bytes: Seq<u8>) -> Self {
        spec_u16_from_le_bytes(bytes)
    }

    proof fn encoding_is_exact() {
        lemma_auto_spec_u16_to_from_le_bytes();
        assert forall|v: Self| Self::decode(#[trigger] v.encode()) == v by {
            assert(spec_u16_to_le_bytes(v).len() == 2);
        }
    }

    fn type_token() -> (t: u64) {
        2
    }

    fn size() -> (n: usize) {
        2
    }

    fn to_bytes(&self) -> (b: Vec<u8>) {
        u16_to_le_bytes(*self)
    }

    fn from_bytes(b: &[u8]) -> (v: Self) {
        u16_from_le_bytes(b)
    }
}

impl Storable for u32 {
    open spec fn token() -> u64 {
        3
    }

    open spec fn width() -> nat {
        4
    }

    open spec fn encode(self) -> Seq<u8> {
        spec_u32_to_le_bytes(self)
    }

    open spec fn decode(bytes: Seq<u8>) -> Self {
        spec_u32_from_le_bytes(bytes)
    }

    proof fn encoding_is_exact() {
        lemma_auto_spec_u32_to_from_le_bytes();
        assert forall|v: Self| Self::decode(#[trigger] v.encode()) == v by {
            assert(spec_u32_to_le_bytes(v).len() == 4);
        }
    }

    fn type_token() -> (t: u64) {
        3
    }

    fn size() -> (n: usize) {
        4
    }

    fn to_bytes(&self) -> (b: Vec<u8>) {
        u32_to_le_bytes(*self)
    }

    fn from_bytes(b: &[u8]) -> (v: Self) {
        u32_from_le_bytes(b)
    }
}

impl Storable for u64 {
    open spec fn token() -> u64 {
        4
    }

    open spec fn width() -> nat {
        8
    }

    open spec fn encode(self) -> Seq<u8> {
        spec_u64_to_le_bytes(self)
    }

    open spec fn decode(bytes: Seq<u8>) -> Self {
        spec_u64_from_le_bytes(bytes)
    }

    proof fn encoding_is_exact() {
        lemma_auto_spec_u64_to_from_le_bytes();
        assert forall|v: Self| Self::decode(#[trigger] v.encode()) == v by {
            assert(spec_u64_to_le_bytes(v).len() == 8);
        }
    }

    fn type_token() -> (t: u64) {
        4
    }

    fn size() -> (n: usize) {
        8
    }

    fn to_bytes(&self) -> (b: Vec<u8>) {
        u64_to_le_bytes(*self)
    }

    fn from_bytes(b: &[u8]) -> (v: Self) {
        u64_from_le_bytes(b)
    }
}

impl Storable for u128 {
    open spec fn token() -> u64 {
        5
    }

    open spec fn width() -> nat {
        16
    }

    open spec fn encode(self) -> Seq<u8> {
        spec_u128_to_le_bytes(self)
    }

    open spec fn decode(bytes: Seq<u8>) -> Self {
        spec_u128_from_le_bytes(bytes)
    }

    proof fn encoding_is_exact() {
        lemma_auto_spec_u128_to_from_le_bytes();
        assert forall|v: Self| Self::decode(#[trigger] v.encode()) == v by {
            assert(spec_u128_to_le_bytes(v).len() == 16);
        }
    }

    fn type_token() -> (t: u64) {
        5
    }

    fn size() -> (n: usize) {
        16
    }

    fn to_bytes(&self) -> (b: Vec<u8>) {
        u128_to_le_bytes(*self)
    }

    fn from_bytes(b: &[u8]) -> (v: Self) {
        u128_from_le_bytes(b)
    }
}

impl Storable for i128 {
    open spec fn token() -> u64 {
        6
    }

    open spec fn width() -> nat {
        16
    }

    open spec fn encode(self) -> Seq<u8> {
        spec_u128_to_le_bytes(self as u128)
    }

    open spec fn decode(bytes: Seq<u8>) -> Self {
        spec_u128_from_le_bytes(bytes) as i128
    }

    proof fn encoding_is_exact() {
        lemma_auto_spec_u128_to_from_le_bytes();
        assert forall|v: i128| Self::decode(#[trigger] v.encode()) == v by {
            assert(spec_u128_to_le_bytes(v as u128).len() == 16);
            assert((v as u128) as i128 == v) by (bit_vector);
        }
    }

    fn type_token() -> (t: u64) {
        6
    }

    fn size() -> (n: usize) {
        16
    }

    fn to_bytes(&self) -> (b: Vec<u8>) {
        u128_to_le_bytes(*self as u128)
    }

    fn from_bytes(b: &[u8]) -> (v: Self) {
        u128_from_le_bytes(b) as i128
    }
}

/// The 32 bits of a single-precision number, stored as they are. It has a
/// token of its own, so a slot that holds one is not a slot of `u32`.
#[derive(Clone, Copy, Debug, PartialEq, Eq, Structural)]
pub struct FloatBits {
    pub bits: u32,
}

impl Storable for FloatBits {
    open spec fn token() -> u64 {
        7
    }

    open spec fn width() -> nat {
        4
    }

    open spec fn encode(self) -> Seq<u8> {
        spec_u32_to_le_bytes(self.bits)
    }

    open spec fn decode(bytes: Seq<u8>) -> Self {
        FloatBits { bits: spec_u32_from_le_bytes(bytes) }
    }

    proof fn encoding_is_exact() {
        lemma_auto_spec_u32_to_from_le_bytes();
        assert forall|v: Self| Self::decode(#[trigger] v.encode()) == v by {
            assert(spec_u32_to_le_bytes(v.bits).len() == 4);
        }
    }

    fn type_token() -> (t: u64) {
        7
    }

    fn size() -> (n: usize) {
        4
    }

    fn to_bytes(&self) -> (b: Vec<u8>) {
        u32_to_le_bytes(self.bits)
    }

    fn from_bytes(b: &[u8]) -> (v: Self) {
        FloatBits { bits: u32_from_le_bytes(b) }
    }
}

impl Storable for i8 {
    open spec fn token() -> u64 {
        8
    }

    open spec fn width() -> nat {
        1
    }

    open spec fn encode(self) -> Seq<u8> {
        seq![self as u8]
    }

    open spec fn decode(bytes: Seq<u8>) -> Self {
        bytes[0] as i8
    }

    proof fn encoding_is_exact() {
        assert forall|v: i8| Self::decode(#[trigger] v.encode()) == v by {
            assert((v as u8) as i8 == v) by (bit_vector);
        }
    }

    fn type_token() -> (t: u64) {
        8
    }

    fn size() -> (n: usize) {
        1
    }

    fn to_bytes(&self) -> (b: Vec<u8>) {
        let mut b: Vec<u8> = Vec::new();
        b.push(*self as u8);
        assert(b@ =~= seq![*self as u8]);
        b
    }

    fn from_bytes(b: &[u8]) -> (v: Self) {
        b[0] as i8
    }
}

impl Storable for i16 {
    open spec fn token() -> u64 {
        9
    }

    open spec fn width() -> nat {
        2
    }

    open spec fn encode(self) -> Seq<u8> {
        spec_u16_to_le_bytes(self as u16)
    }

    open spec fn decode(bytes: Seq<u8>) -> Self {
        spec_u16_from_le_bytes(bytes) as i16
    }

    proof fn encoding_is_exact() {
        lemma_auto_spec_u16_to_from_le_bytes();
        assert forall|v: i16| Self::decode(#[trigger] v.encode()) == v by {
            assert(spec_u16_to_le_bytes(v as u16).len() == 2);
            assert((v as u16) as i16 == v) by (bit_vector);
        }
    }

    fn type_token() -> (t: u64) {
        9
    }

    fn size() -> (n: usize) {
        2
    }

    fn to_bytes(&self) -> (b: Vec<u8>) {
        u16_to_le_bytes(*self as u16)
    }

    fn from_bytes(b: &[u8]) -> (v: Self) {
        u16_from_le_bytes(b) as i16
    }
}

impl Storable for i32 {
    open spec fn token() -> u64 {
        10
    }

    open spec fn width() -> nat {
        4
    }

    open spec fn encode(self) -> Seq<u8> {
        spec_u32_to_le_bytes(self as u32)
    }

    open spec fn decode(bytes: Seq<u8>) -> Self {
        spec_u32_from_le_bytes(bytes) as i32
    }

    proof fn encoding_is_exact() {
        lemma_auto_spec_u32_to_from_le_bytes();
        assert forall|v: i32| Self::decode(#[trigger] v.encode()) == v by {
            assert(spec_u32_to_le_bytes(v as u32).len() == 4);
            assert((v as u32) as i32 == v) by (bit_vector);
        }
    }

    fn type_token() -> (t: u64) {
        10
    }

    fn size() -> (n: usize) {
        4
    }

    fn to_bytes(&self) -> (b: Vec<u8>) {
        u32_to_le_bytes(*self as u32)
    }

    fn from_bytes(b: &[u8]) -> (v: Self) {
        u32_from_le_bytes(b) as i32
    }
}

impl Storable for i64 {
    open spec fn token() -> u64 {
        11
    }

    open spec fn width() -> nat {
        8
    }

    open spec fn encode(self) -> Seq<u8> {
        spec_u64_to_le_bytes(self as u64)
    }

    open spec fn decode(bytes: Seq<u8>) -> Self {
        spec_u64_from_le_bytes(bytes) as i64
    }

    proof fn encoding_is_exact() {
        lemma_auto_spec_u64_to_from_le_bytes();
        assert forall|v: i64| Self::decode(#[trigger] v.encode()) == v by {
            assert(spec_u64_to_le_bytes(v as u64).len() == 8);
            assert((v as u64) as i64 == v) by (bit_vector);
        }
    }

    fn type_token() -> (t: u64) {
        11
    }

    fn size() -> (n: usize) {
        8
    }

    fn to_bytes(&self) -> (b: Vec<u8>) {
        u64_to_le_bytes(*self as u64)
    }

    fn from_bytes(b: &[u8]) -> (v: Self) {
        u64_from_le_bytes(b) as i64
    }
}

impl Storable for bool {
    open spec fn token() -> u64 {
        12
    }

    open spec fn width() -> nat {
        1
    }

    open spec fn encode(self) -> Seq<u8> {
        seq![if self { 1u8 } else { 0u8 }]
    }

    open spec fn decode(bytes: Seq<u8>) -> Self {
        bytes[0] != 0
    }

    proof fn encoding_is_exact() {
    }

    fn type_token() -> (t: u64) {
        12
    }

    fn size() -> (n: usize) {
        1
    }

    fn to_bytes(&self) -> (b: Vec<u8>) {
        let mut b: Vec<u8> = Vec::new();
        b.push(if *self { 1u8 } else { 0u8 });
        assert(b@ =~= seq![if *self { 1u8 } else { 0u8 }]);
        b
    }

    fn from_bytes(b: &[u8]) -> (v: Self) {
        b[0] != 0
    }
}

/// The 64 bits of a double-precision number, stored as they are. It has a
/// token of its own, so a slot that holds one is not a slot of `u64`.
#[derive(Clone, Copy, Debug, PartialEq, Eq, Structural)]
pub struct DoubleBits {
    pub bits: u64,
}

impl Storable for DoubleBits {
    open spec fn token() -> u64 {
        13
    }

    open spec fn width() -> nat {
        8
    }

    open spec fn encode(self) -> Seq<u8> {
        spec_u64_to_le_bytes(self.bits)
    }

    open spec fn decode(bytes: Seq<u8>) -> Self {
        DoubleBits { bits: spec_u64_from_le_bytes(bytes) }
    }

    proof fn encoding_is_exact() {
        lemma_auto_spec_u64_to_from_le_bytes();
        assert forall|v: Self| Self::decode(#[trigger] v.encode()) == v by {
            assert(spec_u64_to_le_bytes(v.bits).len() == 8);
        }
    }

    fn type_token() -> (t: u64) {
        13
    }

    fn size() -> (n: usize) {
        8
    }

    fn to_bytes(&self) -> (b: Vec<u8>) {
        u64_to_le_bytes(self.bits)
    }

    fn from_bytes(b: &[u8]) -> (v: Self) {
        DoubleBits { bits: u64_from_le_bytes(b) }
    }
}

} // verus!
