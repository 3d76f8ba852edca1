//! Register endianness implementations
//!
//! A register of several access-width words has two orders: the order of
//! the bytes inside each word, and the order of the words inside the
//! register. Each endianness type fixes both.
use vstd::prelude::*;
use crate::layout::{
    is_int_width, le_bytes, le_value, lemma_le_value_append, lemma_le_value_zeros, pow256,
    significance, word_layout, word_value,
};

verus! {

/// `num_traits::ToBytes::to_le_bytes` on `u128`: the sixteen bytes of `v`,
/// least significant first.
#[verifier::external_body]
fn u128_to_le_bytes(v: u128) -> (r: Vec<u8>)
    ensures
        r@ == le_bytes(v as nat, 16),
{
    num_traits::ToBytes::to_le_bytes(&v).to_vec()
}

/// `num_traits::ToBytes::to_be_bytes` on `u128`: the sixteen bytes of `v`,
/// most significant first.
#[verifier::external_body]
fn u128_to_be_bytes(v: u128) -> (r: Vec<u8>)
    ensures
        r@ == le_bytes(v as nat, 16).reverse(),
{
    num_traits::ToBytes::to_be_bytes(&v).to_vec()
}

/// `num_traits::FromBytes::from_le_bytes` on `u128`: the number whose
/// sixteen bytes, least significant first, are `b`.
#[verifier::external_body]
fn u128_from_le_bytes(b: &[u8]) -> (r: u128)
    requires
        b@.len() == 16,
    ensures
        r == le_value(b@),
{
    let arr: [u8; 16] = b.try_into().unwrap();
    <u128 as num_traits::FromBytes>::from_le_bytes(&arr)
}

/// `num_traits::FromBytes::from_be_bytes` on `u128`: the number whose
/// sixteen bytes, most significant first, are `b`.
#[verifier::external_body]
fn u128_from_be_bytes(b: &[u8]) -> (r: u128)
    requires
        b@.len() == 16,
    ensures
        r == le_value(b@.reverse()),
{
    let arr: [u8; 16] = b.try_into().unwrap();
    <u128 as num_traits::FromBytes>::from_be_bytes(&arr)
}

/// The `width` bytes, in address order, of a word stored little-endian.
fn le_word_bytes(value: u128, width: usize) -> (bytes: Vec<u8>)
    requires
        is_int_width(width as nat),
    ensures
        bytes@ == word_layout(value as nat, width as nat, false),
{
    let all = u128_to_le_bytes(value);
    let mut bytes: Vec<u8> = Vec::new();
    let mut j: usize = 0;
    while j < width
        invariant
            is_int_width(width as nat),
            all@ == le_bytes(value as nat, 16),
            j <= width,
            bytes@ == word_layout(value as nat, width as nat, false).subrange(0, j as int),
        decreases width - j,
    {
        bytes.push(all[j]);
        j += 1;
        assert(bytes@ =~= word_layout(value as nat, width as nat, false).subrange(0, j as int));
    }
    assert(bytes@ =~= word_layout(value as nat, width as nat, false));
    bytes
}

/// The `width` bytes, in address order, of a word stored big-endian.
fn be_word_bytes(value: u128, width: usize) -> (bytes: Vec<u8>)
    requires
        is_int_width(width as nat),
    ensures
        bytes@ == word_layout(value as nat, width as nat, true),
{
    let all = u128_to_be_bytes(value);
    let mut bytes: Vec<u8> = Vec::new();
    let mut j: usize = 16 - width;
    while j < 16
        invariant
            is_int_width(width as nat),
            all@ == le_bytes(value as nat, 16).reverse(),
            16 - width <= j <= 16,
            bytes@ == word_layout(value as nat, width as nat, true).subrange(
                0,
                j - (16 - width),
            ),
        decreases 16 - j,
    {
        bytes.push(all[j]);
        j += 1;
        assert(bytes@ =~= word_layout(value as nat, width as nat, true).subrange(
            0,
            j - (16 - width),
        ));
    }
    assert(bytes@ =~= word_layout(value as nat, width as nat, true));
    bytes
}

/// The value of a word whose bytes, in address order, are stored
/// little-endian.
fn le_word_value(bytes: &[u8]) -> (value: u128)
    requires
        is_int_width(bytes@.len()),
    ensures
        value == word_value(bytes@, false),
{
    let mut all: Vec<u8> = Vec::new();
    let mut j: usize = 0;
    while j < bytes.len()
        invariant
            is_int_width(bytes@.len()),
            j <= bytes@.len(),
            all@ == bytes@.subrange(0, j as int),
        decreases bytes@.len() - j,
    {
        all.push(bytes[j]);
        j += 1;
        assert(all@ =~= bytes@.subrange(0, j as int));
    }
    let ghost n = bytes@.len();
    while all.len() < 16
        invariant
            is_int_width(n),
            n <= all@.len() <= 16,
            all@ == bytes@ + Seq::new((all@.len() - n) as nat, |k: int| 0u8),
        decreases 16 - all@.len(),
    {
        all.push(0u8);
        assert(all@ =~= bytes@ + Seq::new((all@.len() - n) as nat, |k: int| 0u8));
    }
    proof {
        let zeros = Seq::new((16 - n) as nat, |k: int| 0u8);
        assert(all@ == bytes@ + zeros);
        lemma_le_value_append(bytes@, zeros);
        lemma_le_value_zeros((16 - n) as nat);
        assert(le_value(all@) == le_value(bytes@));
        assert(Seq::new(n, |k: int| bytes@[significance(false, k as nat, n) as int]) =~= bytes@);
    }
    u128_from_le_bytes(all.as_slice())
}

/// The value of a word whose bytes, in address order, are stored
/// big-endian.
fn be_word_value(bytes: &[u8]) -> (value: u128)
    requires
        is_int_width(bytes@.len()),
    ensures
        value == word_value(bytes@, true),
{
    let ghost n = bytes@.len();
    let mut all: Vec<u8> = Vec::new();
    while all.len() < 16 - bytes.len()
        invariant
            is_int_width(n),
            n == bytes@.len(),
            all@.len() <= 16 - n,
            all@ == Seq::new(all@.len(), |k: int| 0u8),
        decreases 16 - n - all@.len(),
    {
        all.push(0u8);
        assert(all@ =~= Seq::new(all@.len(), |k: int| 0u8));
    }
    let mut j: usize = 0;
    while j < bytes.len()
        invariant
            is_int_width(n),
            n == bytes@.len(),
            j <= n,
            all@ == Seq::new((16 - n) as nat, |k: int| 0u8) + bytes@.subrange(0, j as int),
        decreases n - j,
    {
        all.push(bytes[j]);
        j += 1;
        assert(all@ =~= Seq::new((16 - n) as nat, |k: int| 0u8) + bytes@.subrange(0, j as int));
    }
    proof {
        let zeros = Seq::new((16 - n) as nat, |k: int| 0u8);
        assert(bytes@.subrange(0, n as int) =~= bytes@);
        assert(all@.reverse() =~= bytes@.reverse() + zeros);
        lemma_le_value_append(bytes@.reverse(), zeros);
        lemma_le_value_zeros((16 - n) as nat);
        assert(Seq::new(n, |k: int| bytes@[significance(true, k as nat, n) as int])
            =~= bytes@.reverse());
    }
    u128_from_be_bytes(all.as_slice())
}

/// Endianness of a register
#[allow(private_bounds)]
pub trait Endian: Sealed + Copy {
    /// Whether the lowest address of a word holds its most significant byte.
    spec fn byte_big() -> bool;

    /// Whether the lowest address of a register holds its most significant
    /// word.
    spec fn word_big() -> bool;

    /// Convert from native endianness to register endianness: the bytes, in
    /// address order, that hold the `width`-byte word `value`.
    fn to_register_endian(value: u128, width: usize) -> (bytes: Vec<u8>)
        requires
            is_int_width(width as nat),
        ensures
            bytes@ == word_layout(value as nat, width as nat, Self::byte_big()),
    ;

    /// Convert from register endianness to native endianness: the value of
    /// the word whose bytes, in address order, are `bytes`.
    fn from_register_endian(bytes: &[u8]) -> (value: u128)
        requires
            is_int_width(bytes@.len()),
        ensures
            value == word_value(bytes@, Self::byte_big()),
            value < pow256(bytes@.len()),
    ;

    /// Given the address order of a subword, return the sigificance order
    /// of the subword.
    ///
    /// For example, if `address_order_to_significance(1, 2) == 0`, it indicates
    /// that the subword at the second-to-lowest address (`address_order == 1`)
    /// is the least significant subword in the register (`== 0`).
    ///
    /// With big-endian words the address order must be below the number of
    /// subwords; with little-endian words the significance is the address
    /// order, whatever the number of subwords.
    fn address_order_to_significance(address_order: usize, num_subwords: usize) -> (r: usize)
        requires
            Self::word_big() ==> address_order < num_subwords,
        ensures
            r == significance(Self::word_big(), address_order as nat, num_subwords as nat),
    ;
}

/// Big endian byte and word ordering
#[derive(Debug, Clone, Copy, PartialEq, Eq)]
pub struct BigEndian;

/// Little endian byte and word ordering
#[derive(Debug, Clone, Copy, PartialEq, Eq)]
pub struct LittleEndian;

/// Little endian byte ordering with big endian word ordering
#[derive(Debug, Clone, Copy, PartialEq, Eq)]
pub struct WordBigByteLittleEndian;

/// Big endian byte ordering with little endian word ordering
#[derive(Debug, Clone, Copy, PartialEq, Eq)]
pub struct WordLittleByteBigEndian;

/// Only the endianness types of this module are endiannesses.
trait Sealed {}

impl Sealed for BigEndian {}

impl Sealed for LittleEndian {}

impl Sealed for WordBigByteLittleEndian {}

impl Sealed for WordLittleByteBigEndian {}

impl Endian for BigEndian {
    open spec fn byte_big() -> bool {
        true
    }

    open spec fn word_big() -> bool {
        true
    }

    fn to_register_endian(value: u128, width: usize) -> (bytes: Vec<u8>) {
        be_word_bytes(value, width)
    }

    fn from_register_endian(bytes: &[u8]) -> (value: u128) {
        proof {
            crate::layout::lemma_word_layout_of_value(bytes@, true);
        }
        be_word_value(bytes)
    }

    fn address_order_to_significance(address_order: usize, num_subwords: usize) -> (r: usize) {
        // The lowest address is the most significant word
        num_subwords - 1 - address_order
    }
}

impl Endian for LittleEndian {
    open spec fn byte_big() -> bool {
        false
    }

    open spec fn word_big() -> bool {
        false
    }

    fn to_register_endian(value: u128, width: usize) -> (bytes: Vec<u8>) {
        le_word_bytes(value, width)
    }

    fn from_register_endian(bytes: &[u8]) -> (value: u128) {
        proof {
            crate::layout::lemma_word_layout_of_value(bytes@, false);
        }
        le_word_value(bytes)
    }

    fn address_order_to_significance(address_order: usize, _num_subwords: usize) -> (r: usize) {
        // The lowest address is the least significant word
        address_order
    }
}

impl Endian for WordBigByteLittleEndian {
    open spec fn byte_big() -> bool {
        false
    }

    open spec fn word_big() -> bool {
        true
    }

    fn to_register_endian(value: u128, width: usize) -> (bytes: Vec<u8>) {
        le_word_bytes(value, width)
    }

    fn from_register_endian(bytes: &[u8]) -> (value: u128) {
        proof {
            crate::layout::lemma_word_layout_of_value(bytes@, false);
        }
        le_word_value(bytes)
    }

    fn address_order_to_significance(address_order: usize, num_subwords: usize) -> (r: usize) {
        // The lowest address is the most significant word
        num_subwords - 1 - address_order
    }
}

impl Endian for WordLittleByteBigEndian {
    open spec fn byte_big() -> bool {
        true
    }

    open spec fn word_big() -> bool {
        false
    }

    fn to_register_endian(value: u128, width: usize) -> (bytes: Vec<u8>) {
        be_word_bytes(value, width)
    }

    fn from_register_endian(bytes: &[u8]) -> (value: u128) {
        proof {
            crate::layout::lemma_word_layout_of_value(bytes@, true);
        }
        be_word_value(bytes)
    }

    fn address_order_to_significance(address_order: usize, _num_subwords: usize) -> (r: usize) {
        // The lowest address is the least significant word
        address_order
    }
}

} // verus!
