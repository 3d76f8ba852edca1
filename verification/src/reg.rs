//! Register abstraction used to read, write, and modify register values
use vstd::prelude::*;
use core::marker::PhantomData;
use crate::access::{Access, Read, Write};
use crate::endian::Endian;
use crate::io::RegisterIO;
use crate::layout::{
    interrupted_write, is_int_width, lemma_int_widths, lemma_layout_of_register_value, lemma_pow256_values,
    lemma_register_value_of_layout, pow256, register_layout, register_value, widths_ok, written,
};

verus! {

/// Trait for primitive integer types accessed as registers.
///
/// A value is taken by its bit pattern: the unsigned number that its bytes
/// spell.
pub trait RegInt: Copy {
    /// Size of the type in bytes.
    spec fn byte_width() -> nat;

    /// The bit pattern of `self`, as an unsigned number.
    spec fn bits(self) -> nat;

    /// Whether the type is signed.
    spec fn signed() -> bool;

    /// The size of the type is the size of a primitive integer.
    proof fn lemma_byte_width()
        ensures
            is_int_width(Self::byte_width()),
    ;

    /// Whether the type is signed.
    fn is_signed() -> (r: bool)
        ensures
            r == Self::signed(),
    ;

    /// Size of the type in bytes.
    fn width_bytes() -> (n: usize)
        ensures
            n == Self::byte_width(),
            is_int_width(n as nat),
    ;

    /// The bit pattern of `self`.
    fn to_bits(self) -> (r: u128)
        ensures
            r == self.bits(),
            r < pow256(Self::byte_width()),
    ;

    /// The value with bit pattern `v`.
    fn from_bits(v: u128) -> (r: Self)
        requires
            v < pow256(Self::byte_width()),
        ensures
            r.bits() == v,
    ;
}

impl RegInt for u8 {
    open spec fn byte_width() -> nat {
        1
    }

    open spec fn bits(self) -> nat {
        self as nat
    }

    open spec fn signed() -> bool {
        false
    }

    proof fn lemma_byte_width() {
    }

    fn is_signed() -> (r: bool) {
        false
    }

    fn width_bytes() -> (n: usize) {
        1
    }

    fn to_bits(self) -> (r: u128) {
        proof {
            lemma_pow256_values();
        }
        self as u128
    }

    fn from_bits(v: u128) -> (r: Self) {
        proof {
            lemma_pow256_values();
        }
        v as u8
    }
}

impl RegInt for u16 {
    open spec fn byte_width() -> nat {
        2
    }

    open spec fn bits(self) -> nat {
        self as nat
    }

    open spec fn signed() -> bool {
        false
    }

    proof fn lemma_byte_width() {
    }

    fn is_signed() -> (r: bool) {
        false
    }

    fn width_bytes() -> (n: usize) {
        2
    }

    fn to_bits(self) -> (r: u128) {
        proof {
            lemma_pow256_values();
        }
        self as u128
    }

    fn from_bits(v: u128) -> (r: Self) {
        proof {
            lemma_pow256_values();
        }
        v as u16
    }
}

impl RegInt for u32 {
    open spec fn byte_width() -> nat {
        4
    }

    open spec fn bits(self) -> nat {
        self as nat
    }

    open spec fn signed() -> bool {
        false
    }

    proof fn lemma_byte_width() {
    }

    fn is_signed() -> (r: bool) {
        false
    }

    fn width_bytes() -> (n: usize) {
        4
    }

    fn to_bits(self) -> (r: u128) {
        proof {
            lemma_pow256_values();
        }
        self as u128
    }

    fn from_bits(v: u128) -> (r: Self) {
        proof {
            lemma_pow256_values();
        }
        v as u32
    }
}

impl RegInt for u64 {
    open spec fn byte_width() -> nat {
        8
    }

    open spec fn bits(self) -> nat {
        self as nat
    }

    open spec fn signed() -> bool {
        false
    }

    proof fn lemma_byte_width() {
    }

    fn is_signed() -> (r: bool) {
        false
    }

    fn width_bytes() -> (n: usize) {
        8
    }

    fn to_bits(self) -> (r: u128) {
        proof {
            lemma_pow256_values();
        }
        self as u128
    }

    fn from_bits(v: u128) -> (r: Self) {
        proof {
            lemma_pow256_values();
        }
        v as u64
    }
}

impl RegInt for u128 {
    open spec fn byte_width() -> nat {
        16
    }

    open spec fn bits(self) -> nat {
        self as nat
    }

    open spec fn signed() -> bool {
        false
    }

    proof fn lemma_byte_width() {
    }

    fn is_signed() -> (r: bool) {
        false
    }

    fn width_bytes() -> (n: usize) {
        16
    }

    fn to_bits(self) -> (r: u128) {
        proof {
            lemma_pow256_values();
        }
        self
    }

    fn from_bits(v: u128) -> (r: Self) {
        v
    }
}

impl RegInt for i8 {
    open spec fn byte_width() -> nat {
        1
    }

    open spec fn bits(self) -> nat {
        if self >= 0 {
            self as nat
        } else {
            (self + 0x100) as nat
        }
    }

    open spec fn signed() -> bool {
        true
    }

    proof fn lemma_byte_width() {
    }

    fn is_signed() -> (r: bool) {
        true
    }

    fn width_bytes() -> (n: usize) {
        1
    }

    fn to_bits(self) -> (r: u128) {
        proof {
            lemma_pow256_values();
        }
        let y = self as u8;
        assert(y as int == (if self >= 0 {
            self as int
        } else {
            self + 0x100
        })) by (bit_vector)
            requires
                y == self as u8,
        ;
        y as u128
    }

    fn from_bits(v: u128) -> (r: Self) {
        proof {
            lemma_pow256_values();
        }
        let y = v as u8;
        let r = y as i8;
        assert((if r >= 0 {
            r as int
        } else {
            r + 0x100
        }) == y) by (bit_vector)
            requires
                r == y as i8,
        ;
        r
    }
}

impl RegInt for i16 {
    open spec fn byte_width() -> nat {
        2
    }

    open spec fn bits(self) -> nat {
        if self >= 0 {
            self as nat
        } else {
            (self + 0x1_0000) as nat
        }
    }

    open spec fn signed() -> bool {
        true
    }

    proof fn lemma_byte_width() {
    }

    fn is_signed() -> (r: bool) {
        true
    }

    fn width_bytes() -> (n: usize) {
        2
    }

    fn to_bits(self) -> (r: u128) {
        proof {
            lemma_pow256_values();
        }
        let y = self as u16;
        assert(y as int == (if self >= 0 {
            self as int
        } else {
            self + 0x1_0000
        })) by (bit_vector)
            requires
                y == self as u16,
        ;
        y as u128
    }

    fn from_bits(v: u128) -> (r: Self) {
        proof {
            lemma_pow256_values();
        }
        let y = v as u16;
        let r = y as i16;
        assert((if r >= 0 {
            r as int
        } else {
            r + 0x1_0000
        }) == y) by (bit_vector)
            requires
                r == y as i16,
        ;
        r
    }
}

impl RegInt for i32 {
    open spec fn byte_width() -> nat {
        4
    }

    open spec fn bits(self) -> nat {
        if self >= 0 {
            self as nat
        } else {
            (self + 0x1_0000_0000) as nat
        }
    }

    open spec fn signed() -> bool {
        true
    }

    proof fn lemma_byte_width() {
    }

    fn is_signed() -> (r: bool) {
        true
    }

    fn width_bytes() -> (n: usize) {
        4
    }

    fn to_bits(self) -> (r: u128) {
        proof {
            lemma_pow256_values();
        }
        let y = self as u32;
        assert(y as int == (if self >= 0 {
            self as int
        } else {
            self + 0x1_0000_0000
        })) by (bit_vector)
            requires
                y == self as u32,
        ;
        y as u128
    }

    fn from_bits(v: u128) -> (r: Self) {
        proof {
            lemma_pow256_values();
        }
        let y = v as u32;
        let r = y as i32;
        assert((if r >= 0 {
            r as int
        } else {
            r + 0x1_0000_0000
        }) == y) by (bit_vector)
            requires
                r == y as i32,
        ;
        r
    }
}

impl RegInt for i64 {
    open spec fn byte_width() -> nat {
        8
    }

    open spec fn bits(self) -> nat {
        if self >= 0 {
            self as nat
        } else {
            (self + 0x1_0000_0000_0000_0000) as nat
        }
    }

    open spec fn signed() -> bool {
        true
    }

    proof fn lemma_byte_width() {
    }

    fn is_signed() -> (r: bool) {
        true
    }

    fn width_bytes() -> (n: usize) {
        8
    }

    fn to_bits(self) -> (r: u128) {
        proof {
            lemma_pow256_values();
        }
        let y = self as u64;
        assert(y as int == (if self >= 0 {
            self as int
        } else {
            self + 0x1_0000_0000_0000_0000
        })) by (bit_vector)
            requires
                y == self as u64,
        ;
        y as u128
    }

    fn from_bits(v: u128) -> (r: Self) {
        proof {
            lemma_pow256_values();
        }
        let y = v as u64;
        let r = y as i64;
        assert((if r >= 0 {
            r as int
        } else {
            r + 0x1_0000_0000_0000_0000
        }) == y) by (bit_vector)
            requires
                r == y as i64,
        ;
        r
    }
}

impl RegInt for i128 {
    open spec fn byte_width() -> nat {
        16
    }

    open spec fn bits(self) -> nat {
        if self >= 0 {
            self as nat
        } else {
            (self + 0x1_0000_0000_0000_0000_0000_0000_0000_0000) as nat
        }
    }

    open spec fn signed() -> bool {
        true
    }

    proof fn lemma_byte_width() {
    }

    fn is_signed() -> (r: bool) {
        true
    }

    fn width_bytes() -> (n: usize) {
        16
    }

    fn to_bits(self) -> (r: u128) {
        proof {
            lemma_pow256_values();
        }
        let y = self as u128;
        assert(y as int == (if self >= 0 {
            self as int
        } else {
            self + 0x1_0000_0000_0000_0000_0000_0000_0000_0000
        })) by (bit_vector)
            requires
                y == self as u128,
        ;
        y as u128
    }

    fn from_bits(v: u128) -> (r: Self) {
        proof {
            lemma_pow256_values();
        }
        let y = v as u128;
        let r = y as i128;
        assert((if r >= 0 {
            r as int
        } else {
            r + 0x1_0000_0000_0000_0000_0000_0000_0000_0000
        }) == y) by (bit_vector)
            requires
                r == y as i128,
        ;
        r
    }
}

/// Trait implemented by all register types.
///
/// SystemRDL guarantees that the access width is at most the register
/// width; both are powers of two bytes.
pub trait Register: Sized {
    /// Primitive integer type representing the size of the full register value.
    type Regwidth: RegInt;

    /// Primitive integer type representing the size of memory accesses used when
    /// reading/writing this register.
    type Accesswidth: RegInt;

    /// Access controls for this register.
    type Access: Access;

    /// Ordering of bytes within each accesswidth subword.
    type ByteEndian: Endian;

    /// Ordering of accesswidth subwords within the register.
    type WordEndian: Endian;

    /// The raw bit value of this register.
    ///
    /// A verified implementation defines it, as [`RawRegister`] does. An
    /// implementation outside Verus cannot name ghost types and keeps this
    /// default, which describes no real register: the contracts of this
    /// crate say nothing of such an implementation.
    open spec fn raw_bits(self) -> nat {
        0
    }

    /// Convert a raw bit value into a Register instance.
    fn from_raw(val: Self::Regwidth) -> (r: Self)
        ensures
            r.raw_bits() == val.bits(),
    ;

    /// Convert a Register instance into its raw bit value.
    fn to_raw(self) -> (r: Self::Regwidth)
        ensures
            r.bits() == self.raw_bits(),
    ;
}

/// A register that is nothing but its raw bits: register width `W`, access
/// width `AW`, access `A`, byte order `BE` and word order `WE`.
///
/// Register types with fields can hold one and read their fields from its
/// bits.
pub struct RawRegister<W: RegInt, AW: RegInt, A: Access, BE: Endian, WE: Endian> {
    bits: W,
    phantom: PhantomData<(AW, A, BE, WE)>,
}

impl<W: RegInt, AW: RegInt, A: Access, BE: Endian, WE: Endian> RawRegister<W, AW, A, BE, WE> {
    /// The register with raw bits `bits`.
    pub fn new(bits: W) -> (r: Self)
        ensures
            r.raw_bits() == bits.bits(),
    {
        RawRegister { bits, phantom: PhantomData }
    }

    /// The raw bits of the register.
    pub fn value(&self) -> (r: W)
        ensures
            r.bits() == self.raw_bits(),
    {
        self.bits
    }
}

impl<W: RegInt, AW: RegInt, A: Access, BE: Endian, WE: Endian> Clone for RawRegister<
    W,
    AW,
    A,
    BE,
    WE,
> {
    fn clone(&self) -> (r: Self)
        ensures
            r.raw_bits() == self.raw_bits(),
    {
        RawRegister { bits: self.bits, phantom: PhantomData }
    }
}

impl<W: RegInt, AW: RegInt, A: Access, BE: Endian, WE: Endian> Copy for RawRegister<
    W,
    AW,
    A,
    BE,
    WE,
> {

}

impl<W: RegInt, AW: RegInt, A: Access, BE: Endian, WE: Endian> Default for RawRegister<
    W,
    AW,
    A,
    BE,
    WE,
> {
    /// The register with every bit clear.
    fn default() -> (r: Self)
        ensures
            r.raw_bits() == 0,
    {
        proof {
            W::lemma_byte_width();
            crate::layout::lemma_pow256_pos(W::byte_width());
        }
        RawRegister { bits: W::from_bits(0), phantom: PhantomData }
    }
}

impl<W: RegInt, AW: RegInt, A: Access, BE: Endian, WE: Endian> Register for RawRegister<
    W,
    AW,
    A,
    BE,
    WE,
> {
    type Regwidth = W;

    type Accesswidth = AW;

    type Access = A;

    type ByteEndian = BE;

    type WordEndian = WE;

    closed spec fn raw_bits(self) -> nat {
        self.bits.bits()
    }

    fn from_raw(val: W) -> (r: Self) {
        RawRegister { bits: val, phantom: PhantomData }
    }

    fn to_raw(self) -> (r: W) {
        self.bits
    }
}

/// The register width in bytes.
pub open spec fn reg_bytes<R: Register>() -> nat {
    R::Regwidth::byte_width()
}

/// The access width in bytes.
pub open spec fn access_bytes<R: Register>() -> nat {
    R::Accesswidth::byte_width()
}

/// The access width is at most the register width.
pub open spec fn widths_valid<R: Register>() -> bool {
    access_bytes::<R>() <= reg_bytes::<R>()
}

/// The bytes, in address order, that hold the register value `v`.
pub open spec fn layout_of<R: Register>(v: nat) -> Seq<u8> {
    register_layout(
        v,
        reg_bytes::<R>(),
        access_bytes::<R>(),
        R::ByteEndian::byte_big(),
        R::WordEndian::word_big(),
    )
}

/// The register value held in memory `mem` at `addr`.
pub open spec fn value_at<R: Register>(mem: Seq<u8>, addr: nat) -> nat {
    register_value(
        mem.subrange(addr as int, (addr + reg_bytes::<R>()) as int),
        access_bytes::<R>(),
        R::ByteEndian::byte_big(),
        R::WordEndian::word_big(),
    )
}

/// Register abstraction used to read, write, and modify register values.
///
/// A `Reg` is the address of a register of type `R`; reads and writes go
/// through a [`RegisterIO`].
#[derive(Debug, PartialEq, Eq, Hash)]
pub struct Reg<R: Register> {
    ptr: usize,
    phantom: PhantomData<R>,
}

impl<R: Register> Clone for Reg<R> {
    fn clone(&self) -> (r: Self)
        ensures
            r.addr() == self.addr(),
    {
        Reg { ptr: self.ptr, phantom: PhantomData }
    }
}

impl<R: Register> Copy for Reg<R> {

}

impl<R: Register> Reg<R> {
    /// The address of the register.
    pub closed spec fn addr(&self) -> usize {
        self.ptr
    }

    /// A register of type `R` at address `ptr`.
    pub fn from_ptr(ptr: usize) -> (r: Self)
        ensures
            r.addr() == ptr,
    {
        Reg { ptr, phantom: PhantomData }
    }

    /// The address of the register.
    pub fn as_ptr(&self) -> (r: usize)
        ensures
            r == self.addr(),
    {
        self.ptr
    }
}

impl<R: Register> Reg<R> where R::Access: Read {
    /// Try to read a register value.
    ///
    /// If the register is to be modified (i.e., a read-modify-write), use the
    /// [`Reg::modify`] method instead.
    pub fn try_read<IO: RegisterIO>(&self, io: &mut IO) -> (r: Result<R, IO::Error>)
        requires
            widths_valid::<R>(),
            self.addr() + reg_bytes::<R>() <= old(io).memory().len(),
            self.addr() + reg_bytes::<R>() <= usize::MAX,
        ensures
            final(io).memory() == old(io).memory(),
            r matches Ok(v) ==> v.raw_bits() == value_at::<R>(old(io).memory(), self.addr() as nat),
            IO::infallible() ==> r is Ok,
    {
        io.try_read_register::<R>(self.ptr)
    }

    /// Read a register value.
    ///
    /// If the register is to be modified (i.e., a read-modify-write), use the
    /// [`Reg::modify`] method instead.
    pub fn read<IO: RegisterIO>(&self, io: &mut IO) -> (v: R)
        requires
            IO::infallible(),
            widths_valid::<R>(),
            self.addr() + reg_bytes::<R>() <= old(io).memory().len(),
            self.addr() + reg_bytes::<R>() <= usize::MAX,
        ensures
            final(io).memory() == old(io).memory(),
            v.raw_bits() == value_at::<R>(old(io).memory(), self.addr() as nat),
    {
        match self.try_read(io) {
            Ok(v) => v,
            Err(_) => {
                // unreachable: the transport never fails
                proof {
                    assert(false);
                }
                R::from_raw(R::Regwidth::from_bits(0))
            },
        }
    }
}

impl<R: Register> Reg<R> where R::Access: Write {
    /// Try to write a register value.
    ///
    /// Typically one would use [`Reg::try_write`] or [`Reg::try_modify`] to update a
    /// register's contents, but this method has a few different use cases such
    /// as updating a register with a stored value, or updating one register with
    /// the contents of another.
    pub fn try_write_value<IO: RegisterIO>(&self, io: &mut IO, val: R) -> (r: Result<(), IO::Error>)
        requires
            widths_valid::<R>(),
            self.addr() + reg_bytes::<R>() <= old(io).memory().len(),
            self.addr() + reg_bytes::<R>() <= usize::MAX,
        ensures
            final(io).memory().len() == old(io).memory().len(),
            r is Ok ==> final(io).memory() == written(
                old(io).memory(),
                self.addr() as nat,
                layout_of::<R>(val.raw_bits()),
            ),
            r is Err ==> interrupted_write(
                old(io).memory(),
                final(io).memory(),
                self.addr() as nat,
                layout_of::<R>(val.raw_bits()),
                access_bytes::<R>(),
            ),
            IO::infallible() ==> r is Ok,
    {
        io.try_write_register(self.ptr, val)
    }

    /// Write a register value.
    ///
    /// Typically one would use [`Reg::write`] or [`Reg::modify`] to update a
    /// register's contents, but this method has a few different use cases such
    /// as updating a register with a stored value, or updating one register with
    /// the contents of another.
    pub fn write_value<IO: RegisterIO>(&self, io: &mut IO, val: R)
        requires
            IO::infallible(),
            widths_valid::<R>(),
            self.addr() + reg_bytes::<R>() <= old(io).memory().len(),
            self.addr() + reg_bytes::<R>() <= usize::MAX,
        ensures
            final(io).memory() == written(
                old(io).memory(),
                self.addr() as nat,
                layout_of::<R>(val.raw_bits()),
            ),
    {
        let _ = self.try_write_value(io, val);
    }
}

impl<R: Register + Default> Reg<R> where R::Access: Write {
    /// Try to write a register.
    ///
    /// This method takes a closure. The input to the closure is a mutable reference
    /// to the default value of the register. It can be updated in the closure. The
    /// updated value is then written to the hardware register.
    pub fn try_write<T, IO: RegisterIO, F: FnOnce(&mut R) -> T>(&self, io: &mut IO, f: F) -> (r:
        Result<T, IO::Error>)
        requires
            forall|a: &mut R| call_requires(f, (a,)),
            widths_valid::<R>(),
            self.addr() + reg_bytes::<R>() <= old(io).memory().len(),
            self.addr() + reg_bytes::<R>() <= usize::MAX,
        ensures
            final(io).memory().len() == old(io).memory().len(),
            r matches Ok(res) ==> exists|d: R, a: &mut R|
                {
                    &&& call_ensures(R::default, (), d)
                    &&& *a == d
                    &&& call_ensures(f, (a,), res)
                    &&& final(io).memory() == written(
                        old(io).memory(),
                        self.addr() as nat,
                        layout_of::<R>(final(a).raw_bits()),
                    )
                },
            r is Err ==> exists|d: R, a: &mut R, res: T|
                {
                    &&& call_ensures(R::default, (), d)
                    &&& *a == d
                    &&& call_ensures(f, (a,), res)
                    &&& interrupted_write(
                        old(io).memory(),
                        final(io).memory(),
                        self.addr() as nat,
                        layout_of::<R>(final(a).raw_bits()),
                        access_bytes::<R>(),
                    )
                },
            IO::infallible() ==> r is Ok,
    {
        let mut val = R::default();
        let res = f(&mut val);
        match self.try_write_value(io, val) {
            Ok(()) => Ok(res),
            Err(e) => Err(e),
        }
    }

    /// Write a register.
    ///
    /// This method takes a closure. The input to the closure is a mutable reference
    /// to the default value of the register. It can be updated in the closure. The
    /// updated value is then written to the hardware register.
    pub fn write<T, IO: RegisterIO, F: FnOnce(&mut R) -> T>(&self, io: &mut IO, f: F) -> (res: T)
        requires
            IO::infallible(),
            forall|a: &mut R| call_requires(f, (a,)),
            widths_valid::<R>(),
            self.addr() + reg_bytes::<R>() <= old(io).memory().len(),
            self.addr() + reg_bytes::<R>() <= usize::MAX,
        ensures
            exists|d: R, a: &mut R|
                {
                    &&& call_ensures(R::default, (), d)
                    &&& *a == d
                    &&& call_ensures(f, (a,), res)
                    &&& final(io).memory() == written(
                        old(io).memory(),
                        self.addr() as nat,
                        layout_of::<R>(final(a).raw_bits()),
                    )
                },
    {
        let mut val = R::default();
        let res = f(&mut val);
        self.write_value(io, val);
        res
    }
}

impl<R: Register> Reg<R> where R::Access: Read + Write {
    /// Try to modify a register.
    ///
    /// This method takes a closure. The input to the closure is a mutable reference
    /// to the current value of the register. It can be updated in the closure. The
    /// updated value is then written back to the hardware register.
    pub fn try_modify<T, IO: RegisterIO, F: FnOnce(&mut R) -> T>(&self, io: &mut IO, f: F) -> (r:
        Result<T, IO::Error>)
        requires
            forall|a: &mut R| call_requires(f, (a,)),
            widths_valid::<R>(),
            self.addr() + reg_bytes::<R>() <= old(io).memory().len(),
            self.addr() + reg_bytes::<R>() <= usize::MAX,
        ensures
            final(io).memory().len() == old(io).memory().len(),
            r matches Ok(res) ==> exists|a: &mut R|
                {
                    &&& a.raw_bits() == value_at::<R>(old(io).memory(), self.addr() as nat)
                    &&& call_ensures(f, (a,), res)
                    &&& final(io).memory() == written(
                        old(io).memory(),
                        self.addr() as nat,
                        layout_of::<R>(final(a).raw_bits()),
                    )
                },
            r is Err ==> final(io).memory() == old(io).memory() || exists|a: &mut R, res: T|
                {
                    &&& a.raw_bits() == value_at::<R>(old(io).memory(), self.addr() as nat)
                    &&& call_ensures(f, (a,), res)
                    &&& interrupted_write(
                        old(io).memory(),
                        final(io).memory(),
                        self.addr() as nat,
                        layout_of::<R>(final(a).raw_bits()),
                        access_bytes::<R>(),
                    )
                },
            IO::infallible() ==> r is Ok,
    {
        let mut val = match self.try_read(io) {
            Ok(v) => v,
            Err(e) => {
                return Err(e);
            },
        };
        let res = f(&mut val);
        match self.try_write_value(io, val) {
            Ok(()) => Ok(res),
            Err(e) => Err(e),
        }
    }

    /// Modify a register.
    ///
    /// This method takes a closure. The input to the closure is a mutable reference
    /// to the current value of the register. It can be updated in the closure. The
    /// updated value is then written back to the hardware register.
    pub fn modify<T, IO: RegisterIO, F: FnOnce(&mut R) -> T>(&self, io: &mut IO, f: F) -> (res: T)
        requires
            IO::infallible(),
            forall|a: &mut R| call_requires(f, (a,)),
            widths_valid::<R>(),
            self.addr() + reg_bytes::<R>() <= old(io).memory().len(),
            self.addr() + reg_bytes::<R>() <= usize::MAX,
        ensures
            exists|a: &mut R|
                {
                    &&& a.raw_bits() == value_at::<R>(old(io).memory(), self.addr() as nat)
                    &&& call_ensures(f, (a,), res)
                    &&& final(io).memory() == written(
                        old(io).memory(),
                        self.addr() as nat,
                        layout_of::<R>(final(a).raw_bits()),
                    )
                },
    {
        let mut val = self.read(io);
        let res = f(&mut val);
        self.write_value(io, val);
        res
    }
}

/// A read gives back what a write wrote: after writing the register value
/// `v` at `addr`, the register value held at `addr` is `v`.
pub proof fn lemma_read_after_write<R: Register>(mem: Seq<u8>, addr: nat, v: nat)
    requires
        widths_valid::<R>(),
        addr + reg_bytes::<R>() <= mem.len(),
        v < pow256(reg_bytes::<R>()),
    ensures
        value_at::<R>(written(mem, addr, layout_of::<R>(v)), addr) == v,
{
    lemma_widths_ok::<R>();
    let r = reg_bytes::<R>();
    let lay = layout_of::<R>(v);
    assert(written(mem, addr, lay).subrange(addr as int, (addr + r) as int) =~= lay);
    lemma_register_value_of_layout(
        v,
        r,
        access_bytes::<R>(),
        R::ByteEndian::byte_big(),
        R::WordEndian::word_big(),
    );
}

/// Writing back the register value that was read leaves memory unchanged.
pub proof fn lemma_write_after_read<R: Register>(mem: Seq<u8>, addr: nat)
    requires
        widths_valid::<R>(),
        addr + reg_bytes::<R>() <= mem.len(),
    ensures
        written(mem, addr, layout_of::<R>(value_at::<R>(mem, addr))) == mem,
{
    lemma_widths_ok::<R>();
    let r = reg_bytes::<R>();
    let b = mem.subrange(addr as int, (addr + r) as int);
    lemma_layout_of_register_value(
        b,
        access_bytes::<R>(),
        R::ByteEndian::byte_big(),
        R::WordEndian::word_big(),
    );
    assert(written(mem, addr, layout_of::<R>(value_at::<R>(mem, addr))) =~= mem);
}

/// A register write touches only the register's own bytes.
pub proof fn lemma_write_is_local<R: Register>(mem: Seq<u8>, addr: nat, v: nat, k: int)
    requires
        widths_valid::<R>(),
        addr + reg_bytes::<R>() <= mem.len(),
        0 <= k < mem.len(),
        !(addr <= k < addr + reg_bytes::<R>()),
    ensures
        written(mem, addr, layout_of::<R>(v))[k] == mem[k],
        written(mem, addr, layout_of::<R>(v)).len() == mem.len(),
{
}

/// The register and access widths of a register type, as the layout
/// needs them.
pub proof fn lemma_widths_ok<R: Register>()
    requires
        widths_valid::<R>(),
    ensures
        widths_ok(reg_bytes::<R>(), access_bytes::<R>()),
        is_int_width(reg_bytes::<R>()),
        is_int_width(access_bytes::<R>()),
{
    R::Regwidth::lemma_byte_width();
    R::Accesswidth::lemma_byte_width();
    lemma_int_widths(reg_bytes::<R>(), access_bytes::<R>());
}

} // verus!
