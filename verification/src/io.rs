//! Traits for customizing the register I/O implementation
//!
//! A transport sees the register space as a run of bytes; a register is a
//! block of them, laid out by the register's endianness and access width.
use vstd::prelude::*;
use crate::access::{Read, Write};
use crate::endian::Endian;
use crate::layout::{
    is_int_width, le_value, lemma_bytes_of_le_value, lemma_pow256_mono, lemma_pow256_pos,
    lemma_pow256_values, significance, word_layout, word_value, lemma_int_widths,
    lemma_read_progress_end, lemma_read_progress_start, lemma_read_progress_step,
    lemma_significance_involution, lemma_word_layout_in_register, lemma_written_extend, pow256,
    read_progress, register_layout, widths_ok, written, unchanged_outside, interrupted_write, lemma_interrupted_at,
};
use crate::reg::{
    access_bytes, layout_of, reg_bytes, value_at, widths_valid, RegInt, Register,
};

verus! {

/// Raw register I/O trait
///
/// Types that implement this trait also automatically implement [`RegisterIO`].
///
/// Implementations behave like memory: a read gives back the bytes held at
/// the address and changes nothing; a successful write replaces exactly the
/// bytes written, and no write, failed or not, touches other bytes.
pub trait RawRegisterIO {
    /// The error type this register transport returns. For infallible transports
    /// (e.g., direct volatile pointer accesses), this should be [`core::convert::Infallible`].
    type Error;

    /// The register space, byte by byte, as this transport sees it.
    ///
    /// A verified implementation defines it, as [`MockIO`] does. An
    /// implementation outside Verus cannot name ghost types and keeps this
    /// default, which describes no real transport: the contracts of this
    /// module say nothing of such an implementation.
    open spec fn memory(&self) -> Seq<u8> {
        Seq::empty()
    }

    /// Whether every access through this transport succeeds.
    ///
    /// A verified implementation defines it; by default no success is
    /// promised.
    open spec fn infallible() -> bool {
        false
    }

    /// Try to read `width` bytes, in address order, starting at `addr`.
    fn try_read(&mut self, addr: usize, width: usize) -> (r: Result<Vec<u8>, Self::Error>)
        requires
            is_int_width(width as nat),
            addr + width <= old(self).memory().len(),
        ensures
            final(self).memory() == old(self).memory(),
            r matches Ok(b) ==> b@ == old(self).memory().subrange(addr as int, addr + width),
            Self::infallible() ==> r is Ok,
    ;

    /// Try to write `bytes`, in address order, starting at `addr`.
    fn try_write(&mut self, addr: usize, bytes: &[u8]) -> (r: Result<(), Self::Error>)
        requires
            is_int_width(bytes@.len()),
            addr + bytes@.len() <= old(self).memory().len(),
        ensures
            final(self).memory().len() == old(self).memory().len(),
            r is Ok ==> final(self).memory() == written(old(self).memory(), addr as nat, bytes@),
            unchanged_outside(
                old(self).memory(),
                final(self).memory(),
                addr as int,
                addr + bytes@.len(),
            ),
            Self::infallible() ==> r is Ok,
    ;
}

/// Register I/O
///
/// Register accesses are performed through implementers of this trait. This trait's
/// methods handle details like endianness, multi-word writes, etc.
///
/// Most user I/O interfaces should simply implement the [`RawRegisterIO`] trait, since a
/// blanket implementation exists for all implementers of [`RawRegisterIO`].
pub trait RegisterIO {
    type Error;

    /// The register space, byte by byte, as this transport sees it.
    ///
    /// A verified implementation defines it, as [`MockIO`] does. An
    /// implementation outside Verus cannot name ghost types and keeps this
    /// default, which describes no real transport: the contracts of this
    /// module say nothing of such an implementation.
    open spec fn memory(&self) -> Seq<u8> {
        Seq::empty()
    }

    /// Whether every access through this transport succeeds.
    ///
    /// A verified implementation defines it; by default no success is
    /// promised.
    open spec fn infallible() -> bool {
        false
    }

    /// Read a register value
    ///
    /// This method must respect the register's endianness and accesswidth,
    /// as encoded in the generic [`Register`]'s associated types.
    fn try_read_register<R: Register>(&mut self, addr: usize) -> (r: Result<R, Self::Error>)
        where
            R::Access: Read,
        requires
            widths_valid::<R>(),
            addr + reg_bytes::<R>() <= old(self).memory().len(),
            addr + reg_bytes::<R>() <= usize::MAX,
        ensures
            final(self).memory() == old(self).memory(),
            r matches Ok(v) ==> v.raw_bits() == value_at::<R>(old(self).memory(), addr as nat),
            Self::infallible() ==> r is Ok,
    ;

    /// Write a register value
    ///
    /// This method must respect the register's endianness and accesswidth,
    /// as encoded in the generic [`Register`]'s associated types.
    fn try_write_register<R: Register>(&mut self, addr: usize, value: R) -> (r: Result<
        (),
        Self::Error,
    >)
        where
            R::Access: Write,
        requires
            widths_valid::<R>(),
            addr + reg_bytes::<R>() <= old(self).memory().len(),
            addr + reg_bytes::<R>() <= usize::MAX,
        ensures
            final(self).memory().len() == old(self).memory().len(),
            r is Ok ==> final(self).memory() == written(
                old(self).memory(),
                addr as nat,
                layout_of::<R>(value.raw_bits()),
            ),
            r is Err ==> interrupted_write(
                old(self).memory(),
                final(self).memory(),
                addr as nat,
                layout_of::<R>(value.raw_bits()),
                access_bytes::<R>(),
            ),
            Self::infallible() ==> r is Ok,
    ;
}

/// `256^k` as a machine integer.
fn pow256_u128(k: usize) -> (r: u128)
    requires
        k < 16,
    ensures
        r == pow256(k as nat),
{
    let mut r: u128 = 1;
    let mut j: usize = 0;
    while j < k
        invariant
            j <= k < 16,
            r == pow256(j as nat),
        decreases k - j,
    {
        proof {
            lemma_pow256_mono((j + 1) as nat, 15);
            lemma_pow256_values();
            assert(pow256(15) * 256 == pow256(16)) by {
                reveal_with_fuel(pow256, 17);
            }
        }
        r = r * 256;
        j += 1;
    }
    r
}

/// Register and access widths of a register type, in bytes.
fn register_widths<R: Register>() -> (r: (usize, usize))
    requires
        widths_valid::<R>(),
    ensures
        r.0 == reg_bytes::<R>(),
        r.1 == access_bytes::<R>(),
        is_int_width(r.0 as nat),
        is_int_width(r.1 as nat),
        widths_ok(r.0 as nat, r.1 as nat),
        r.0 / r.1 >= 1,
        (r.0 / r.1) * r.1 == r.0,
        r.0 / r.1 == 1 <==> r.0 == r.1,
        r.0 / r.1 > 1 ==> r.1 <= 8,
        r.0 <= 16,
{
    let regwidth = R::Regwidth::width_bytes();
    let accesswidth = R::Accesswidth::width_bytes();
    proof {
        lemma_int_widths(regwidth as nat, accesswidth as nat);
    }
    (regwidth, accesswidth)
}

/// What reading the word at address order `i` adds to the value read so
/// far, and that the sum fits.
proof fn lemma_read_step(
    b: Seq<u8>,
    a: usize,
    n: usize,
    bb: bool,
    wb: bool,
    i: usize,
    s: usize,
    raw: u128,
    subword: u128,
)
    requires
        widths_ok(b.len(), a as nat),
        b.len() <= 16,
        n == b.len() / (a as nat),
        n * a == b.len(),
        i < n,
        s == significance(wb, i as nat, n as nat),
        raw == le_value(read_progress(b, a as nat, bb, wb, i as nat)),
        subword == word_value(b.subrange((i * a) as int, (i * a + a) as int), bb),
    ensures
        s * a + a <= n * a,
        raw + subword * pow256((s * a) as nat) == le_value(
            read_progress(b, a as nat, bb, wb, (i + 1) as nat),
        ),
        raw + subword * pow256((s * a) as nat) < pow256(16),
{
    lemma_read_progress_step(b, a as nat, bb, wb, i as nat);
    lemma_mul_is_distributive_add_usize(a, i);
    lemma_significance_involution(wb, i as nat, n as nat);
    lemma_word_offset_bound_usize(s, n, a);
    vstd::arithmetic::mul::lemma_mul_is_commutative(subword as int, pow256((s * a) as nat) as int);
    lemma_pow256_mono(b.len(), 16);
}

/// The `a`-byte word at address order `i` of the layout of `v`, and that
/// it is computed without overflow.
proof fn lemma_write_step(v: u128, r: usize, a: usize, n: usize, bb: bool, wb: bool, i: usize, s: usize)
    requires
        widths_ok(r as nat, a as nat),
        r <= 16,
        a <= 8,
        n == r / a,
        n * a == r,
        i < n,
        s == significance(wb, i as nat, n as nat),
        v < pow256(r as nat),
    ensures
        s * a + a <= r,
        i * a + a <= r,
        (i + 1) * a == i * a + a,
        pow256((s * a) as nat) > 0,
        pow256(a as nat) > 0,
        pow256(a as nat) <= 0x1_0000_0000_0000_0000,
        word_layout((v as nat / pow256((s * a) as nat)) % pow256(a as nat), a as nat, bb) == register_layout(
            v as nat,
            r as nat,
            a as nat,
            bb,
            wb,
        ).subrange((i * a) as int, (i * a + a) as int),
{
    lemma_significance_involution(wb, i as nat, n as nat);
    lemma_word_offset_bound_usize(s, n, a);
    lemma_word_offset_bound_usize(i, n, a);
    lemma_mul_is_distributive_add_usize(a, i);
    lemma_pow256_values();
    lemma_pow256_pos((s * a) as nat);
    lemma_pow256_pos(a as nat);
    lemma_pow256_mono(a as nat, 8);
    lemma_word_layout_in_register(v as nat, i as nat, r as nat, a as nat, bb, wb);
}

impl<T: RawRegisterIO> RegisterIO for T {
    type Error = <T as RawRegisterIO>::Error;

    open spec fn memory(&self) -> Seq<u8> {
        RawRegisterIO::memory(self)
    }

    open spec fn infallible() -> bool {
        <T as RawRegisterIO>::infallible()
    }

    fn try_read_register<R: Register>(&mut self, addr: usize) -> (r: Result<R, Self::Error>)
        where
            R::Access: Read,
    {
        let (regwidth, accesswidth) = register_widths::<R>();
        let num_subwords = regwidth / accesswidth;
        let ghost mem = RawRegisterIO::memory(self);
        let ghost b = mem.subrange(addr as int, addr + regwidth);
        let ghost bb = R::ByteEndian::byte_big();
        let ghost wb = R::WordEndian::word_big();

        // Fast path: a single-word register is one access.
        if num_subwords == 1 {
            let subword = match self.try_read(addr, accesswidth) {
                Ok(bytes) => bytes,
                Err(e) => {
                    return Err(e);
                },
            };
            let raw = R::ByteEndian::from_register_endian(subword.as_slice());
            proof {
                assert(subword@ =~= b);
                assert(b.subrange(0, accesswidth as int) =~= b);
                lemma_read_progress_start(b, accesswidth as nat, bb, wb);
                lemma_read_step(b, accesswidth, num_subwords, bb, wb, 0, 0, 0, raw);
                lemma_read_progress_end(b, accesswidth as nat, bb, wb);
                lemma_pow256_values();
                assert(raw * pow256(0) == raw);
                assert(raw == le_value(read_progress(b, accesswidth as nat, bb, wb, 1)));
                assert(raw == value_at::<R>(mem, addr as nat));
            }
            return Ok(R::from_raw(R::Regwidth::from_bits(raw)));
        }
        // read one subword at a time, starting at the lowest address

        let mut raw: u128 = 0;
        let mut i: usize = 0;
        proof {
            lemma_read_progress_start(b, accesswidth as nat, bb, wb);
        }
        while i < num_subwords
            invariant
                regwidth == reg_bytes::<R>(),
                accesswidth == access_bytes::<R>(),
                is_int_width(regwidth as nat),
                is_int_width(accesswidth as nat),
                widths_ok(regwidth as nat, accesswidth as nat),
                regwidth <= 16,
                num_subwords == regwidth / accesswidth,
                num_subwords * accesswidth == regwidth,
                bb == R::ByteEndian::byte_big(),
                wb == R::WordEndian::word_big(),
                addr + regwidth <= mem.len(),
                addr + regwidth <= usize::MAX,
                mem == RawRegisterIO::memory(&*old(self)),
                RawRegisterIO::memory(self) == mem,
                b == mem.subrange(addr as int, addr + regwidth),
                i <= num_subwords,
                raw == le_value(read_progress(b, accesswidth as nat, bb, wb, i as nat)),
            decreases num_subwords - i,
        {
            proof {
                lemma_mul_is_distributive_add_usize(accesswidth, i);
                lemma_word_offset_bound_usize(i, num_subwords, accesswidth);
            }
            let offset = i * accesswidth;
            let bytes = match self.try_read(addr + offset, accesswidth) {
                Ok(bytes) => bytes,
                Err(e) => {
                    return Err(e);
                },
            };
            let significance = R::WordEndian::address_order_to_significance(i, num_subwords);
            let subword = R::ByteEndian::from_register_endian(bytes.as_slice());
            proof {
                assert(bytes@ =~= b.subrange(offset as int, offset + accesswidth));
                lemma_read_step(b, accesswidth, num_subwords, bb, wb, i, significance, raw, subword);
                lemma_pow256_values();
            }
            let p = pow256_u128(significance * accesswidth);
            raw = raw + subword * p;
            i += 1;
        }
        proof {
            lemma_read_progress_end(b, accesswidth as nat, bb, wb);
            lemma_bytes_of_le_value(read_progress(b, accesswidth as nat, bb, wb, i as nat));
        }
        Ok(R::from_raw(R::Regwidth::from_bits(raw)))
    }

    fn try_write_register<R: Register>(&mut self, addr: usize, value: R) -> (r: Result<
        (),
        Self::Error,
    >)
        where
            R::Access: Write,
    {
        let (regwidth, accesswidth) = register_widths::<R>();
        let num_subwords = regwidth / accesswidth;
        let ghost v0 = value.raw_bits();
        let reg_bits = value.to_raw().to_bits();
        let ghost mem = RawRegisterIO::memory(self);
        let ghost bb = R::ByteEndian::byte_big();
        let ghost wb = R::WordEndian::word_big();
        let ghost lay = register_layout(reg_bits as nat, regwidth as nat, accesswidth as nat, bb, wb);

        // Fast path: a single-word register is one access.
        if num_subwords == 1 {
            let subword = R::ByteEndian::to_register_endian(reg_bits, accesswidth);
            proof {
                lemma_word_layout_in_register(reg_bits as nat, 0, regwidth as nat, accesswidth as nat, bb, wb);
                lemma_pow256_values();
                assert(reg_bits as nat / pow256(0) == reg_bits);
                vstd::arithmetic::div_mod::lemma_small_mod(reg_bits as nat, pow256(accesswidth as nat));
                assert(lay.subrange(0, accesswidth as int) =~= lay);
                assert(written(mem, addr as nat, lay.subrange(0, 0)) =~= mem);
            }
            let r = self.try_write(addr, subword.as_slice());
            proof {
                if r is Err {
                    assert(0 * accesswidth == 0);
                    assert(lay == layout_of::<R>(v0));
                    lemma_interrupted_at(mem, RawRegisterIO::memory(self), addr as nat, lay, accesswidth as nat, 0);
                }
            }
            return r;
        }
        // write one subword at a time, starting at the lowest address

        let mut i: usize = 0;
        proof {
            assert(written(mem, addr as nat, lay.subrange(0, 0)) =~= mem);
        }
        while i < num_subwords
            invariant
                regwidth == reg_bytes::<R>(),
                accesswidth == access_bytes::<R>(),
                is_int_width(accesswidth as nat),
                widths_ok(regwidth as nat, accesswidth as nat),
                regwidth <= 16,
                accesswidth <= 8,
                num_subwords == regwidth / accesswidth,
                num_subwords * accesswidth == regwidth,
                reg_bits < pow256(regwidth as nat),
                bb == R::ByteEndian::byte_big(),
                wb == R::WordEndian::word_big(),
                addr + regwidth <= mem.len(),
                addr + regwidth <= usize::MAX,
                mem == RawRegisterIO::memory(&*old(self)),
                lay == register_layout(reg_bits as nat, regwidth as nat, accesswidth as nat, bb, wb),
                reg_bits == v0,
                v0 == value.raw_bits(),
                lay.len() == regwidth,
                i <= num_subwords,
                RawRegisterIO::memory(self) == written(
                    mem,
                    addr as nat,
                    lay.subrange(0, (i * accesswidth) as int),
                ),
            decreases num_subwords - i,
        {
            let significance = R::WordEndian::address_order_to_significance(i, num_subwords);
            proof {
                lemma_write_step(reg_bits, regwidth, accesswidth, num_subwords, bb, wb, i, significance);
            }
            let shifted = reg_bits / pow256_u128(significance * accesswidth);
            let subword = shifted % pow256_u128(accesswidth);
            let subword = R::ByteEndian::to_register_endian(subword, accesswidth);
            let offset = i * accesswidth;
            proof {
                lemma_written_extend(mem, addr as nat, lay, offset as nat, (offset + accesswidth) as nat);
            }
            match self.try_write(addr + offset, subword.as_slice()) {
                Ok(()) => {},
                Err(e) => {
                    proof {
                        lemma_word_offset_bound_usize(i, num_subwords, accesswidth);
                        assert(lay == layout_of::<R>(v0));
                        lemma_interrupted_at(mem, RawRegisterIO::memory(self), addr as nat, lay, accesswidth as nat, i as nat);
                    }
                    return Err(e);
                },
            }
            i += 1;
        }
        proof {
            assert(lay.subrange(0, (i * accesswidth) as int) =~= lay);
        }
        Ok(())
    }
}

/// `a * i + a == a * (i + 1)`, and the offsets of the words stay in range.
proof fn lemma_mul_is_distributive_add_usize(a: usize, i: usize)
    ensures
        (i + 1) * a == i * a + a,
{
    vstd::arithmetic::mul::lemma_mul_is_distributive_add(a as int, i as int, 1);
    vstd::arithmetic::mul::lemma_mul_is_commutative(a as int, i as int);
    vstd::arithmetic::mul::lemma_mul_is_commutative(a as int, (i + 1) as int);
}

/// The byte offset of a word below `n` words of `a` bytes is at most
/// `n * a - a`.
proof fn lemma_word_offset_bound_usize(s: usize, n: usize, a: usize)
    requires
        s < n,
    ensures
        s * a + a <= n * a,
{
    vstd::arithmetic::mul::lemma_mul_inequality(s as int + 1, n as int, a as int);
    lemma_mul_is_distributive_add_usize(a, s);
}

/// Mocked [`RegisterIO`] implementation.
///
/// Implemented as an array of N bytes, register writes and reads
/// simply write to/from the internal array.
pub struct MockIO<const N: usize> {
    data: Vec<u8>,
}

impl<const N: usize> MockIO<N> {
    /// The array always holds `N` bytes.
    #[verifier::type_invariant]
    spec fn holds_n_bytes(self) -> bool {
        self.data@.len() == N
    }

    /// The number of bytes of the mocked register memory: always `N`.
    pub fn size(&self) -> (r: usize)
        ensures
            r == N,
            RawRegisterIO::memory(self).len() == N,
    {
        proof {
            use_type_invariant(self);
        }
        self.data.len()
    }

    /// Construct a new zeroed instance of the mocked register memory.
    pub fn new_zeroed() -> (r: Self)
        ensures
            RawRegisterIO::memory(&r) == Seq::new(N as nat, |i: int| 0u8),
    {
        let mut data: Vec<u8> = Vec::new();
        while data.len() < N
            invariant
                data@.len() <= N,
                data@ == Seq::new(data@.len(), |i: int| 0u8),
            decreases N - data@.len(),
        {
            data.push(0u8);
            assert(data@ =~= Seq::new(data@.len(), |i: int| 0u8));
        }
        MockIO { data }
    }

    /// Get the base register address of the instance (always 0).
    pub fn base_ptr(&self) -> (r: usize)
        ensures
            r == 0,
    {
        0
    }
}

impl<const N: usize> RawRegisterIO for MockIO<N> {
    type Error = core::convert::Infallible;

    closed spec fn memory(&self) -> Seq<u8> {
        self.data@
    }


    open spec fn infallible() -> bool {
        true
    }

    fn try_read(&mut self, addr: usize, width: usize) -> (r: Result<Vec<u8>, Self::Error>)
        ensures
            RawRegisterIO::memory(&*final(self)).len() == N,
    {
        proof {
            use_type_invariant(&*self);
        }
        let mut bytes: Vec<u8> = Vec::new();
        let len = self.data.len();
        let mut j: usize = 0;
        while j < width
            invariant
                addr + width <= self.data@.len(),
                len == self.data@.len(),
                j <= width,
                bytes@ == self.data@.subrange(addr as int, addr + j),
            decreases width - j,
        {
            bytes.push(self.data[addr + j]);
            j += 1;
            assert(bytes@ =~= self.data@.subrange(addr as int, addr + j));
        }
        Ok(bytes)
    }

    fn try_write(&mut self, addr: usize, bytes: &[u8]) -> (r: Result<(), Self::Error>)
        ensures
            RawRegisterIO::memory(&*final(self)).len() == N,
    {
        proof {
            use_type_invariant(&*self);
        }
        let ghost old_data = self.data@;
        let len = self.data.len();
        let mut j: usize = 0;
        while j < bytes.len()
            invariant
                addr + bytes@.len() <= old_data.len(),
                len == old_data.len(),
                old_data.len() == N,
                j <= bytes@.len(),
                self.data@ == written(old_data, addr as nat, bytes@.subrange(0, j as int)),
            decreases bytes@.len() - j,
        {
            self.data[addr + j] = bytes[j];
            j += 1;
            assert(self.data@ =~= written(old_data, addr as nat, bytes@.subrange(0, j as int)));
        }
        assert(bytes@.subrange(0, j as int) =~= bytes@);
        Ok(())
    }
}

} // verus!
