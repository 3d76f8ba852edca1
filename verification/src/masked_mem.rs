//! Traits and types for memory components whose entries may be narrower
//! than the integer that holds them: an entry keeps only its low `width`
//! bits, on every read and every write.
//!
//! The load or store of an entry is the caller's; this module says what
//! address an entry has and which bits of a value it keeps.
use vstd::prelude::*;
use core::marker::PhantomData;
use vstd::arithmetic::power2::{
    lemma2_to64, lemma_pow2_adds, lemma_pow2_pos, lemma_pow2_unfold, pow2,
};
use crate::access::Access;
use crate::layout::{is_int_width, lemma_pow256_values, pow256};
use crate::mem::Bound;
use crate::reg::RegInt;

verus! {

/// Behaviors common to all memories of this kind
pub trait Memory: Sized {
    /// Primitive integer type used to represented a memory entry
    type Memwidth: RegInt;

    type Access: Access;

    /// Address of the first entry.
    ///
    /// A verified implementation defines it, and the two below, as
    /// [`MaskedMemoryBlock`] does. An implementation outside Verus cannot name ghost
    /// types and keeps these defaults, which describe no real memory: the
    /// contracts of this module say nothing of such an implementation.
    open spec fn first_entry_addr(&self) -> usize {
        0
    }

    /// Number of entries.
    open spec fn entry_count(&self) -> nat {
        0
    }

    /// Bit width of each entry.
    open spec fn entry_width(&self) -> nat {
        0
    }

    /// Address of the first entry.
    fn first_entry_ptr(&self) -> (r: usize)
        ensures
            r == self.first_entry_addr(),
    ;

    /// Number of memory entries
    fn num_entries(&self) -> (r: usize)
        ensures
            r == self.entry_count(),
    ;

    /// Bit width of each memory entry
    fn width(&self) -> (r: usize)
        ensures
            r == self.entry_width(),
    ;
}

/// Size in bytes of an entry of memory `M`.
pub open spec fn entry_bytes<M: Memory>() -> nat {
    M::Memwidth::byte_width()
}

/// Every entry of memory `m` lies inside the address space.
pub open spec fn entries_fit<M: Memory>(m: &M) -> bool {
    m.first_entry_addr() + m.entry_count() * entry_bytes::<M>() <= usize::MAX
}

/// The address just past the entry of `m` at index `i`.
pub open spec fn entry_end<M: Memory>(m: &M, i: int) -> int {
    m.first_entry_addr() + (i + 1) * entry_bytes::<M>()
}

/// A memory fits the address space exactly when every one of its entries
/// ends inside it.
pub proof fn lemma_entries_fit_every_entry<M: Memory>(m: &M)
    ensures
        entries_fit(m) <==> forall|i: int|
            0 <= i < m.entry_count() ==> #[trigger] entry_end(m, i) <= usize::MAX,
{
    let n = m.entry_count() as int;
    let size = entry_bytes::<M>() as int;
    if entries_fit(m) {
        assert forall|i: int| 0 <= i < n implies #[trigger] entry_end(m, i) <= usize::MAX by {
            vstd::arithmetic::mul::lemma_mul_inequality(i + 1, n, size);
        }
    }
    if n > 0 && forall|i: int| 0 <= i < n ==> #[trigger] entry_end(m, i) <= usize::MAX {
        assert(entry_end(m, n - 1) <= usize::MAX);
        assert(entry_end(m, n - 1) == m.first_entry_addr() + n * size);
    }
    if n == 0 {
        assert(n * size == 0) by (nonlinear_arith)
            requires
                n == 0,
        ;
    }
}

/// The entry of `m` at index `idx`.
pub open spec fn entry_at<M: Memory>(m: &M, idx: nat) -> (usize, nat) {
    ((m.first_entry_addr() + idx * entry_bytes::<M>()) as usize, m.entry_width())
}

/// Indexing and iteration over the entries of a memory.
pub trait MemoryEntries: Memory {
    /// Access the memory entry at a specific index. Panics if out of bounds.
    fn index(&self, idx: usize) -> (r: MemEntry<Self::Memwidth, Self::Access>)
        requires
            entries_fit(self),
            idx < self.entry_count(),
        ensures
            (r.addr(), r.spec_width()) == entry_at(self, idx as nat),
    {
        let first = self.first_entry_ptr();
        let size = Self::Memwidth::width_bytes();
        proof {
            vstd::arithmetic::mul::lemma_mul_inequality(
                idx as int,
                self.entry_count() as int,
                size as int,
            );
        }
        MemEntry::from_ptr(first + idx * size, self.width())
    }

    /// Get an iterator over a range of memory entries
    ///
    /// Every entry of the range must be inside the memory.
    fn slice(&self, start: Bound, end: Bound) -> (r: MemEntryIter<'_, Self>)
        requires
            entries_fit(self),
            bounds_ok(start, end, self.entry_count()),
        ensures
            r.wf(),
            r.memory() == self,
            r.low() == crate::mem::slice_low(start),
            r.high() == crate::mem::slice_high(end, self.entry_count()),
            forall|k: int|
                0 <= k < r.indices().len() ==> 0 <= #[trigger] r.indices()[k] < self.entry_count(),
    {
        let low_idx = match start {
            Bound::Included(idx) => idx,
            Bound::Excluded(idx) => idx + 1,
            Bound::Unbounded => 0,
        };
        let high_idx = match end {
            Bound::Included(idx) => idx,
            Bound::Excluded(idx) => idx - 1,
            Bound::Unbounded => self.num_entries() - 1,
        };
        MemEntryIter { mem: self, low_idx, high_idx }
    }

    /// Get an iterator over all memory entries
    fn iter(&self) -> (r: MemEntryIter<'_, Self>)
        requires
            entries_fit(self),
            self.entry_count() > 0,
        ensures
            r.wf(),
            r.memory() == self,
            r.low() == 0,
            r.high() == self.entry_count() - 1,
    {
        self.slice(Bound::Unbounded, Bound::Unbounded)
    }
}

impl<M: Memory> MemoryEntries for M {}

/// Whether every entry of `m` lies inside the address space, as
/// [`MemoryEntries::index`] and [`MemoryEntries::slice`] need.
pub fn entries_fit_space<M: Memory>(m: &M) -> (r: bool)
    ensures
        r == entries_fit(m),
{
    let first = m.first_entry_ptr();
    let n = m.num_entries();
    let size = M::Memwidth::width_bytes();
    match n.checked_mul(size) {
        Some(bytes) => first.checked_add(bytes).is_some(),
        None => {
            proof {
                vstd::arithmetic::mul::lemma_mul_is_commutative(n as int, size as int);
            }
            false
        },
    }
}

/// Whether the range from `start` to `end` can be iterated in a memory of
/// `n` entries, as [`MemoryEntries::slice`] needs.
pub fn range_ok(start: Bound, end: Bound, n: usize) -> (r: bool)
    ensures
        r == bounds_ok(start, end, n as nat),
{
    let low: Option<usize> = match start {
        Bound::Included(i) => Some(i),
        Bound::Excluded(i) => i.checked_add(1),
        Bound::Unbounded => Some(0),
    };
    let high: Option<usize> = match end {
        Bound::Included(i) => Some(i),
        Bound::Excluded(i) => i.checked_sub(1),
        Bound::Unbounded => n.checked_sub(1),
    };
    match (low, high) {
        (Some(l), Some(h)) => l > h || h < n,
        _ => false,
    }
}

/// The ends of a range can be computed (an excluded start is below the
/// largest index, an excluded end is above zero, and an unbounded end is in
/// a memory with entries), and a range that is not empty ends inside the
/// memory.
pub open spec fn bounds_ok(start: Bound, end: Bound, n: nat) -> bool {
    &&& crate::mem::slice_low(start) <= usize::MAX
    &&& 0 <= crate::mem::slice_high(end, n)
    &&& crate::mem::slice_low(start) <= crate::mem::slice_high(end, n) ==> crate::mem::slice_high(
        end,
        n,
    ) < n
}

/// Which ranges can be sliced, in a memory of `n` entries, for each form of
/// their ends: the ends must be computable (an excluded start below the
/// largest index, an excluded end above zero, an unbounded end in a memory
/// with entries), and a range that holds an entry must end inside the
/// memory; an empty range is accepted.
pub proof fn lemma_bounds_ok_cases(l: usize, h: usize, n: nat)
    ensures
        bounds_ok(Bound::Included(l), Bound::Included(h), n) <==> (l <= h ==> h < n),
        bounds_ok(Bound::Included(l), Bound::Excluded(h), n) <==> 0 < h && (l < h ==> h <= n),
        bounds_ok(Bound::Included(l), Bound::Unbounded, n) <==> 0 < n,
        bounds_ok(Bound::Excluded(l), Bound::Included(h), n) <==> l < usize::MAX && (l < h ==> h < n),
        bounds_ok(Bound::Excluded(l), Bound::Excluded(h), n) <==> l < usize::MAX && 0 < h && (l + 1
            < h ==> h <= n),
        bounds_ok(Bound::Excluded(l), Bound::Unbounded, n) <==> l < usize::MAX && 0 < n,
        bounds_ok(Bound::Unbounded, Bound::Included(h), n) <==> h < n,
        bounds_ok(Bound::Unbounded, Bound::Excluded(h), n) <==> 0 < h <= n,
        bounds_ok(Bound::Unbounded, Bound::Unbounded, n) <==> 0 < n,
{
}

/// The mask of the low `width` bits.
pub open spec fn low_mask(width: nat) -> nat {
    (pow2(width) - 1) as nat
}

/// Whether an entry of `width` bits fits an integer of type `T` with room
/// for its mask: an unsigned entry may fill the whole integer, a signed one
/// leaves the sign bit and one more clear.
pub open spec fn width_fits<T: RegInt>(width: nat) -> bool {
    if T::signed() {
        width + 1 < 8 * T::byte_width()
    } else {
        width <= 8 * T::byte_width()
    }
}

/// Which widths an entry may have, for each integer type: an unsigned
/// entry up to the whole integer, a signed one up to two bits less, so
/// that its mask stays positive.
pub proof fn lemma_width_fits_cases(w: nat)
    ensures
        width_fits::<u8>(w) <==> w <= 8,
        width_fits::<u16>(w) <==> w <= 16,
        width_fits::<u32>(w) <==> w <= 32,
        width_fits::<u64>(w) <==> w <= 64,
        width_fits::<u128>(w) <==> w <= 128,
        width_fits::<i8>(w) <==> w <= 6,
        width_fits::<i16>(w) <==> w <= 14,
        width_fits::<i32>(w) <==> w <= 30,
        width_fits::<i64>(w) <==> w <= 62,
        width_fits::<i128>(w) <==> w <= 126,
{
}

/// Representation of a single memory entry
pub struct MemEntry<T: RegInt, A: Access> {
    ptr: usize,
    width: usize,
    phantom: PhantomData<(T, A)>,
}

impl<T: RegInt, A: Access> MemEntry<T, A> {
    /// The address of the entry.
    pub closed spec fn addr(&self) -> usize {
        self.ptr
    }

    /// The bit width of the entry.
    pub closed spec fn spec_width(&self) -> nat {
        self.width as nat
    }

    /// The entry of `width` bits at address `ptr`.
    pub fn from_ptr(ptr: usize, width: usize) -> (r: Self)
        ensures
            r.addr() == ptr,
            r.spec_width() == width,
    {
        MemEntry { ptr, width, phantom: PhantomData }
    }

    /// The address of the entry.
    pub fn as_ptr(&self) -> (r: usize)
        ensures
            r == self.addr(),
    {
        self.ptr
    }

    /// Bit width of the entry
    pub fn width(&self) -> (r: usize)
        ensures
            r == self.spec_width(),
    {
        self.width
    }

    /// Whether the entry's width fits its integer type with room for its
    /// mask, as [`Self::mask`] and [`Self::masked`] need.
    pub fn fits(&self) -> (r: bool)
        ensures
            r == width_fits::<T>(self.spec_width()),
    {
        let bits = 8 * T::width_bytes();
        if T::is_signed() {
            self.width < bits - 1
        } else {
            self.width <= bits
        }
    }

    /// The mask of the entry's bits.
    pub fn mask(&self) -> (r: T)
        requires
            width_fits::<T>(self.spec_width()),
        ensures
            r.bits() == low_mask(self.spec_width()),
    {
        proof {
            T::lemma_byte_width();
            lemma_pow2_width_bound::<T>(self.width as nat);
        }
        T::from_bits(low_mask_u128(self.width))
    }

    /// The value that the entry holds of `value`: its low `width` bits.
    /// A read gives this of the value loaded; a write stores this of the
    /// value given.
    pub fn masked(&self, value: T) -> (r: T)
        requires
            width_fits::<T>(self.spec_width()),
        ensures
            r.bits() == value.bits() % pow2(self.spec_width()),
    {
        let bits = value.to_bits();
        proof {
            lemma_pow2_pos(self.width as nat);
            T::lemma_byte_width();
            lemma_pow2_width_bound::<T>(self.width as nat);
        }
        if self.width == 8 * T::width_bytes() {
            // the entry fills the integer: every bit is kept
            proof {
                lemma_pow256_pow2(T::byte_width());
                vstd::arithmetic::div_mod::lemma_small_mod(bits as nat, pow2(self.width as nat));
            }
            return value;
        }
        let m = self.mask().to_bits();
        proof {
            lemma_pow2_bound(self.width as nat);
            vstd::arithmetic::div_mod::lemma_mod_bound(bits as int, pow2(self.width as nat) as int);
        }
        T::from_bits(bits % (m + 1))
    }
}

/// The low `width` bits set.
fn low_mask_u128(width: usize) -> (r: u128)
    requires
        width <= 128,
    ensures
        r == low_mask(width as nat),
{
    let mut m: u128 = 0;
    let mut j: usize = 0;
    proof {
        lemma2_to64();
    }
    while j < width
        invariant
            j <= width <= 128,
            m == low_mask(j as nat),
        decreases width - j,
    {
        proof {
            lemma_pow2_unfold((j + 1) as nat);
            lemma_pow2_pos(j as nat);
            lemma_pow2_bound((j + 1) as nat);
        }
        m = m * 2 + 1;
        j += 1;
    }
    m
}

/// `2^n` is at most `2^128` when `n <= 128`, and at most `2^127` when
/// `n < 128`.
proof fn lemma_pow2_bound(n: nat)
    requires
        n <= 128,
    ensures
        pow2(n) <= 0x1_0000_0000_0000_0000_0000_0000_0000_0000,
        n <= 127 ==> pow2(n) <= 0x8000_0000_0000_0000_0000_0000_0000_0000,
{
    lemma2_to64();
    vstd::arithmetic::power2::lemma2_to64_rest();
    lemma_pow2_adds(64, 63);
    lemma_pow2_adds(64, 64);
    if n < 127 {
        vstd::arithmetic::power2::lemma_pow2_strictly_increases(n, 127);
    }
    if n < 128 {
        vstd::arithmetic::power2::lemma_pow2_strictly_increases(n, 128);
    }
}

/// `256^n` is `2^(8n)`.
proof fn lemma_pow256_pow2(n: nat)
    ensures
        pow256(n) == pow2(8 * n),
    decreases n,
{
    if n == 0 {
        lemma2_to64();
    } else {
        lemma_pow256_pow2((n - 1) as nat);
        lemma2_to64();
        lemma_pow2_adds(8, 8 * (n - 1) as nat);
        assert(8 * n == 8 + 8 * (n - 1) as nat);
    }
}

/// A mask of `width` bits is a bit pattern of `T`, and fits in a `u128`.
proof fn lemma_pow2_width_bound<T: RegInt>(width: nat)
    requires
        width_fits::<T>(width),
        is_int_width(T::byte_width()),
    ensures
        width <= 128,
        width <= 8 * T::byte_width(),
        pow2(width) <= pow256(T::byte_width()),
        low_mask(width) < pow256(T::byte_width()),
{
    lemma_pow256_pow2(T::byte_width());
    lemma_pow2_pos(width);
    if width < 8 * T::byte_width() {
        vstd::arithmetic::power2::lemma_pow2_strictly_increases(width, 8 * T::byte_width());
    }
}

/// Iterator over memory entries
pub struct MemEntryIter<'a, M: Memory> {
    mem: &'a M,
    low_idx: usize,
    high_idx: usize,
}

impl<'a, M: Memory> MemEntryIter<'a, M> {
    /// The memory iterated over.
    pub closed spec fn memory(&self) -> &'a M {
        self.mem
    }

    /// The index of the next entry from the front.
    pub closed spec fn low(&self) -> int {
        self.low_idx as int
    }

    /// The index of the next entry from the back.
    pub closed spec fn high(&self) -> int {
        self.high_idx as int
    }

    /// The memory's entries fit the address space, and the entries still
    /// to come are inside the memory.
    pub open spec fn wf(&self) -> bool {
        &&& entries_fit(self.memory())
        &&& self.low() <= self.high() ==> self.high() < self.memory().entry_count()
    }

    /// The indices of the entries still to come, front first.
    pub open spec fn indices(&self) -> Seq<int> {
        if self.low() > self.high() {
            seq![]
        } else {
            Seq::new((self.high() - self.low() + 1) as nat, |k: int| self.low() + k)
        }
    }

    /// The indices of the entries still to come are distinct, so that
    /// [`crate::mem::lemma_each_entry_once`] applies to them.
    pub proof fn lemma_indices_distinct(&self)
        ensures
            self.indices().no_duplicates(),
    {
    }

    /// However `next` and `next_back` are mixed, each index still to come
    /// is yielded exactly once, the indices left are a contiguous part of
    /// them, and after as many calls as there were indices none is left.
    pub proof fn lemma_iteration_each_index_once(&self, ops: Seq<bool>)
        ensures
            ({
                let s = self.indices();
                let (ys, l2, h2) = crate::mem::run_ends(s, 0, s.len() as int, ops);
                &&& 0 <= l2 <= h2 <= s.len()
                &&& ys.len() == s.len() - (h2 - l2)
                &&& ys.no_duplicates()
                &&& forall|k: int| 0 <= k < s.len() ==> (ys.contains(s[k]) <==> !(l2 <= k < h2))
                &&& ops.len() >= s.len() ==> l2 == h2
            }),
    {
        self.lemma_indices_distinct();
        crate::mem::lemma_each_entry_once(self.indices(), 0, self.indices().len() as int, ops);
    }

    /// The next entry from the front.
    pub fn next(&mut self) -> (r: Option<MemEntry<M::Memwidth, M::Access>>)
        requires
            old(self).wf(),
        ensures
            final(self).wf(),
            final(self).memory() == old(self).memory(),
            old(self).indices().len() == 0 ==> r is None && *final(self) == *old(self),
            old(self).indices().len() > 0 ==> (r matches Some(e) && (e.addr(), e.spec_width())
                == entry_at(old(self).memory(), old(self).low() as nat) && final(self).indices()
                == old(self).indices().drop_first() && final(self).high() == old(self).high()),
    {
        if self.low_idx > self.high_idx {
            None
        } else {
            let entry = self.mem.index(self.low_idx);
            proof {
                M::Memwidth::lemma_byte_width();
                vstd::arithmetic::mul::lemma_mul_increases(
                    entry_bytes::<M>() as int,
                    self.mem.entry_count() as int,
                );
                vstd::arithmetic::mul::lemma_mul_is_commutative(
                    entry_bytes::<M>() as int,
                    self.mem.entry_count() as int,
                );
            }
            self.low_idx += 1;
            assert(self.indices() =~= old(self).indices().drop_first());
            Some(entry)
        }
    }

    /// Bounds on the number of entries still to come: exactly that number.
    pub fn size_hint(&self) -> (r: (usize, Option<usize>))
        requires
            self.indices().len() <= usize::MAX,
        ensures
            r.0 == self.indices().len(),
            r.1 == Some(r.0),
    {
        if self.low_idx > self.high_idx {
            (0, Some(0))
        } else {
            let len = self.high_idx - self.low_idx + 1;
            (len, Some(len))
        }
    }

    /// The next entry from the back.
    pub fn next_back(&mut self) -> (r: Option<MemEntry<M::Memwidth, M::Access>>)
        requires
            old(self).wf(),
        ensures
            final(self).wf(),
            final(self).memory() == old(self).memory(),
            old(self).indices().len() == 0 ==> r is None && *final(self) == *old(self),
            old(self).indices().len() > 0 ==> (r matches Some(e) && (e.addr(), e.spec_width())
                == entry_at(old(self).memory(), old(self).high() as nat) && final(self).indices()
                == old(self).indices().drop_last()),
    {
        if self.low_idx > self.high_idx {
            None
        } else {
            let entry = self.mem.index(self.high_idx);
            if self.high_idx > 0 {
                self.high_idx -= 1;
            } else {
                self.low_idx += 1;
            }
            assert(self.indices() =~= old(self).indices().drop_last());
            Some(entry)
        }
    }
}

/// A memory described by its first address, its number of entries and
/// the bit width of each entry.
pub struct MaskedMemoryBlock<W: RegInt, A: Access> {
    first: usize,
    count: usize,
    width: usize,
    phantom: PhantomData<(W, A)>,
}

impl<W: RegInt, A: Access> MaskedMemoryBlock<W, A> {
    /// The memory of `count` entries of `width` bits starting at `first`.
    pub fn new(first: usize, count: usize, width: usize) -> (r: Self)
        ensures
            r.first_entry_addr() == first,
            r.entry_count() == count,
            r.entry_width() == width,
    {
        MaskedMemoryBlock { first, count, width, phantom: PhantomData }
    }
}

impl<W: RegInt, A: Access> Memory for MaskedMemoryBlock<W, A> {
    type Memwidth = W;

    type Access = A;

    closed spec fn first_entry_addr(&self) -> usize {
        self.first
    }

    closed spec fn entry_count(&self) -> nat {
        self.count as nat
    }

    closed spec fn entry_width(&self) -> nat {
        self.width as nat
    }

    fn first_entry_ptr(&self) -> (r: usize) {
        self.first
    }

    fn num_entries(&self) -> (r: usize) {
        self.count
    }

    fn width(&self) -> (r: usize) {
        self.width
    }
}

} // verus!
