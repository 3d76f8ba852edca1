//! Memory abstraction used to read, write, and iterate over memory entries
//!
//! A memory is a run of equally sized entries starting at an address; an
//! entry is read and written as one access with the memory's byte order.
use vstd::prelude::*;
use core::marker::PhantomData;
use crate::access::{Access, Read, Write};
use crate::endian::Endian;
use crate::io::RawRegisterIO;
use crate::layout::{
    is_int_width, lemma_word_layout_of_value, lemma_word_value_of_layout, pow256, word_layout,
    word_value, written,
};
use crate::reg::RegInt;

verus! {

/// One end of a range of memory indices.
#[derive(Debug, Clone, Copy, PartialEq, Eq)]
pub enum Bound {
    /// The end includes this index.
    Included(usize),
    /// The end excludes this index.
    Excluded(usize),
    /// The range extends to the end of the memory.
    Unbounded,
}

/// Size in bytes of an entry of memory `M`.
pub open spec fn entry_bytes<M: Memory>() -> nat {
    M::Memwidth::byte_width()
}

/// Every entry of memory `m` lies inside the address space.
pub open spec fn entries_fit<M: Memory>(m: &M) -> bool {
    m.first_entry_addr() + m.entry_count() * entry_bytes::<M>() <= usize::MAX
}

/// The address just past the entry of `m` at index `i`.
pub open spec fn entry_end<M: Memory>(m: &M, i: int) -> int {
    m.first_entry_addr() + (i + 1) * entry_bytes::<M>()
}

/// A memory fits the address space exactly when every one of its entries
/// ends inside it.
pub proof fn lemma_entries_fit_every_entry<M: Memory>(m: &M)
    ensures
        entries_fit(m) <==> forall|i: int|
            0 <= i < m.entry_count() ==> #[trigger] entry_end(m, i) <= usize::MAX,
{
    let n = m.entry_count() as int;
    let size = entry_bytes::<M>() as int;
    if entries_fit(m) {
        assert forall|i: int| 0 <= i < n implies #[trigger] entry_end(m, i) <= usize::MAX by {
            vstd::arithmetic::mul::lemma_mul_inequality(i + 1, n, size);
        }
    }
    if n > 0 && forall|i: int| 0 <= i < n ==> #[trigger] entry_end(m, i) <= usize::MAX {
        assert(entry_end(m, n - 1) <= usize::MAX);
        assert(entry_end(m, n - 1) == m.first_entry_addr() + n * size);
    }
    if n == 0 {
        assert(n * size == 0) by (nonlinear_arith)
            requires
                n == 0,
        ;
    }
}

/// Behaviors common to all SystemRDL memories
pub trait Memory: Sized {
    /// Primitive integer type used to represented a memory entry
    type Memwidth: RegInt;

    type Access: Access;

    type Endian: Endian;

    /// Address of the first entry.
    ///
    /// A verified implementation defines it, and the two below, as
    /// [`MemoryBlock`] does. An implementation outside Verus cannot name ghost
    /// types and keeps these defaults, which describe no real memory: the
    /// contracts of this module say nothing of such an implementation.
    open spec fn first_entry_addr(&self) -> usize {
        0
    }

    /// Number of entries.
    open spec fn entry_count(&self) -> nat {
        0
    }

    /// Bit width of each entry.
    open spec fn entry_width(&self) -> nat {
        0
    }

    /// Address of the first entry.
    fn first_entry_ptr(&self) -> (r: usize)
        ensures
            r == self.first_entry_addr(),
    ;

    /// Number of memory entries
    fn num_entries(&self) -> (r: usize)
        ensures
            r == self.entry_count(),
    ;

    /// Bit width of each memory entry
    fn width(&self) -> (r: usize)
        ensures
            r == self.entry_width(),
    ;
}

/// Indexing and iteration over the entries of a memory.
pub trait MemoryEntries: Memory {
    /// Access the memory entry at a specific index. Panics if out of bounds.
    fn index(&self, idx: usize) -> (r: MemEntry<Self>)
        requires
            entries_fit(self),
            idx < self.entry_count(),
        ensures
            r.addr() == self.first_entry_addr() + idx * entry_bytes::<Self>(),
    {
        let first = self.first_entry_ptr();
        let size = Self::Memwidth::width_bytes();
        proof {
            lemma_index_fits(first as nat, idx as nat, self.entry_count(), size as nat);
        }
        MemEntry::from_ptr(first + idx * size)
    }

    /// Iterate over a range of memory entries
    ///
    /// The range runs from `start` to `end`; it must hold at least one
    /// entry, and all its entries must be inside the memory.
    fn slice(&self, start: Bound, end: Bound) -> (r: MemEntryIter<Self>)
        requires
            entries_fit(self),
            slice_ok(start, end, self.entry_count()),
        ensures
            r.wf(),
            r@ == entry_addrs(
                (self.first_entry_addr() + slice_low(start) * entry_bytes::<Self>()) as nat,
                (slice_high(end, self.entry_count()) - slice_low(start) + 1) as nat,
                entry_bytes::<Self>(),
            ),
            forall|k: int|
                0 <= k < r@.len() ==> slice_low(start) + k < self.entry_count() && #[trigger] r@[k]
                    == (self.first_entry_addr() + (slice_low(start) + k) * entry_bytes::<
                    Self,
                >()) as usize,
    {
        let low_idx = match start {
            Bound::Included(idx) => idx,
            Bound::Excluded(idx) => idx + 1,
            Bound::Unbounded => 0,
        };
        let high_idx = match end {
            Bound::Included(idx) => idx,
            Bound::Excluded(idx) => idx - 1,
            Bound::Unbounded => self.num_entries() - 1,
        };
        proof {
            Self::Memwidth::lemma_byte_width();
            lemma_index_fits(
                self.first_entry_addr() as nat,
                high_idx as nat,
                self.entry_count(),
                entry_bytes::<Self>(),
            );
            vstd::arithmetic::mul::lemma_mul_increases(
                entry_bytes::<Self>() as int,
                high_idx as int + 1,
            );
            vstd::arithmetic::mul::lemma_mul_is_commutative(
                entry_bytes::<Self>() as int,
                high_idx as int + 1,
            );
        }
        let num_entries = high_idx - low_idx + 1;
        let next = self.index(low_idx);
        let size = Self::Memwidth::width_bytes();
        proof {
            lemma_slice_fits(
                self.first_entry_addr() as nat,
                low_idx as nat,
                high_idx as nat,
                size as nat,
            );
        }
        let r = MemEntryIter { next, remaining: num_entries };
        assert forall|k: int| 0 <= k < r@.len() implies slice_low(start) + k < self.entry_count()
            && #[trigger] r@[k] == (self.first_entry_addr() + (slice_low(start) + k) * entry_bytes::<
            Self,
        >()) as usize by {
            vstd::arithmetic::mul::lemma_mul_is_distributive_add(
                entry_bytes::<Self>() as int,
                low_idx as int,
                k,
            );
            vstd::arithmetic::mul::lemma_mul_is_commutative(entry_bytes::<Self>() as int, low_idx as int);
            vstd::arithmetic::mul::lemma_mul_is_commutative(entry_bytes::<Self>() as int, k);
            vstd::arithmetic::mul::lemma_mul_is_commutative(
                entry_bytes::<Self>() as int,
                low_idx + k,
            );
        }
        r
    }

    /// Iterate over all memory entries
    fn iter(&self) -> (r: MemEntryIter<Self>)
        requires
            entries_fit(self),
            self.entry_count() > 0,
        ensures
            r.wf(),
            r@ == entry_addrs(
                self.first_entry_addr() as nat,
                self.entry_count(),
                entry_bytes::<Self>(),
            ),
    {
        proof {
            lemma_index_fits(
                self.first_entry_addr() as nat,
                (self.entry_count() - 1) as nat,
                self.entry_count(),
                entry_bytes::<Self>(),
            );
        }
        self.slice(Bound::Unbounded, Bound::Unbounded)
    }
}

impl<M: Memory> MemoryEntries for M {}

/// Whether every entry of `m` lies inside the address space, as
/// [`MemoryEntries::index`] and [`MemoryEntries::slice`] need.
pub fn entries_fit_space<M: Memory>(m: &M) -> (r: bool)
    ensures
        r == entries_fit(m),
{
    let first = m.first_entry_ptr();
    let n = m.num_entries();
    let size = M::Memwidth::width_bytes();
    match n.checked_mul(size) {
        Some(bytes) => first.checked_add(bytes).is_some(),
        None => {
            proof {
                vstd::arithmetic::mul::lemma_mul_is_commutative(n as int, size as int);
            }
            false
        },
    }
}

/// Whether the range from `start` to `end` can be iterated in a memory of
/// `n` entries, as [`MemoryEntries::slice`] needs.
pub fn range_ok(start: Bound, end: Bound, n: usize) -> (r: bool)
    ensures
        r == slice_ok(start, end, n as nat),
{
    let low: Option<usize> = match start {
        Bound::Included(i) => Some(i),
        Bound::Excluded(i) => i.checked_add(1),
        Bound::Unbounded => Some(0),
    };
    let high: Option<usize> = match end {
        Bound::Included(i) => Some(i),
        Bound::Excluded(i) => i.checked_sub(1),
        Bound::Unbounded => n.checked_sub(1),
    };
    match (low, high) {
        (Some(l), Some(h)) => l <= h && h < n,
        _ => false,
    }
}

/// The first index of a range.
pub open spec fn slice_low(start: Bound) -> int {
    match start {
        Bound::Included(i) => i as int,
        Bound::Excluded(i) => i + 1,
        Bound::Unbounded => 0,
    }
}

/// The last index of a range, in a memory of `n` entries.
pub open spec fn slice_high(end: Bound, n: nat) -> int {
    match end {
        Bound::Included(i) => i as int,
        Bound::Excluded(i) => i - 1,
        Bound::Unbounded => n - 1,
    }
}

/// A range that can be iterated: its ends are machine integers, it is not
/// empty, and its first and last entries are inside the memory.
pub open spec fn slice_ok(start: Bound, end: Bound, n: nat) -> bool {
    &&& slice_low(start) <= usize::MAX
    &&& 0 <= slice_high(end, n)
    &&& slice_low(start) <= slice_high(end, n)
    &&& slice_high(end, n) < n
}

/// Which ranges can be iterated, in a memory of `n` entries, for each form
/// of their ends: exactly the ranges that hold an entry and end inside the
/// memory, with `Excluded` ends counted out and `Unbounded` ends reaching
/// the first or the last entry.
pub proof fn lemma_slice_ok_cases(l: usize, h: usize, n: nat)
    requires
        n <= usize::MAX,
    ensures
        slice_ok(Bound::Included(l), Bound::Included(h), n) <==> l <= h < n,
        slice_ok(Bound::Included(l), Bound::Excluded(h), n) <==> l < h <= n,
        slice_ok(Bound::Included(l), Bound::Unbounded, n) <==> l < n,
        slice_ok(Bound::Excluded(l), Bound::Included(h), n) <==> l < h < n,
        slice_ok(Bound::Excluded(l), Bound::Excluded(h), n) <==> l + 1 < h <= n,
        slice_ok(Bound::Excluded(l), Bound::Unbounded, n) <==> l + 1 < n,
        slice_ok(Bound::Unbounded, Bound::Included(h), n) <==> h < n,
        slice_ok(Bound::Unbounded, Bound::Excluded(h), n) <==> 0 < h <= n,
        slice_ok(Bound::Unbounded, Bound::Unbounded, n) <==> 0 < n,
{
}

/// The addresses of `count` entries of `size` bytes starting at `first`.
pub open spec fn entry_addrs(first: nat, count: nat, size: nat) -> Seq<usize> {
    Seq::new(count, |k: int| (first + k * size) as usize)
}

proof fn lemma_index_fits(first: nat, idx: nat, n: nat, size: nat)
    requires
        idx < n,
        first + n * size <= usize::MAX,
    ensures
        first + idx * size <= usize::MAX,
        first + (idx + 1) * size <= usize::MAX,
{
    vstd::arithmetic::mul::lemma_mul_inequality(idx as int + 1, n as int, size as int);
    vstd::arithmetic::mul::lemma_mul_inequality(idx as int, idx as int + 1, size as int);
}

proof fn lemma_slice_fits(first: nat, low: nat, high: nat, size: nat)
    requires
        low <= high,
        first + (high + 1) * size <= usize::MAX,
    ensures
        (first + low * size) + (high - low + 1) * size == first + (high + 1) * size,
{
    vstd::arithmetic::mul::lemma_mul_is_distributive_sub(size as int, high as int + 1, low as int);
    vstd::arithmetic::mul::lemma_mul_is_commutative(size as int, high as int + 1);
    vstd::arithmetic::mul::lemma_mul_is_commutative(size as int, low as int);
    vstd::arithmetic::mul::lemma_mul_is_commutative(size as int, (high - low + 1) as int);
}

/// Representation of a single memory entry
#[derive(Debug, PartialEq, Eq, Hash)]
pub struct MemEntry<M: Memory> {
    ptr: usize,
    phantom: PhantomData<M>,
}

impl<M: Memory> Clone for MemEntry<M> {
    fn clone(&self) -> (r: Self)
        ensures
            r.addr() == self.addr(),
    {
        MemEntry { ptr: self.ptr, phantom: PhantomData }
    }
}

impl<M: Memory> Copy for MemEntry<M> {

}

impl<M: Memory> MemEntry<M> {
    /// The address of the entry.
    pub closed spec fn addr(&self) -> usize {
        self.ptr
    }

    /// The entry of memory `M` at address `ptr`.
    pub fn from_ptr(ptr: usize) -> (r: Self)
        ensures
            r.addr() == ptr,
    {
        MemEntry { ptr, phantom: PhantomData }
    }

    /// The address of the entry.
    pub fn as_ptr(&self) -> (r: usize)
        ensures
            r == self.addr(),
    {
        self.ptr
    }
}

impl<M: Memory> MemEntry<M> where M::Access: Read {
    /// Read the value of the hardware memory entry.
    pub fn read<IO: RawRegisterIO>(&self, io: &mut IO) -> (r: M::Memwidth)
        requires
            IO::infallible(),
            self.addr() + entry_bytes::<M>() <= old(io).memory().len(),
        ensures
            final(io).memory() == old(io).memory(),
            r.bits() == word_value(
                old(io).memory().subrange(self.addr() as int, self.addr() + entry_bytes::<M>()),
                M::Endian::byte_big(),
            ),
    {
        let size = M::Memwidth::width_bytes();
        let bytes = match io.try_read(self.ptr, size) {
            Ok(bytes) => bytes,
            Err(_) => {
                // unreachable: the transport never fails
                proof {
                    assert(false);
                }
                Vec::new()
            },
        };
        proof {
            lemma_word_layout_of_value(bytes@, M::Endian::byte_big());
        }
        let value = M::Endian::from_register_endian(bytes.as_slice());
        M::Memwidth::from_bits(value)
    }
}

impl<M: Memory> MemEntry<M> where M::Access: Write {
    /// Write the provided value to the hardware memory entry.
    pub fn write<IO: RawRegisterIO>(&mut self, io: &mut IO, value: M::Memwidth)
        requires
            IO::infallible(),
            old(self).addr() + entry_bytes::<M>() <= old(io).memory().len(),
        ensures
            final(self).addr() == old(self).addr(),
            final(io).memory() == written(
                old(io).memory(),
                old(self).addr() as nat,
                word_layout(value.bits(), entry_bytes::<M>(), M::Endian::byte_big()),
            ),
    {
        let size = M::Memwidth::width_bytes();
        let bytes = M::Endian::to_register_endian(value.to_bits(), size);
        let _ = io.try_write(self.ptr, bytes.as_slice());
    }
}

/// A read of a memory entry gives back what a write to it wrote.
pub proof fn lemma_entry_read_after_write<M: Memory>(mem: Seq<u8>, addr: nat, v: nat)
    requires
        addr + entry_bytes::<M>() <= mem.len(),
        v < pow256(entry_bytes::<M>()),
    ensures
        word_value(
            written(mem, addr, word_layout(v, entry_bytes::<M>(), M::Endian::byte_big())).subrange(
                addr as int,
                (addr + entry_bytes::<M>()) as int,
            ),
            M::Endian::byte_big(),
        ) == v,
{
    let lay = word_layout(v, entry_bytes::<M>(), M::Endian::byte_big());
    assert(written(mem, addr, lay).subrange(addr as int, (addr + entry_bytes::<M>()) as int) =~= lay);
    lemma_word_value_of_layout(v, entry_bytes::<M>(), M::Endian::byte_big());
}

/// Iterator over memory entries
#[derive(Debug)]
pub struct MemEntryIter<M: Memory> {
    next: MemEntry<M>,
    remaining: usize,
}

impl<M: Memory> View for MemEntryIter<M> {
    type V = Seq<usize>;

    /// The addresses of the entries still to come, front first.
    closed spec fn view(&self) -> Seq<usize> {
        entry_addrs(self.next.ptr as nat, self.remaining as nat, entry_bytes::<M>())
    }
}

impl<M: Memory> MemEntryIter<M> {
    /// The entries still to come of a well-formed iterator have distinct
    /// addresses.
    pub proof fn lemma_entries_distinct(&self)
        requires
            self.wf(),
        ensures
            self@.no_duplicates(),
    {
        M::Memwidth::lemma_byte_width();
        lemma_entry_addrs_distinct(
            self.next.ptr as nat,
            self.remaining as nat,
            entry_bytes::<M>(),
        );
    }

    /// However `next` and `next_back` are mixed on a well-formed iterator,
    /// each entry still to come is yielded exactly once, the entries left
    /// are a contiguous part of them, and after as many calls as there were
    /// entries none is left.
    pub proof fn lemma_iteration_each_entry_once(&self, ops: Seq<bool>)
        requires
            self.wf(),
        ensures
            ({
                let s = self@;
                let (ys, l2, h2) = run_ends(s, 0, s.len() as int, ops);
                &&& 0 <= l2 <= h2 <= s.len()
                &&& ys.len() == s.len() - (h2 - l2)
                &&& ys.no_duplicates()
                &&& forall|k: int| 0 <= k < s.len() ==> (ys.contains(s[k]) <==> !(l2 <= k < h2))
                &&& ops.len() >= s.len() ==> l2 == h2
            }),
    {
        self.lemma_entries_distinct();
        lemma_each_entry_once(self@, 0, self@.len() as int, ops);
    }

    /// The entries still to come lie inside the address space.
    pub closed spec fn wf(&self) -> bool {
        self.next.ptr + self.remaining * entry_bytes::<M>() <= usize::MAX
    }

    /// The next entry from the front.
    pub fn next(&mut self) -> (r: Option<MemEntry<M>>)
        requires
            old(self).wf(),
        ensures
            final(self).wf(),
            old(self)@.len() == 0 ==> r is None && final(self)@ == old(self)@,
            old(self)@.len() > 0 ==> (r matches Some(e) && e.addr() == old(self)@[0]
                && final(self)@ == old(self)@.drop_first()),
    {
        if self.remaining == 0 {
            None
        } else {
            let size = M::Memwidth::width_bytes();
            proof {
                lemma_iter_step::<M>(self.next.ptr as nat, self.remaining as nat, size as nat);
            }
            self.remaining -= 1;
            let new_next = MemEntry::from_ptr(self.next.as_ptr() + size);
            let cur = MemEntry::from_ptr(self.next.as_ptr());
            self.next = new_next;
            Some(cur)
        }
    }

    /// Bounds on the number of entries still to come: exactly that number.
    pub fn size_hint(&self) -> (r: (usize, Option<usize>))
        ensures
            r.0 == self@.len(),
            r.1 == Some(r.0),
    {
        (self.remaining, Some(self.remaining))
    }

    /// The next entry from the back.
    pub fn next_back(&mut self) -> (r: Option<MemEntry<M>>)
        requires
            old(self).wf(),
        ensures
            final(self).wf(),
            old(self)@.len() == 0 ==> r is None && final(self)@ == old(self)@,
            old(self)@.len() > 0 ==> (r matches Some(e) && e.addr() == old(self)@.last()
                && final(self)@ == old(self)@.drop_last()),
    {
        if self.remaining == 0 {
            None
        } else {
            let size = M::Memwidth::width_bytes();
            proof {
                lemma_iter_step::<M>(self.next.ptr as nat, self.remaining as nat, size as nat);
            }
            self.remaining -= 1;
            Some(MemEntry::from_ptr(self.next.as_ptr() + self.remaining * size))
        }
    }
}

/// What a double-ended iterator yields, and which of its items are left,
/// when its items still to come are `s[l..h]` and `next` (`true`) and
/// `next_back` (`false`) are called in the order `ops`: `next` yields the
/// front item and leaves `l + 1 .. h`, `next_back` yields the back item and
/// leaves `l .. h - 1`, and once nothing is left every call yields nothing,
/// as the contracts of both iterators of this crate state.
pub open spec fn run_ends<A>(s: Seq<A>, l: int, h: int, ops: Seq<bool>) -> (Seq<A>, int, int)
    decreases ops.len(),
{
    if ops.len() == 0 || l >= h {
        (seq![], l, h)
    } else if ops[0] {
        let t = run_ends(s, l + 1, h, ops.drop_first());
        (seq![s[l]] + t.0, t.1, t.2)
    } else {
        let t = run_ends(s, l, h - 1, ops.drop_first());
        (seq![s[h - 1]] + t.0, t.1, t.2)
    }
}

/// One step of [`run_ends`] is one call: the items left, `s[l..h]`, lose
/// their front item to `next` and their back item to `next_back`, as the
/// contracts of the iterators' `next` (`drop_first`) and `next_back`
/// (`drop_last`) state.
pub proof fn lemma_run_ends_step<A>(s: Seq<A>, l: int, h: int)
    requires
        0 <= l < h <= s.len(),
    ensures
        s.subrange(l, h)[0] == s[l],
        s.subrange(l, h).drop_first() == s.subrange(l + 1, h),
        s.subrange(l, h).last() == s[h - 1],
        s.subrange(l, h).drop_last() == s.subrange(l, h - 1),
{
    assert(s.subrange(l, h).drop_first() =~= s.subrange(l + 1, h));
    assert(s.subrange(l, h).drop_last() =~= s.subrange(l, h - 1));
}

/// However calls to `next` and `next_back` are mixed, the items left are a
/// contiguous part `l2 .. h2` of the items there were, each item outside it
/// has been yielded exactly once, no item inside it has been, and after as
/// many calls as there were items, none is left.
pub proof fn lemma_each_entry_once<A>(s: Seq<A>, l: int, h: int, ops: Seq<bool>)
    requires
        0 <= l <= h <= s.len(),
        s.no_duplicates(),
    ensures
        ({
            let (ys, l2, h2) = run_ends(s, l, h, ops);
            &&& l <= l2 <= h2 <= h
            &&& ys.len() == (h - l) - (h2 - l2)
            &&& ys.no_duplicates()
            &&& forall|k: int| l <= k < h ==> (ys.contains(s[k]) <==> !(l2 <= k < h2))
            &&& forall|i: int|
                0 <= i < ys.len() ==> exists|k: int|
                    (l <= k < l2 || h2 <= k < h) && #[trigger] ys[i] == s[k]
            &&& ops.len() >= h - l ==> l2 == h2
        }),
    decreases ops.len(),
{
    if ops.len() == 0 || l >= h {
    } else {
        let front = ops[0];
        let (nl, nh) = if front {
            (l + 1, h)
        } else {
            (l, h - 1)
        };
        let taken = if front {
            l
        } else {
            h - 1
        };
        lemma_each_entry_once(s, nl, nh, ops.drop_first());
        let t = run_ends(s, nl, nh, ops.drop_first());
        let ys = seq![s[taken]] + t.0;
        assert(run_ends(s, l, h, ops) == (ys, t.1, t.2));
        let (l2, h2) = (t.1, t.2);
        assert forall|i: int| 0 <= i < t.0.len() implies #[trigger] t.0[i] != s[taken] by {
            let k = choose|k: int| (nl <= k < l2 || h2 <= k < nh) && #[trigger] t.0[i] == s[k];
            assert(k != taken);
        }
        assert(ys.no_duplicates()) by {
            assert forall|i: int, j: int|
                0 <= i < ys.len() && 0 <= j < ys.len() && i != j implies ys[i] != ys[j] by {
                if i == 0 {
                    assert(ys[j] == t.0[j - 1]);
                } else if j == 0 {
                    assert(ys[i] == t.0[i - 1]);
                } else {
                    assert(ys[i] == t.0[i - 1] && ys[j] == t.0[j - 1]);
                }
            }
        }
        assert forall|k: int| l <= k < h implies (ys.contains(s[k]) <==> !(l2 <= k < h2)) by {
            if k == taken {
                assert(ys[0] == s[k]);
            } else {
                if ys.contains(s[k]) {
                    let i = choose|i: int| 0 <= i < ys.len() && ys[i] == s[k];
                    assert(i != 0);
                    assert(t.0[i - 1] == s[k]);
                    assert(t.0.contains(s[k]));
                }
                if t.0.contains(s[k]) {
                    let i = choose|i: int| 0 <= i < t.0.len() && t.0[i] == s[k];
                    assert(ys[i + 1] == s[k]);
                }
            }
        }
        assert forall|i: int| 0 <= i < ys.len() implies exists|k: int|
            (l <= k < l2 || h2 <= k < h) && #[trigger] ys[i] == s[k] by {
            if i == 0 {
                assert(ys[0] == s[taken]);
            } else {
                assert(ys[i] == t.0[i - 1]);
                let k = choose|k: int| (nl <= k < l2 || h2 <= k < nh) && #[trigger] t.0[i - 1] == s[k];
                assert(ys[i] == s[k]);
            }
        }
    }
}

/// The addresses of entries of a positive size that fit the address space
/// are distinct.
pub proof fn lemma_entry_addrs_distinct(first: nat, count: nat, size: nat)
    requires
        size > 0,
        first + count * size <= usize::MAX,
    ensures
        entry_addrs(first, count, size).no_duplicates(),
{
    let s = entry_addrs(first, count, size);
    assert forall|i: int, j: int| 0 <= i < s.len() && 0 <= j < s.len() && i != j implies s[i]
        != s[j] by {
        vstd::arithmetic::mul::lemma_mul_inequality(i, count as int, size as int);
        vstd::arithmetic::mul::lemma_mul_inequality(j, count as int, size as int);
        if i < j {
            vstd::arithmetic::mul::lemma_mul_strict_inequality(i, j, size as int);
        } else {
            vstd::arithmetic::mul::lemma_mul_strict_inequality(j, i, size as int);
        }
    }
}

proof fn lemma_iter_step<M: Memory>(first: nat, remaining: nat, size: nat)
    requires
        remaining > 0,
        size == entry_bytes::<M>(),
        first + remaining * size <= usize::MAX,
    ensures
        first + size + (remaining - 1) * size == first + remaining * size,
        first + (remaining - 1) * size + size == first + remaining * size,
        entry_addrs(first, remaining, size).drop_first() == entry_addrs(
            first + size,
            (remaining - 1) as nat,
            size,
        ),
        entry_addrs(first, remaining, size).drop_last() == entry_addrs(
            first,
            (remaining - 1) as nat,
            size,
        ),
        entry_addrs(first, remaining, size).last() == (first + (remaining - 1) * size) as usize,
        entry_addrs(first, remaining, size)[0] == first as usize,
{
    vstd::arithmetic::mul::lemma_mul_is_distributive_add(size as int, remaining - 1, 1);
    vstd::arithmetic::mul::lemma_mul_is_commutative(size as int, remaining - 1);
    vstd::arithmetic::mul::lemma_mul_is_commutative(size as int, remaining as int);
    let s = entry_addrs(first, remaining, size);
    let t = entry_addrs(first + size, (remaining - 1) as nat, size);
    assert forall|k: int| 0 <= k < remaining - 1 implies s.drop_first()[k] == t[k] by {
        vstd::arithmetic::mul::lemma_mul_is_distributive_add(size as int, k, 1);
        vstd::arithmetic::mul::lemma_mul_is_commutative(size as int, k);
        vstd::arithmetic::mul::lemma_mul_is_commutative(size as int, k + 1);
    }
    assert(s.drop_first() =~= t);
    assert(s.drop_last() =~= entry_addrs(first, (remaining - 1) as nat, size));
}

/// A memory described by its first address, its number of entries and
/// the bit width of each entry.
pub struct MemoryBlock<W: RegInt, A: Access, E: Endian> {
    first: usize,
    count: usize,
    width: usize,
    phantom: PhantomData<(W, A, E)>,
}

impl<W: RegInt, A: Access, E: Endian> MemoryBlock<W, A, E> {
    /// The memory of `count` entries of `width` bits starting at `first`.
    pub fn new(first: usize, count: usize, width: usize) -> (r: Self)
        ensures
            r.first_entry_addr() == first,
            r.entry_count() == count,
            r.entry_width() == width,
    {
        MemoryBlock { first, count, width, phantom: PhantomData }
    }
}

impl<W: RegInt, A: Access, E: Endian> Memory for MemoryBlock<W, A, E> {
    type Memwidth = W;

    type Access = A;

    type Endian = E;

    closed spec fn first_entry_addr(&self) -> usize {
        self.first
    }

    closed spec fn entry_count(&self) -> nat {
        self.count as nat
    }

    closed spec fn entry_width(&self) -> nat {
        self.width as nat
    }

    fn first_entry_ptr(&self) -> (r: usize) {
        self.first
    }

    fn num_entries(&self) -> (r: usize) {
        self.count
    }

    fn width(&self) -> (r: usize) {
        self.width
    }
}

} // verus!
