//! Memories of equally sized entries, through the mock transport.
use peakrdl_rust::access::{R, RW, W};
use peakrdl_rust::endian::{BigEndian, LittleEndian};
use peakrdl_rust::io::{MockIO, RawRegisterIO};
use peakrdl_rust::mem::{Bound, MemEntry, Memory, MemoryEntries};

/// A memory of 5 entries of 64 bits.
struct Mem5x64RW {
    base: usize,
}

impl Memory for Mem5x64RW {
    type Memwidth = u64;
    type Access = RW;
    type Endian = LittleEndian;
    fn first_entry_ptr(&self) -> usize {
        self.base
    }
    fn num_entries(&self) -> usize {
        5
    }
    fn width(&self) -> usize {
        64
    }
}

/// A memory of 2 entries of 32 bits with the given access.
struct Mem2x32<A> {
    base: usize,
    phantom: core::marker::PhantomData<A>,
}

impl<A: peakrdl_rust::access::Access> Memory for Mem2x32<A> {
    type Memwidth = u32;
    type Access = A;
    type Endian = BigEndian;
    fn first_entry_ptr(&self) -> usize {
        self.base
    }
    fn num_entries(&self) -> usize {
        2
    }
    fn width(&self) -> usize {
        32
    }
}

#[test]
fn memories_test_memory() {
    let mut io: MockIO<64> = MockIO::new_zeroed();
    let mem = Mem5x64RW { base: 8 };
    assert_eq!(mem.num_entries(), 5);
    assert_eq!(mem.width(), 64);
    let mut first_entry = mem.index(0);
    first_entry.write(&mut io, 0x0123_4567_89ab_cdef);
    assert_eq!(first_entry.read(&mut io), 0x0123_4567_89ab_cdef);
}

fn collect(mut it: peakrdl_rust::mem::MemEntryIter<Mem5x64RW>) -> Vec<MemEntry<Mem5x64RW>> {
    let mut v = Vec::new();
    while let Some(e) = it.next() {
        v.push(e);
    }
    v
}

fn collect_back(mut it: peakrdl_rust::mem::MemEntryIter<Mem5x64RW>) -> Vec<MemEntry<Mem5x64RW>> {
    let mut v = Vec::new();
    while let Some(e) = it.next_back() {
        v.push(e);
    }
    v
}

#[test]
fn test_memory_iter() {
    let mut io: MockIO<64> = MockIO::new_zeroed();
    let mem = Mem5x64RW { base: 8 };
    for (i, mut entry) in collect(mem.iter()).into_iter().enumerate() {
        entry.write(&mut io, i as u64);
    }
    // forward iteration
    for (i, entry) in collect(mem.iter()).into_iter().enumerate() {
        assert_eq!(entry.read(&mut io), i as u64);
    }
    // backward iteration
    for (i, entry) in collect_back(mem.iter()).into_iter().enumerate() {
        assert_eq!(entry.read(&mut io), 4 - i as u64);
    }
    // forward slice
    for (i, entry) in collect(mem.slice(Bound::Included(2), Bound::Unbounded)).into_iter().enumerate() {
        assert_eq!(entry.read(&mut io), (i as u64) + 2);
    }
    // backward slice
    let back = collect_back(mem.slice(Bound::Unbounded, Bound::Excluded(4)));
    assert_eq!(back.len(), 4);
    for (i, entry) in back.into_iter().enumerate() {
        assert_eq!(entry.read(&mut io), 3 - i as u64);
    }
}

#[test]
fn test_memory_access() {
    let r: Mem2x32<R> = Mem2x32 { base: 0, phantom: core::marker::PhantomData };
    let w: Mem2x32<W> = Mem2x32 { base: 8, phantom: core::marker::PhantomData };
    let rw: Mem2x32<RW> = Mem2x32 { base: 16, phantom: core::marker::PhantomData };
    let _: MemEntry<Mem2x32<R>> = r.index(0);
    let _: MemEntry<Mem2x32<W>> = w.index(0);
    let _: MemEntry<Mem2x32<RW>> = rw.index(0);
}

#[test]
fn entry_addresses_and_byte_order() {
    let mut io: MockIO<64> = MockIO::new_zeroed();
    let rw: Mem2x32<RW> = Mem2x32 { base: 16, phantom: core::marker::PhantomData };
    let mut e = rw.index(1);
    assert_eq!(e.as_ptr(), 20);
    e.write(&mut io, 0x1122_3344);
    assert_eq!(RawRegisterIO::try_read(&mut io, 20, 4).unwrap(), vec![0x11, 0x22, 0x33, 0x44]);
    assert_eq!(e.read(&mut io), 0x1122_3344);
    assert_eq!(MemEntry::<Mem2x32<RW>>::from_ptr(20).read(&mut io), 0x1122_3344);
}

#[test]
fn iterator_sizes_and_ends() {
    let mem = Mem5x64RW { base: 0 };
    let mut it = mem.iter();
    assert_eq!(it.size_hint(), (5, Some(5)));
    assert_eq!(it.next().unwrap().as_ptr(), 0);
    assert_eq!(it.next_back().unwrap().as_ptr(), 32);
    assert_eq!(it.size_hint(), (3, Some(3)));
    assert_eq!(it.next_back().unwrap().as_ptr(), 24);
    assert_eq!(it.next().unwrap().as_ptr(), 8);
    assert_eq!(it.next().unwrap().as_ptr(), 16);
    assert!(it.next().is_none());
    assert!(it.next_back().is_none());
    assert_eq!(it.size_hint(), (0, Some(0)));
}

#[test]
fn slices_with_every_bound() {
    let mem = Mem5x64RW { base: 0 };
    let addrs = |it| collect(it).iter().map(|e| e.as_ptr()).collect::<Vec<usize>>();
    assert_eq!(addrs(mem.slice(Bound::Included(1), Bound::Included(3))), vec![8, 16, 24]);
    assert_eq!(addrs(mem.slice(Bound::Excluded(1), Bound::Excluded(4))), vec![16, 24]);
    assert_eq!(addrs(mem.slice(Bound::Unbounded, Bound::Included(0))), vec![0]);
    assert_eq!(addrs(mem.slice(Bound::Included(4), Bound::Unbounded)), vec![32]);
}
