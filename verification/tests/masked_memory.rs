//! Memories whose entries keep only their low `width` bits.
use peakrdl_rust::access::RW;
use peakrdl_rust::masked_mem::{MemEntry, Memory, MemoryEntries};
use peakrdl_rust::mem::Bound;

/// A memory of 4 entries of 12 bits, held in `u16`s.
struct Narrow {
    base: usize,
}

impl Memory for Narrow {
    type Memwidth = u16;
    type Access = RW;
    fn first_entry_ptr(&self) -> usize {
        self.base
    }
    fn num_entries(&self) -> usize {
        4
    }
    fn width(&self) -> usize {
        12
    }
}

#[test]
fn entries_have_addresses_and_widths() {
    let mem = Narrow { base: 0x100 };
    let e = mem.index(3);
    assert_eq!(e.as_ptr(), 0x106);
    assert_eq!(e.width(), 12);
}

#[test]
fn mask_keeps_low_bits() {
    let e: MemEntry<u16, RW> = MemEntry::from_ptr(0, 12);
    assert_eq!(e.mask(), 0x0fff);
    assert_eq!(e.masked(0xabcd), 0x0bcd);
    let e: MemEntry<u64, RW> = MemEntry::from_ptr(0, 63);
    assert_eq!(e.mask(), 0x7fff_ffff_ffff_ffff);
    assert_eq!(e.masked(u64::MAX), 0x7fff_ffff_ffff_ffff);
    let e: MemEntry<i8, RW> = MemEntry::from_ptr(0, 4);
    assert_eq!(e.mask(), 0x0f);
    assert_eq!(e.masked(-1), 0x0f);
    let e: MemEntry<u8, RW> = MemEntry::from_ptr(0, 0);
    assert_eq!(e.mask(), 0);
}

fn addrs(mut it: peakrdl_rust::masked_mem::MemEntryIter<'_, Narrow>) -> Vec<usize> {
    let mut v = Vec::new();
    while let Some(e) = it.next() {
        v.push(e.as_ptr());
    }
    v
}

#[test]
fn iteration_forward_and_back() {
    let mem = Narrow { base: 0 };
    assert_eq!(addrs(mem.iter()), vec![0, 2, 4, 6]);
    let mut it = mem.iter();
    assert_eq!(it.size_hint(), (4, Some(4)));
    assert_eq!(it.next_back().unwrap().as_ptr(), 6);
    assert_eq!(it.next().unwrap().as_ptr(), 0);
    assert_eq!(it.size_hint(), (2, Some(2)));
    assert_eq!(addrs(it), vec![2, 4]);
}

#[test]
fn backward_iteration_down_to_index_zero() {
    let mem = Narrow { base: 0 };
    let mut it = mem.slice(Bound::Unbounded, Bound::Included(1));
    assert_eq!(it.next_back().unwrap().as_ptr(), 2);
    assert_eq!(it.next_back().unwrap().as_ptr(), 0);
    assert!(it.next_back().is_none());
    assert!(it.next().is_none());
    assert_eq!(it.size_hint(), (0, Some(0)));
}

#[test]
fn empty_and_partial_slices() {
    let mem = Narrow { base: 0 };
    assert_eq!(addrs(mem.slice(Bound::Excluded(1), Bound::Excluded(3))), vec![4]);
    assert_eq!(addrs(mem.slice(Bound::Included(2), Bound::Excluded(2))), Vec::<usize>::new());
    assert_eq!(addrs(mem.slice(Bound::Included(1), Bound::Unbounded)), vec![2, 4, 6]);
}
