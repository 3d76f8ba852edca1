//! Byte layouts of wide registers accessed in narrower words.
use peakrdl_rust::access::RW;
use peakrdl_rust::endian::{BigEndian, LittleEndian, WordBigByteLittleEndian, WordLittleByteBigEndian};
use peakrdl_rust::io::{MockIO, RawRegisterIO};
use peakrdl_rust::reg::{Reg, Register};

fn bytes(io: &mut MockIO<64>, addr: usize, n: usize) -> Vec<u8> {
    RawRegisterIO::try_read(io, addr, n).unwrap()
}

/// A 32-bit register accessed in 16-bit words.
#[derive(Clone, Copy, Debug, PartialEq)]
struct R32A16BB(u32);

impl Register for R32A16BB {
    type Regwidth = u32;
    type Accesswidth = u16;
    type Access = RW;
    type ByteEndian = BigEndian;
    type WordEndian = BigEndian;
    fn from_raw(val: u32) -> Self {
        R32A16BB(val)
    }
    fn to_raw(self) -> u32 {
        self.0
    }
}

/// A 32-bit register accessed in 16-bit words.
#[derive(Clone, Copy, Debug, PartialEq)]
struct R32A16LL(u32);

impl Register for R32A16LL {
    type Regwidth = u32;
    type Accesswidth = u16;
    type Access = RW;
    type ByteEndian = LittleEndian;
    type WordEndian = LittleEndian;
    fn from_raw(val: u32) -> Self {
        R32A16LL(val)
    }
    fn to_raw(self) -> u32 {
        self.0
    }
}

/// A 32-bit register accessed in 16-bit words.
#[derive(Clone, Copy, Debug, PartialEq)]
struct R32A16WbBl(u32);

impl Register for R32A16WbBl {
    type Regwidth = u32;
    type Accesswidth = u16;
    type Access = RW;
    type ByteEndian = WordBigByteLittleEndian;
    type WordEndian = WordBigByteLittleEndian;
    fn from_raw(val: u32) -> Self {
        R32A16WbBl(val)
    }
    fn to_raw(self) -> u32 {
        self.0
    }
}

/// A 32-bit register accessed in 16-bit words.
#[derive(Clone, Copy, Debug, PartialEq)]
struct R32A16WlBb(u32);

impl Register for R32A16WlBb {
    type Regwidth = u32;
    type Accesswidth = u16;
    type Access = RW;
    type ByteEndian = WordLittleByteBigEndian;
    type WordEndian = WordLittleByteBigEndian;
    fn from_raw(val: u32) -> Self {
        R32A16WlBb(val)
    }
    fn to_raw(self) -> u32 {
        self.0
    }
}

/// A 32-bit register accessed in 16-bit words.
#[derive(Clone, Copy, Debug, PartialEq)]
struct R32A16BbWl(u32);

impl Register for R32A16BbWl {
    type Regwidth = u32;
    type Accesswidth = u16;
    type Access = RW;
    type ByteEndian = BigEndian;
    type WordEndian = LittleEndian;
    fn from_raw(val: u32) -> Self {
        R32A16BbWl(val)
    }
    fn to_raw(self) -> u32 {
        self.0
    }
}

/// A 32-bit register accessed in 16-bit words.
#[derive(Clone, Copy, Debug, PartialEq)]
struct R32A16BlWb(u32);

impl Register for R32A16BlWb {
    type Regwidth = u32;
    type Accesswidth = u16;
    type Access = RW;
    type ByteEndian = LittleEndian;
    type WordEndian = BigEndian;
    fn from_raw(val: u32) -> Self {
        R32A16BlWb(val)
    }
    fn to_raw(self) -> u32 {
        self.0
    }
}

#[test]
fn layout_32_in_16_bb() {
    let mut io: MockIO<64> = MockIO::new_zeroed();
    let reg = Reg::<R32A16BB>::from_ptr(4);
    reg.write_value(&mut io, R32A16BB(0x1234_5678));
    assert_eq!(bytes(&mut io, 4, 4), vec![0x12, 0x34, 0x56, 0x78]);
    assert_eq!(reg.read(&mut io).0, 0x1234_5678);
}

#[test]
fn layout_32_in_16_ll() {
    let mut io: MockIO<64> = MockIO::new_zeroed();
    let reg = Reg::<R32A16LL>::from_ptr(4);
    reg.write_value(&mut io, R32A16LL(0x1234_5678));
    assert_eq!(bytes(&mut io, 4, 4), vec![0x78, 0x56, 0x34, 0x12]);
    assert_eq!(reg.read(&mut io).0, 0x1234_5678);
}

#[test]
fn layout_32_in_16_wbbl() {
    let mut io: MockIO<64> = MockIO::new_zeroed();
    let reg = Reg::<R32A16WbBl>::from_ptr(4);
    reg.write_value(&mut io, R32A16WbBl(0x1234_5678));
    assert_eq!(bytes(&mut io, 4, 4), vec![0x34, 0x12, 0x78, 0x56]);
    assert_eq!(reg.read(&mut io).0, 0x1234_5678);
}

#[test]
fn layout_32_in_16_wlbb() {
    let mut io: MockIO<64> = MockIO::new_zeroed();
    let reg = Reg::<R32A16WlBb>::from_ptr(4);
    reg.write_value(&mut io, R32A16WlBb(0x1234_5678));
    assert_eq!(bytes(&mut io, 4, 4), vec![0x56, 0x78, 0x12, 0x34]);
    assert_eq!(reg.read(&mut io).0, 0x1234_5678);
}

#[test]
fn layout_32_in_16_bbwl() {
    let mut io: MockIO<64> = MockIO::new_zeroed();
    let reg = Reg::<R32A16BbWl>::from_ptr(4);
    reg.write_value(&mut io, R32A16BbWl(0x1234_5678));
    assert_eq!(bytes(&mut io, 4, 4), vec![0x56, 0x78, 0x12, 0x34]);
    assert_eq!(reg.read(&mut io).0, 0x1234_5678);
}

#[test]
fn layout_32_in_16_blwb() {
    let mut io: MockIO<64> = MockIO::new_zeroed();
    let reg = Reg::<R32A16BlWb>::from_ptr(4);
    reg.write_value(&mut io, R32A16BlWb(0x1234_5678));
    assert_eq!(bytes(&mut io, 4, 4), vec![0x34, 0x12, 0x78, 0x56]);
    assert_eq!(reg.read(&mut io).0, 0x1234_5678);
}

/// A 128-bit register accessed in bytes, big-endian.
#[derive(Clone, Copy, Debug, PartialEq)]
struct Wide128(u128);

impl Register for Wide128 {
    type Regwidth = u128;
    type Accesswidth = u8;
    type Access = RW;
    type ByteEndian = BigEndian;
    type WordEndian = BigEndian;
    fn from_raw(val: u128) -> Self {
        Wide128(val)
    }
    fn to_raw(self) -> u128 {
        self.0
    }
}

/// A 128-bit register accessed in one access, little-endian.
#[derive(Clone, Copy, Debug, PartialEq)]
struct Single128(u128);

impl Register for Single128 {
    type Regwidth = u128;
    type Accesswidth = u128;
    type Access = RW;
    type ByteEndian = LittleEndian;
    type WordEndian = LittleEndian;
    fn from_raw(val: u128) -> Self {
        Single128(val)
    }
    fn to_raw(self) -> u128 {
        self.0
    }
}

/// A 64-bit register accessed in 32-bit words, words big, bytes little.
#[derive(Clone, Copy, Debug, PartialEq)]
struct Wide64(u64);

impl Register for Wide64 {
    type Regwidth = u64;
    type Accesswidth = u32;
    type Access = RW;
    type ByteEndian = WordBigByteLittleEndian;
    type WordEndian = WordBigByteLittleEndian;
    fn from_raw(val: u64) -> Self {
        Wide64(val)
    }
    fn to_raw(self) -> u64 {
        self.0
    }
}

/// A signed 16-bit register accessed in bytes, little-endian.
#[derive(Clone, Copy, Debug, PartialEq)]
struct Signed16(i16);

impl Register for Signed16 {
    type Regwidth = i16;
    type Accesswidth = u8;
    type Access = RW;
    type ByteEndian = LittleEndian;
    type WordEndian = LittleEndian;
    fn from_raw(val: i16) -> Self {
        Signed16(val)
    }
    fn to_raw(self) -> i16 {
        self.0
    }
}

#[test]
fn layout_128_in_bytes_big_endian() {
    let mut io: MockIO<64> = MockIO::new_zeroed();
    let reg = Reg::<Wide128>::from_ptr(16);
    let v: u128 = 0x0001_0203_0405_0607_0809_0a0b_0c0d_0e0f;
    reg.write_value(&mut io, Wide128(v));
    assert_eq!(bytes(&mut io, 16, 16), (0u8..16).collect::<Vec<u8>>());
    assert_eq!(reg.read(&mut io).0, v);
}

#[test]
fn layout_128_single_access_little_endian() {
    let mut io: MockIO<64> = MockIO::new_zeroed();
    let reg = Reg::<Single128>::from_ptr(32);
    let v: u128 = u128::MAX - 0xff;
    reg.write_value(&mut io, Single128(v));
    let mut expect = vec![0u8];
    expect.extend(std::iter::repeat(0xff).take(15));
    assert_eq!(bytes(&mut io, 32, 16), expect);
    assert_eq!(reg.read(&mut io).0, v);
}

#[test]
fn layout_64_words_big_bytes_little() {
    let mut io: MockIO<64> = MockIO::new_zeroed();
    let reg = Reg::<Wide64>::from_ptr(8);
    reg.write_value(&mut io, Wide64(0x0102_0304_0506_0708));
    assert_eq!(bytes(&mut io, 8, 8), vec![0x04, 0x03, 0x02, 0x01, 0x08, 0x07, 0x06, 0x05]);
    assert_eq!(reg.read(&mut io).0, 0x0102_0304_0506_0708);
}

#[test]
fn signed_register_round_trip() {
    let mut io: MockIO<64> = MockIO::new_zeroed();
    let reg = Reg::<Signed16>::from_ptr(0);
    reg.write_value(&mut io, Signed16(-2));
    assert_eq!(bytes(&mut io, 0, 2), vec![0xfe, 0xff]);
    assert_eq!(reg.read(&mut io).0, -2);
}

#[test]
fn read_decodes_bytes_already_in_memory() {
    let mut io: MockIO<64> = MockIO::new_zeroed();
    RawRegisterIO::try_write(&mut io, 40, &[0xaa, 0xbb, 0xcc, 0xdd]).unwrap();
    assert_eq!(Reg::<R32A16BB>::from_ptr(40).read(&mut io).0, 0xaabb_ccdd);
    assert_eq!(Reg::<R32A16LL>::from_ptr(40).read(&mut io).0, 0xddcc_bbaa);
    assert_eq!(Reg::<R32A16WbBl>::from_ptr(40).read(&mut io).0, 0xbbaa_ddcc);
    assert_eq!(Reg::<R32A16WlBb>::from_ptr(40).read(&mut io).0, 0xccdd_aabb);
}
