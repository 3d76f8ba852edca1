//! Register reads, writes and modifies through the mock transport.
use peakrdl_rust::access::{R, RW};
use peakrdl_rust::endian::{BigEndian, LittleEndian, WordBigByteLittleEndian, WordLittleByteBigEndian};
use peakrdl_rust::io::{MockIO, RawRegisterIO, RegisterIO};
use peakrdl_rust::reg::{Reg, Register};

/// A 32-bit register with a 16-bit field at bit 0.
#[derive(Clone, Copy, Debug, PartialEq)]
struct BasicregB(u32);

impl Default for BasicregB {
    fn default() -> Self {
        BasicregB(0)
    }
}

impl BasicregB {
    fn basicfield_c(&self) -> u16 {
        (self.0 & 0xffff) as u16
    }
    fn set_basicfield_c(&mut self, val: u16) {
        self.0 = (self.0 & !0xffff) | (val as u32);
    }
}

impl Register for BasicregB {
    type Regwidth = u32;
    type Accesswidth = u32;
    type Access = RW;
    type ByteEndian = LittleEndian;
    type WordEndian = LittleEndian;
    fn from_raw(val: u32) -> Self {
        BasicregB(val)
    }
    fn to_raw(self) -> u32 {
        self.0
    }
}

/// A 32-bit register with four 8-bit fields.
#[derive(Clone, Copy, Debug, PartialEq)]
struct BasicregE(u32);

impl Default for BasicregE {
    fn default() -> Self {
        BasicregE(0)
    }
}

impl BasicregE {
    fn field(&self, offset: u32) -> u8 {
        ((self.0 >> offset) & 0xff) as u8
    }
    fn set_field(&mut self, offset: u32, val: u8) {
        self.0 = (self.0 & !(0xff << offset)) | ((val as u32) << offset);
    }
    fn basicfield_h(&self) -> u8 {
        self.field(0)
    }
    fn basicfield_i(&self) -> u8 {
        self.field(8)
    }
    fn basicfield_j(&self) -> u8 {
        self.field(16)
    }
    fn basicfield_k(&self) -> u8 {
        self.field(24)
    }
    fn set_basicfield_h(&mut self, v: u8) {
        self.set_field(0, v)
    }
    fn set_basicfield_i(&mut self, v: u8) {
        self.set_field(8, v)
    }
    fn set_basicfield_j(&mut self, v: u8) {
        self.set_field(16, v)
    }
    fn set_basicfield_k(&mut self, v: u8) {
        self.set_field(24, v)
    }
}

impl Register for BasicregE {
    type Regwidth = u32;
    type Accesswidth = u16;
    type Access = RW;
    type ByteEndian = BigEndian;
    type WordEndian = BigEndian;
    fn from_raw(val: u32) -> Self {
        BasicregE(val)
    }
    fn to_raw(self) -> u32 {
        self.0
    }
}

/// An 8-bit register with a single-bit field.
#[derive(Clone, Copy, Debug, PartialEq)]
struct BasicregG(u8);

impl Default for BasicregG {
    fn default() -> Self {
        BasicregG(0)
    }
}

impl BasicregG {
    fn basicfield_s(&self) -> bool {
        self.0 & 1 != 0
    }
    fn set_basicfield_s(&mut self, v: bool) {
        self.0 = (self.0 & !1) | (v as u8);
    }
}

impl Register for BasicregG {
    type Regwidth = u8;
    type Accesswidth = u8;
    type Access = RW;
    type ByteEndian = LittleEndian;
    type WordEndian = LittleEndian;
    fn from_raw(val: u8) -> Self {
        BasicregG(val)
    }
    fn to_raw(self) -> u8 {
        self.0
    }
}

fn bytes(io: &mut MockIO<32>, addr: usize, n: usize) -> Vec<u8> {
    let mut out = Vec::new();
    for a in addr..addr + n {
        out.extend(RawRegisterIO::try_read(io, a, 1).unwrap());
    }
    out
}

#[test]
fn test_basic_access() {
    let mut memory: MockIO<32> = MockIO::new_zeroed();
    let base = memory.base_ptr();
    let basicreg_b = Reg::<BasicregB>::from_ptr(base);
    let basicreg_e = Reg::<BasicregE>::from_ptr(base + 4);
    let basicreg_g = Reg::<BasicregG>::from_ptr(base + 8);

    basicreg_b.write(&mut memory, |reg| {
        reg.set_basicfield_c(12345);
    });
    assert_eq!(basicreg_b.read(&mut memory).basicfield_c(), 12345);

    // test write
    basicreg_e.write(&mut memory, |reg| {
        reg.set_basicfield_h(1);
        reg.set_basicfield_i(0x55);
        reg.set_basicfield_j(0xAA);
        reg.set_basicfield_k(255);
    });
    // test read
    let e = basicreg_e.read(&mut memory);
    assert_eq!(e.basicfield_h(), 1);
    assert_eq!(e.basicfield_i(), 0x55);
    assert_eq!(e.basicfield_j(), 0xAA);
    assert_eq!(e.basicfield_k(), 255);
    // test modify
    basicreg_e.modify(&mut memory, |reg| {
        reg.set_basicfield_j(0x1C);
    });
    let e = basicreg_e.read(&mut memory);
    assert_eq!(e.basicfield_h(), 1);
    assert_eq!(e.basicfield_i(), 0x55);
    assert_eq!(e.basicfield_j(), 0x1C);
    assert_eq!(e.basicfield_k(), 255);

    // test single-bit access
    for val in [true, false, true] {
        basicreg_g.write(&mut memory, |reg| {
            reg.set_basicfield_s(val);
        });
        assert_eq!(basicreg_g.read(&mut memory).basicfield_s(), val);
    }
}

/// A register whose reset value has the field `hw_rw` at 0x55.
#[derive(Clone, Copy, Debug, PartialEq)]
struct HwReg(u8);

impl Default for HwReg {
    fn default() -> Self {
        HwReg(0x55)
    }
}

impl Register for HwReg {
    type Regwidth = u8;
    type Accesswidth = u8;
    type Access = RW;
    type ByteEndian = LittleEndian;
    type WordEndian = LittleEndian;
    fn from_raw(val: u8) -> Self {
        HwReg(val)
    }
    fn to_raw(self) -> u8 {
        self.0
    }
}

#[test]
fn test_hw_access_mode() {
    let mut memory: MockIO<32> = MockIO::new_zeroed();
    let hw_reg = Reg::<HwReg>::from_ptr(memory.base_ptr());

    // write default
    hw_reg.write(&mut memory, |_| {});

    // test "hardware" read/write
    assert_eq!(hw_reg.read(&mut memory).0, 0x55);
    hw_reg.write(&mut memory, |reg| {
        reg.0 = 0x89;
    });
    let readback = hw_reg.read(&mut memory);
    assert_eq!(readback.0, 0x89);
}

/// A software read-write register.
#[derive(Clone, Copy, Debug, PartialEq)]
struct SwReg(u8);

impl Default for SwReg {
    fn default() -> Self {
        SwReg(0)
    }
}

impl Register for SwReg {
    type Regwidth = u8;
    type Accesswidth = u8;
    type Access = RW;
    type ByteEndian = LittleEndian;
    type WordEndian = LittleEndian;
    fn from_raw(val: u8) -> Self {
        SwReg(val)
    }
    fn to_raw(self) -> u8 {
        self.0
    }
}

#[test]
fn test_sw_access_mode() {
    let mut memory: MockIO<32> = MockIO::new_zeroed();
    let sw_reg = Reg::<SwReg>::from_ptr(memory.base_ptr());

    // write default
    sw_reg.write(&mut memory, |_| {});

    // test software read/write
    assert_eq!(sw_reg.read(&mut memory).0, 0x00);
    sw_reg.write(&mut memory, |reg| {
        reg.0 = 0x12;
    });
    let readback = sw_reg.read(&mut memory);
    assert_eq!(readback.0, 0x12);
}

/// A read-only register with two fields.
#[derive(Clone, Copy, Debug, PartialEq)]
struct RoReg(u16);

impl Register for RoReg {
    type Regwidth = u16;
    type Accesswidth = u16;
    type Access = R;
    type ByteEndian = LittleEndian;
    type WordEndian = LittleEndian;
    fn from_raw(val: u16) -> Self {
        RoReg(val)
    }
    fn to_raw(self) -> u16 {
        self.0
    }
}

#[test]
fn test_read_only() {
    let mut memory: MockIO<32> = MockIO::new_zeroed();
    let sw_reg = Reg::<RoReg>::from_ptr(memory.base_ptr());

    let readback = sw_reg.read(&mut memory);
    assert_eq!(readback.0 & 0xff, 0x00);
    assert_eq!(readback.0 >> 8, 0x00);
}

/// The control register of the turbo encabulator: `reset` at bit 0,
/// `diractance` at bits 8..16.
#[derive(Clone, Copy, Debug, PartialEq)]
struct Ctrl(u32);

impl Default for Ctrl {
    fn default() -> Self {
        Ctrl(1)
    }
}

impl Ctrl {
    fn reset(&self) -> bool {
        self.0 & 1 != 0
    }
    fn set_reset(&mut self, v: bool) {
        self.0 = (self.0 & !1) | (v as u32);
    }
    fn diractance(&self) -> u8 {
        ((self.0 >> 8) & 0xff) as u8
    }
    fn set_diractance(&mut self, v: u8) {
        self.0 = (self.0 & !0xff00) | ((v as u32) << 8);
    }
}

impl Register for Ctrl {
    type Regwidth = u32;
    type Accesswidth = u32;
    type Access = RW;
    type ByteEndian = LittleEndian;
    type WordEndian = LittleEndian;
    fn from_raw(val: u32) -> Self {
        Ctrl(val)
    }
    fn to_raw(self) -> u32 {
        self.0
    }
}

/// The status register of the turbo encabulator.
#[derive(Clone, Copy, Debug, PartialEq)]
struct Status(u32);

impl Status {
    fn side_fumbling(&self) -> u16 {
        (self.0 & 0xffff) as u16
    }
    fn stator_rpm(&self) -> u16 {
        (self.0 >> 16) as u16
    }
}

impl Register for Status {
    type Regwidth = u32;
    type Accesswidth = u32;
    type Access = R;
    type ByteEndian = LittleEndian;
    type WordEndian = LittleEndian;
    fn from_raw(val: u32) -> Self {
        Status(val)
    }
    fn to_raw(self) -> u32 {
        self.0
    }
}

#[test]
fn test_read() {
    let mut memory: MockIO<32> = MockIO::new_zeroed();
    // Get a representation of the status register for the Turbo Encabulator
    let status_reg = Reg::<Status>::from_ptr(4);
    // Read the register, returning a newtype of its 32-bit value
    let status: Status = status_reg.read(&mut memory);
    // Access register fields from the previously read value
    let _side_fumbling: u16 = status.side_fumbling();
    let _stator_rpm: u16 = status.stator_rpm();
}

#[test]
fn test_modify() {
    let mut memory: MockIO<32> = MockIO::new_zeroed();
    let ctrl_reg = Reg::<Ctrl>::from_ptr(0);
    ctrl_reg.write(&mut memory, |ctrl| {
        ctrl.set_reset(false);
        ctrl.set_diractance(100);
    });

    // The `modify` method performs a read-modify-write access.
    ctrl_reg.modify(&mut memory, |ctrl: &mut Ctrl| {
        // The closure argument is the current value of the register
        assert_eq!(ctrl.reset(), false);
        assert_eq!(ctrl.diractance(), 100);
        // The value can be updated, and is then written back to hardware
        ctrl.set_reset(true)
    });
    // Read the value back to check its fields
    let ctrl_value = ctrl_reg.read(&mut memory);
    assert_eq!(ctrl_value.reset(), true);
    assert_eq!(ctrl_value.diractance(), 100);
}

#[test]
fn turboencabulator_test_memory() {}

#[test]
fn write_starts_from_the_default_value() {
    let mut memory: MockIO<32> = MockIO::new_zeroed();
    let ctrl_reg = Reg::<Ctrl>::from_ptr(0);
    let seen = ctrl_reg.write(&mut memory, |ctrl| {
        let before = ctrl.0;
        ctrl.set_diractance(7);
        before
    });
    assert_eq!(seen, 1);
    assert_eq!(ctrl_reg.read(&mut memory).0, 0x0701);
}

#[test]
fn modify_returns_what_the_closure_returns() {
    let mut memory: MockIO<32> = MockIO::new_zeroed();
    let ctrl_reg = Reg::<Ctrl>::from_ptr(8);
    ctrl_reg.write_value(&mut memory, Ctrl(0xdead_beef));
    let old = ctrl_reg.modify(&mut memory, |ctrl| {
        let old = ctrl.0;
        ctrl.0 = 0x1234_5678;
        old
    });
    assert_eq!(old, 0xdead_beef);
    assert_eq!(ctrl_reg.read(&mut memory).0, 0x1234_5678);
    assert_eq!(bytes(&mut memory, 8, 4), vec![0x78, 0x56, 0x34, 0x12]);
}

#[test]
fn modify_without_change_keeps_the_bytes() {
    let mut memory: MockIO<32> = MockIO::new_zeroed();
    let reg = Reg::<BasicregE>::from_ptr(4);
    reg.write_value(&mut memory, BasicregE(0x0102_0304));
    let before = bytes(&mut memory, 0, 32);
    reg.modify(&mut memory, |_| {});
    assert_eq!(bytes(&mut memory, 0, 32), before);
}

#[test]
fn write_touches_only_the_register() {
    let mut memory: MockIO<32> = MockIO::new_zeroed();
    Reg::<BasicregB>::from_ptr(0).write_value(&mut memory, BasicregB(0xffff_ffff));
    Reg::<BasicregB>::from_ptr(8).write_value(&mut memory, BasicregB(0xffff_ffff));
    Reg::<BasicregB>::from_ptr(4).write_value(&mut memory, BasicregB(0x0000_0000));
    assert_eq!(bytes(&mut memory, 0, 12), vec![0xff, 0xff, 0xff, 0xff, 0, 0, 0, 0, 0xff, 0xff, 0xff, 0xff]);
}

#[test]
fn try_read_and_try_write_succeed_on_the_mock() {
    let mut memory: MockIO<32> = MockIO::new_zeroed();
    let reg = Reg::<Ctrl>::from_ptr(12);
    assert!(reg.try_write_value(&mut memory, Ctrl(42)).is_ok());
    assert_eq!(reg.try_read(&mut memory).unwrap().0, 42);
    assert_eq!(reg.try_modify(&mut memory, |c| c.0 += 1).is_ok(), true);
    assert_eq!(reg.try_read(&mut memory).unwrap().0, 43);
    assert_eq!(reg.try_write(&mut memory, |c| c.0).unwrap(), 1);
    assert_eq!(reg.try_read(&mut memory).unwrap().0, 1);
}

#[test]
fn reg_address_round_trip() {
    let reg = Reg::<Ctrl>::from_ptr(0x40);
    assert_eq!(reg.as_ptr(), 0x40);
    assert_eq!(reg.clone().as_ptr(), 0x40);
}

