//! Bring-up of the system clock of an STM32F1 microcontroller: from the
//! internal oscillator (HSI) to the PLL fed by the external one (HSE),
//! multiplied by nine.
//!
//! The register accesses themselves are left to the caller: [`ClockSetup`]
//! says which register to read or write next and is told what each read
//! returned.
use vstd::prelude::*;

verus! {

pub const RCC_CR_HSION: u32 = 1 << 0;
pub const RCC_CR_HSEON: u32 = 1 << 16;
pub const RCC_CR_HSERDY: u32 = 1 << 17;
pub const RCC_CR_PLLON: u32 = 1 << 24;
pub const RCC_CR_PLLRDY: u32 = 1 << 25;
pub const RCC_CFGR_SW_HSE: u32 = 1;
pub const RCC_CFGR_SW_PLL: u32 = 2;
pub const RCC_CFGR_PLLMULL9: u32 = 7 << 18;
pub const RCC_CFGR_PLLSRC: u32 = 1 << 16;
pub const RCC_CFGR_SWS_PLL: u32 = 8;
pub const FLASH_ACR_PRFTBE: u32 = 1 << 4;
pub const FLASH_ACR_LATENCY_1: u32 = 2 << 0;

/// `value` with the bits of `bits` set.
pub fn bit_set(value: u32, bits: u32) -> (r: u32)
    ensures
        r == value | bits,
{
    value | bits
}

/// `value` with the bits of `bits` cleared.
pub fn bit_clear(value: u32, bits: u32) -> (r: u32)
    ensures
        r == value & !bits,
{
    value & !bits
}

/// Setting bits sets exactly them and leaves the others alone; clearing
/// clears exactly them and leaves the others alone.
pub proof fn lemma_bit_ops(value: u32, bits: u32)
    by (bit_vector)
    ensures
        (value | bits) & bits == bits,
        (value | bits) & !bits == value & !bits,
        (value & !bits) & bits == 0,
        (value & !bits) & !bits == value & !bits,
{
}

/// Whatever the configuration register held, switching it over selects
/// the PLL as system clock (the two clock-switch bits read `10`).
pub proof fn lemma_switch_selects_pll(cfgr: u32)
    ensures
        ((cfgr | RCC_CFGR_SW_PLL) & !RCC_CFGR_SW_HSE) & 3u32 == 2u32,
        ((cfgr | RCC_CFGR_SW_PLL) & !RCC_CFGR_SW_HSE) & !3u32 == cfgr & !3u32,
{
    assert(((cfgr | 2u32) & !1u32) & 3u32 == 2u32) by (bit_vector);
    assert(((cfgr | 2u32) & !1u32) & !3u32 == cfgr & !3u32) by (bit_vector);
}

/// The registers the bring-up touches.
#[derive(PartialEq, Eq, Structural, Clone, Copy, Debug)]
pub enum Reg {
    RccCr,
    RccCfgr,
    FlashAcr,
}

/// What the caller does next.
#[derive(PartialEq, Eq, Structural, Clone, Copy, Debug)]
pub enum RegOp {
    Read(Reg),
    Write(Reg, u32),
    Done,
}

/// Progress of the bring-up: `step` counts the register accesses done,
/// `value` is what the last read returned.
pub struct ClockSetup {
    step: u8,
    value: u32,
}

/// The last step, after which the clock runs from the PLL.
pub open spec fn last_step() -> u8 {
    14
}

/// The access done at `step`, given the value the last read returned.
pub open spec fn op_at(step: u8, value: u32) -> RegOp {
    if step == 0 {
        RegOp::Read(Reg::RccCr)
    } else if step == 1 {
        RegOp::Write(Reg::RccCr, value | RCC_CR_HSEON)
    } else if step == 2 {
        RegOp::Read(Reg::RccCr)
    } else if step == 3 {
        RegOp::Write(Reg::FlashAcr, FLASH_ACR_PRFTBE | FLASH_ACR_LATENCY_1)
    } else if step == 4 {
        RegOp::Read(Reg::RccCfgr)
    } else if step == 5 {
        RegOp::Write(Reg::RccCfgr, value | (RCC_CFGR_SW_HSE | RCC_CFGR_PLLMULL9 | RCC_CFGR_PLLSRC))
    } else if step == 6 {
        RegOp::Read(Reg::RccCr)
    } else if step == 7 {
        RegOp::Write(Reg::RccCr, value | RCC_CR_PLLON)
    } else if step == 8 {
        RegOp::Read(Reg::RccCr)
    } else if step == 9 {
        RegOp::Read(Reg::RccCfgr)
    } else if step == 10 {
        RegOp::Write(Reg::RccCfgr, (value | RCC_CFGR_SW_PLL) & !RCC_CFGR_SW_HSE)
    } else if step == 11 {
        RegOp::Read(Reg::RccCfgr)
    } else if step == 12 {
        RegOp::Read(Reg::RccCr)
    } else if step == 13 {
        RegOp::Write(Reg::RccCr, value & !RCC_CR_HSION)
    } else {
        RegOp::Done
    }
}

/// The step after `step`, given what its access returned: the waits for
/// HSE ready, PLL ready and the switch to the PLL repeat until the status
/// bit is set.
pub open spec fn step_after(step: u8, read: u32) -> u8 {
    if step == 2 && read & RCC_CR_HSERDY == 0 {
        2
    } else if step == 8 && read & RCC_CR_PLLRDY == 0 {
        8
    } else if step == 11 && read & RCC_CFGR_SWS_PLL == 0 {
        11
    } else if step < last_step() {
        (step + 1) as u8
    } else {
        step
    }
}

/// The bring-up goes through its accesses in order: every access below the
/// last that is not one of the three waits (steps 2, 8 and 11) is followed
/// by the next one, whatever was read.  So each read of a read-modify-write
/// is followed by its write, the PLL-on write by the wait for PLL ready, and
/// the switch to the PLL by the wait for the switch.
pub proof fn law_in_order(step: u8, read: u32)
    requires
        step < 14,
        step != 2,
        step != 8,
        step != 11,
    ensures
        step_after(step, read) == step + 1,
{
}

/// Each register write of the bring-up, but the flash one, is a
/// read-modify-write: the access before it reads the register it writes,
/// and the value written is the value read with only its own bits changed
/// (HSE on; HSE as clock with PLL source and multiplier; PLL on; clock
/// switched from HSE to PLL; HSI off).
pub proof fn law_read_modify_write(step: u8, read: u32)
    ensures
        step == 1 ==> ({
            let x = written(op_at(1, read));
            &&& op_at(0, read) == RegOp::Read(Reg::RccCr)
            &&& op_at(1, read) == RegOp::Write(Reg::RccCr, x)
            &&& x & !RCC_CR_HSEON == read & !RCC_CR_HSEON
            &&& x & RCC_CR_HSEON != 0
        }),
        step == 3 ==> op_at(3, read) == RegOp::Write(Reg::FlashAcr, 0x12),
        step == 5 ==> ({
            let x = written(op_at(5, read));
            &&& op_at(4, read) == RegOp::Read(Reg::RccCfgr)
            &&& op_at(5, read) == RegOp::Write(Reg::RccCfgr, x)
            &&& x & !0x1d_0001u32 == read & !0x1d_0001u32
            &&& x & 0x1d_0001u32 == 0x1d_0001u32
        }),
        step == 7 ==> ({
            let x = written(op_at(7, read));
            &&& op_at(6, read) == RegOp::Read(Reg::RccCr)
            &&& op_at(7, read) == RegOp::Write(Reg::RccCr, x)
            &&& x & !RCC_CR_PLLON == read & !RCC_CR_PLLON
            &&& x & RCC_CR_PLLON != 0
        }),
        step == 10 ==> ({
            let x = written(op_at(10, read));
            &&& op_at(9, read) == RegOp::Read(Reg::RccCfgr)
            &&& op_at(10, read) == RegOp::Write(Reg::RccCfgr, x)
            &&& x & !3u32 == read & !3u32
            &&& x & 3u32 == 2
        }),
        step == 13 ==> ({
            let x = written(op_at(13, read));
            &&& op_at(12, read) == RegOp::Read(Reg::RccCr)
            &&& op_at(13, read) == RegOp::Write(Reg::RccCr, x)
            &&& x & !RCC_CR_HSION == read & !RCC_CR_HSION
            &&& x & RCC_CR_HSION == 0
        }),
        step == 2 || step == 8 ==> op_at(step, read) == RegOp::Read(Reg::RccCr),
        step == 11 ==> op_at(step, read) == RegOp::Read(Reg::RccCfgr),
{
    assert(RCC_CR_HSEON == 0x1_0000u32 && RCC_CR_PLLON == 0x100_0000u32 && RCC_CR_HSION == 1u32) by (bit_vector);
    assert(RCC_CFGR_PLLMULL9 == 0x1c_0000u32 && RCC_CFGR_PLLSRC == 0x1_0000u32) by (bit_vector);
    assert((FLASH_ACR_PRFTBE | FLASH_ACR_LATENCY_1) == 0x12u32) by (bit_vector);
    assert((1u32 | 0x1c_0000u32 | 0x1_0000u32) == 0x1d_0001u32) by (bit_vector);
    assert((read | 0x1_0000u32) & !0x1_0000u32 == read & !0x1_0000u32 && (read | 0x1_0000u32) & 0x1_0000u32 != 0) by (bit_vector);
    assert((read | 0x1d_0001u32) & !0x1d_0001u32 == read & !0x1d_0001u32 && (read | 0x1d_0001u32) & 0x1d_0001u32 == 0x1d_0001u32) by (bit_vector);
    assert((read | 0x100_0000u32) & !0x100_0000u32 == read & !0x100_0000u32 && (read | 0x100_0000u32) & 0x100_0000u32 != 0) by (bit_vector);
    assert(((read | 2u32) & !1u32) & !3u32 == read & !3u32 && ((read | 2u32) & !1u32) & 3u32 == 2) by (bit_vector);
    assert((read & !1u32) & !1u32 == read & !1u32 && (read & !1u32) & 1u32 == 0) by (bit_vector);
}

/// The bring-up waits for each status bit: at a wait it stays put until
/// the bit is read set, then moves on; it only finishes after the last
/// write, and once finished it stays finished.
pub proof fn law_waits(step: u8, read: u32)
    ensures
        step == 2 ==> step_after(step, read) == if read & RCC_CR_HSERDY == 0 {
            2u8
        } else {
            3u8
        },
        step == 8 ==> step_after(step, read) == if read & RCC_CR_PLLRDY == 0 {
            8u8
        } else {
            9u8
        },
        step == 11 ==> step_after(step, read) == if read & RCC_CFGR_SWS_PLL == 0 {
            11u8
        } else {
            12u8
        },
        step_after(step, read) == last_step() ==> step == 13 || step >= last_step(),
        step >= last_step() ==> step_after(step, read) == step && op_at(step, read) == RegOp::Done,
{
}

/// The value an access writes (`0` for a read or the end).
pub open spec fn written(op: RegOp) -> u32 {
    match op {
        RegOp::Write(_, v) => v,
        _ => 0,
    }
}

/// What the bring-up is for.  Start from the configuration register with
/// its PLL multiplier field clear (as after reset), and let every read
/// return what was last written there, with at most the status bits the
/// hardware raises added (HSE ready, PLL ready, the clock-switch status).
/// Then the writes leave: HSE and PLL on and HSI off; the PLL fed from HSE,
/// multiplied by nine and selected as system clock; flash prefetch on with
/// two wait states.
pub proof fn law_bring_up(cr0: u32, cfgr0: u32, hse_rdy: u32, pll_rdy: u32, sws: u32)
    requires
        cfgr0 & (0xfu32 << 18u32) == 0,
        hse_rdy & !RCC_CR_HSERDY == 0,
        pll_rdy & !RCC_CR_PLLRDY == 0,
        sws & !0xcu32 == 0,
    ensures
        ({
            let cr1 = written(op_at(1, cr0));
            let acr = written(op_at(3, 0));
            let cfgr1 = written(op_at(5, cfgr0));
            let cr2 = written(op_at(7, cr1 | hse_rdy));
            let cfgr2 = written(op_at(10, cfgr1 | sws));
            let cr3 = written(op_at(13, cr2 | pll_rdy));
            &&& cr3 & RCC_CR_HSEON != 0
            &&& cr3 & RCC_CR_PLLON != 0
            &&& cr3 & RCC_CR_HSION == 0
            &&& cfgr2 & RCC_CFGR_PLLSRC != 0
            &&& (cfgr2 >> 18u32) & 0xfu32 == 7
            &&& cfgr2 & 3 == RCC_CFGR_SW_PLL
            &&& acr == FLASH_ACR_PRFTBE | FLASH_ACR_LATENCY_1
            &&& acr & 7 == 2
            &&& acr & FLASH_ACR_PRFTBE != 0
        }),
{
    let cr1 = cr0 | 0x1_0000u32;
    let cfgr1 = cfgr0 | (1u32 | 0x1c_0000u32 | 0x1_0000u32);
    let cr2 = (cr1 | hse_rdy) | 0x100_0000u32;
    let cfgr2 = ((cfgr1 | sws) | 2u32) & !1u32;
    let cr3 = (cr2 | pll_rdy) & !1u32;
    assert(RCC_CR_HSEON == 0x1_0000u32) by (bit_vector);
    assert(RCC_CR_PLLON == 0x100_0000u32) by (bit_vector);
    assert(RCC_CFGR_PLLMULL9 == 0x1c_0000u32) by (bit_vector);
    assert(RCC_CFGR_PLLSRC == 0x1_0000u32) by (bit_vector);
    assert(RCC_CR_HSERDY == 0x2_0000u32) by (bit_vector);
    assert(RCC_CR_PLLRDY == 0x200_0000u32) by (bit_vector);
    assert(FLASH_ACR_PRFTBE == 0x10u32) by (bit_vector);
    assert(FLASH_ACR_LATENCY_1 == 2u32) by (bit_vector);
    assert(RCC_CR_HSION == 1u32) by (bit_vector);
    assert(RCC_CFGR_SW_HSE == 1u32 && RCC_CFGR_SW_PLL == 2u32);
    assert(written(op_at(1, cr0)) == cr1);
    assert((FLASH_ACR_PRFTBE | FLASH_ACR_LATENCY_1) == 0x12u32) by (bit_vector);
    assert(written(op_at(3, 0)) == 0x12u32);
    assert(written(op_at(5, cfgr0)) == cfgr1);
    assert(written(op_at(7, cr1 | hse_rdy)) == cr2);
    assert(written(op_at(10, cfgr1 | sws)) == cfgr2);
    assert(written(op_at(13, cr2 | pll_rdy)) == cr3);
    assert((0x10u32 | 2u32) == 0x12u32 && 0x12u32 & 7 == 2 && 0x12u32 & 0x10u32 != 0) by (bit_vector);
    assert(cr3 & 0x1_0000u32 != 0 && cr3 & 0x100_0000u32 != 0 && cr3 & 1u32 == 0) by (bit_vector)
        requires
            cr1 == cr0 | 0x1_0000u32,
            cr2 == (cr1 | hse_rdy) | 0x100_0000u32,
            cr3 == (cr2 | pll_rdy) & !1u32,
    ;
    assert(cfgr2 & 0x1_0000u32 != 0 && (cfgr2 >> 18u32) & 0xfu32 == 7 && cfgr2 & 3 == 2) by (bit_vector)
        requires
            cfgr0 & (0xfu32 << 18u32) == 0,
            sws & !0xcu32 == 0,
            cfgr1 == cfgr0 | (1u32 | 0x1c_0000u32 | 0x1_0000u32),
            cfgr2 == ((cfgr1 | sws) | 2u32) & !1u32,
    ;
}

impl ClockSetup {
    /// How many accesses are done.
    pub closed spec fn step(&self) -> u8 {
        self.step
    }

    /// What the last read returned.
    pub closed spec fn value(&self) -> u32 {
        self.value
    }

    /// The bring-up before any access.
    pub fn new() -> (c: Self)
        ensures
            c.step() == 0,
    {
        ClockSetup { step: 0, value: 0 }
    }

    /// The access to do now.
    pub fn op(&self) -> (r: RegOp)
        ensures
            r == op_at(self.step(), self.value()),
    {
        let v = self.value;
        if self.step == 0 {
            RegOp::Read(Reg::RccCr)
        } else if self.step == 1 {
            RegOp::Write(Reg::RccCr, bit_set(v, RCC_CR_HSEON))
        } else if self.step == 2 {
            RegOp::Read(Reg::RccCr)
        } else if self.step == 3 {
            RegOp::Write(Reg::FlashAcr, FLASH_ACR_PRFTBE | FLASH_ACR_LATENCY_1)
        } else if self.step == 4 {
            RegOp::Read(Reg::RccCfgr)
        } else if self.step == 5 {
            RegOp::Write(Reg::RccCfgr, bit_set(v, RCC_CFGR_SW_HSE | RCC_CFGR_PLLMULL9 | RCC_CFGR_PLLSRC))
        } else if self.step == 6 {
            RegOp::Read(Reg::RccCr)
        } else if self.step == 7 {
            RegOp::Write(Reg::RccCr, bit_set(v, RCC_CR_PLLON))
        } else if self.step == 8 {
            RegOp::Read(Reg::RccCr)
        } else if self.step == 9 {
            RegOp::Read(Reg::RccCfgr)
        } else if self.step == 10 {
            RegOp::Write(Reg::RccCfgr, bit_clear(bit_set(v, RCC_CFGR_SW_PLL), RCC_CFGR_SW_HSE))
        } else if self.step == 11 {
            RegOp::Read(Reg::RccCfgr)
        } else if self.step == 12 {
            RegOp::Read(Reg::RccCr)
        } else if self.step == 13 {
            RegOp::Write(Reg::RccCr, bit_clear(v, RCC_CR_HSION))
        } else {
            RegOp::Done
        }
    }

    /// Records that the access of [`ClockSetup::op`] was done; `read` is
    /// what it returned when it was a read.
    pub fn advance(&mut self, read: u32)
        ensures
            final(self).step() == step_after(old(self).step(), read),
            final(self).value() == match op_at(old(self).step(), old(self).value()) {
                RegOp::Read(_) => read,
                _ => old(self).value(),
            },
    {
        if let RegOp::Read(_) = self.op() {
            self.value = read;
        }
        if self.step == 2 && read & RCC_CR_HSERDY == 0 {
        } else if self.step == 8 && read & RCC_CR_PLLRDY == 0 {
        } else if self.step == 11 && read & RCC_CFGR_SWS_PLL == 0 {
        } else if self.step < 14 {
            self.step = self.step + 1;
        }
    }

    /// Whether the clock now runs from the PLL.
    pub fn is_done(&self) -> (r: bool)
        ensures
            r == (self.step() == last_step()),
    {
        self.step == 14
    }
}

} // verus!
