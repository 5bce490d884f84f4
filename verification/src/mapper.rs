//! The Smart Shuffler Layer: virtual trays to physical registers.
use vstd::prelude::*;
use crate::target::{names, TargetContext};

verus! {

/// Maps virtual trays onto the registers of a host.
pub struct TrayMapper {
    ctx: TargetContext,
}

/// The x86_64 register number (0..=15) behind a zero-based tray: trays 1 to 14
/// are RAX, RBX, RCX, RDX, RSI, RDI, R8 ... R15, and tray numbers wrap every 14.
pub open spec fn x86_reg(tray_index: usize) -> u8 {
    let t = tray_index % 14;
    if t == 0 {
        0
    } else if t == 1 {
        3
    } else if t == 2 {
        1
    } else if t == 3 {
        2
    } else if t == 4 {
        6
    } else if t == 5 {
        7
    } else {
        (t + 2) as u8
    }
}

impl TrayMapper {
    /// The host context this mapper uses.
    pub closed spec fn context(&self) -> TargetContext {
        self.ctx
    }

    pub fn new(ctx: TargetContext) -> (r: TrayMapper)
        ensures
            r.context() == ctx,
    {
        TrayMapper { ctx }
    }

    /// The name of the register in the host's pool that a tray lands on; tray
    /// numbers wrap around the pool.
    pub fn resolve_register_name(&self, tray_index: usize) -> (r: &'static str)
        requires
            self.context().available_registers@.len() > 0,
        ensures
            r@ == names(self.context().available_registers@)[(tray_index as int)
                % (self.context().available_registers@.len() as int)],
    {
        let count = self.ctx.available_registers.len();
        self.ctx.available_registers[tray_index % count]
    }

    /// The x86_64 register number that a tray lands on.
    pub fn resolve_x86_reg_id(&self, tray_index: usize) -> (r: u8)
        ensures
            r == x86_reg(tray_index),
    {
        match tray_index % 14 {
            0 => 0,
            1 => 3,
            2 => 1,
            3 => 2,
            4 => 6,
            5 => 7,
            6 => 8,
            7 => 9,
            8 => 10,
            9 => 11,
            10 => 12,
            11 => 13,
            12 => 14,
            13 => 15,
            _ => 0,
        }
    }
}

/// Every tray lands on one of the sixteen x86_64 registers, never on RSP or RBP
/// (which hold the storeroom frame), and tray numbers repeat every 14.
pub proof fn lemma_x86_reg_range(t: usize)
    ensures
        x86_reg(t) < 16,
        x86_reg(t) != 4,
        x86_reg(t) != 5,
        x86_reg(t) == x86_reg(t % 14),
{
}

/// The fourteen trays of a workstation land on fourteen different registers.
pub proof fn lemma_x86_reg_distinct(a: usize, b: usize)
    requires
        a < 14,
        b < 14,
        a != b,
    ensures
        x86_reg(a) != x86_reg(b),
{
}

} // verus!
