//! Synchronous exceptions: the saved CPU state, the exception class taken
//! from the syndrome register, its name, and the recovery decision.
use vstd::prelude::*;

verus! {

/// Data abort taken from a lower exception level.
pub const EC_DATA_ABORT_LOWER: u64 = 0x24;

/// Data abort taken without a change of exception level.
pub const EC_DATA_ABORT_SAME: u64 = 0x25;

/// Breakpoint instruction.
pub const EC_BRK: u64 = 0x3c;

/// Size in bytes of one instruction.
pub const INSN_SIZE: u64 = 4;

/// The saved CPU state at the moment of a fault; its layout is the order in
/// which the exception entry code stores the registers.
pub struct TrapFrame {
    /// General purpose registers x0 to x30.
    pub x: [u64; 31],
    /// The address execution returns to.
    pub elr: u64,
    /// The processor state restored on return.
    pub spsr: u64,
}

/// The exception class field of a syndrome value: bits 26 to 31.
pub open spec fn class_of(esr: u64) -> u64 {
    ((esr as int / 0x400_0000) % 64) as u64
}

/// The exception level field of the `CurrentEL` register: bits 2 and 3.
pub open spec fn level_of(raw: u64) -> u64 {
    ((raw as int / 4) % 4) as u64
}

/// The classes the kernel survives by skipping the faulting instruction:
/// data aborts and breakpoints.
pub open spec fn is_recoverable(ec: u64) -> bool {
    ec == EC_DATA_ABORT_SAME || ec == EC_DATA_ABORT_LOWER || ec == EC_BRK
}

/// The name printed for an exception class.
pub open spec fn class_name(ec: u64) -> Seq<char> {
    if ec == 0x15 {
        "SVC (syscall)"@
    } else if ec == 0x20 {
        "Instruction abort, lower EL"@
    } else if ec == 0x21 {
        "Instruction abort, same EL"@
    } else if ec == EC_DATA_ABORT_LOWER {
        "Data abort, lower EL"@
    } else if ec == EC_DATA_ABORT_SAME {
        "Data abort, same EL"@
    } else if ec == EC_BRK {
        "BRK instruction"@
    } else {
        "(other)"@
    }
}

/// What happens after an exception.
#[derive(Debug, PartialEq, Eq)]
pub enum TrapOutcome {
    /// The faulting instruction is skipped and execution resumes.
    Resume,
    /// The kernel halts.
    Halt,
}

/// The exception class of a syndrome value.
pub fn exception_class(esr: u64) -> (ec: u64)
    ensures
        ec == class_of(esr),
        ec < 64,
{
    let ec = (esr >> 26u64) & 0x3fu64;
    assert(ec == (esr / 0x400_0000u64) % 64u64) by (bit_vector)
        requires
            ec == (esr >> 26u64) & 0x3fu64,
    ;
    ec
}

/// The exception level held in a `CurrentEL` register value.
pub fn exception_level(raw: u64) -> (el: u64)
    ensures
        el == level_of(raw),
        el < 4,
{
    let el = (raw >> 2u64) & 3u64;
    assert(el == (raw / 4u64) % 4u64) by (bit_vector)
        requires
            el == (raw >> 2u64) & 3u64,
    ;
    el
}

/// Whether the kernel survives an exception of class `ec` by skipping the
/// faulting instruction.
pub fn is_recoverable_class(ec: u64) -> (r: bool)
    ensures
        r == is_recoverable(ec),
{
    ec == EC_DATA_ABORT_SAME || ec == EC_DATA_ABORT_LOWER || ec == EC_BRK
}

/// The name printed for an exception class.
pub fn ec_name(ec: u64) -> (name: &'static str)
    ensures
        name@ == class_name(ec),
{
    if ec == 0x15 {
        "SVC (syscall)"
    } else if ec == 0x20 {
        "Instruction abort, lower EL"
    } else if ec == 0x21 {
        "Instruction abort, same EL"
    } else if ec == EC_DATA_ABORT_LOWER {
        "Data abort, lower EL"
    } else if ec == EC_DATA_ABORT_SAME {
        "Data abort, same EL"
    } else if ec == EC_BRK {
        "BRK instruction"
    } else {
        "(other)"
    }
}

impl TrapFrame {
    /// Decides what happens after an exception of class `ec`: for a class
    /// the kernel understands, the return address moves past the faulting
    /// instruction and execution resumes; any other class halts.  Nothing
    /// else in the frame changes.
    pub fn recover(&mut self, ec: u64) -> (out: TrapOutcome)
        requires
            is_recoverable(ec) ==> old(self).elr + INSN_SIZE <= u64::MAX,
        ensures
            out is Resume <==> is_recoverable(ec),
            is_recoverable(ec) ==> final(self).elr == old(self).elr + INSN_SIZE,
            !is_recoverable(ec) ==> final(self).elr == old(self).elr,
            final(self).x == old(self).x,
            final(self).spsr == old(self).spsr,
    {
        if is_recoverable_class(ec) {
            self.elr = self.elr + INSN_SIZE;
            TrapOutcome::Resume
        } else {
            TrapOutcome::Halt
        }
    }
}

/// Only data aborts (classes 0x24 and 0x25) and breakpoints (class 0x3c)
/// are recovered from; for every other class `recover` halts and leaves the
/// return address where it was.
pub proof fn lemma_recoverable_classes(ec: u64)
    ensures
        is_recoverable(ec) <==> (ec == 0x24 || ec == 0x25 || ec == 0x3c),
{
}

/// The exception class is bits 26 to 31 of the syndrome: whatever the
/// other bits hold, a syndrome with class `ec` in those bits decodes to
/// `ec`.
pub proof fn lemma_class_is_bits_26_to_31(hi: u64, ec: u64, low: u64)
    requires
        ec < 64,
        low < 0x400_0000,
        hi < 0x1_0000_0000,
    ensures
        class_of((hi * 0x1_0000_0000 + ec * 0x400_0000 + low) as u64) == ec,
{
    let x = hi * 0x1_0000_0000 + ec * 0x400_0000 + low;
    assert(x / 0x400_0000 == hi * 64 + ec) by (nonlinear_arith)
        requires
            x == hi * 0x1_0000_0000 + ec * 0x400_0000 + low,
            0 <= low < 0x400_0000,
            ec < 64,
    ;
    assert((hi * 64 + ec) % 64 == ec) by (nonlinear_arith)
        requires
            0 <= ec < 64,
            hi >= 0,
    ;
}

/// The exception level is bits 2 and 3 of `CurrentEL`: whatever the other
/// bits hold, a value with level `el` in those bits decodes to `el`.
pub proof fn lemma_level_is_bits_2_and_3(hi: u64, el: u64, low: u64)
    requires
        el < 4,
        low < 4,
        hi < 0x1000_0000_0000_0000,
    ensures
        level_of((hi * 16 + el * 4 + low) as u64) == el,
{
    let x = hi * 16 + el * 4 + low;
    assert(x / 4 == hi * 4 + el) by (nonlinear_arith)
        requires
            x == hi * 16 + el * 4 + low,
            0 <= low < 4,
    ;
    assert((hi * 4 + el) % 4 == el) by (nonlinear_arith)
        requires
            0 <= el < 4,
            hi >= 0,
    ;
}

/// The names printed for the classes: SVC, the two instruction aborts, the
/// two data aborts and BRK by name, every other class as `(other)`.
pub proof fn lemma_class_names(ec: u64)
    ensures
        ec == 0x15 ==> class_name(ec) == "SVC (syscall)"@,
        ec == 0x20 ==> class_name(ec) == "Instruction abort, lower EL"@,
        ec == 0x21 ==> class_name(ec) == "Instruction abort, same EL"@,
        ec == 0x24 ==> class_name(ec) == "Data abort, lower EL"@,
        ec == 0x25 ==> class_name(ec) == "Data abort, same EL"@,
        ec == 0x3c ==> class_name(ec) == "BRK instruction"@,
        !(ec == 0x15 || ec == 0x20 || ec == 0x21 || ec == 0x24 || ec == 0x25 || ec == 0x3c)
            ==> class_name(ec) == "(other)"@,
{
}

} // verus!
