//! Stack Resource Policy critical sections. A lock raises the current
//! logical execution priority to the resource's ceiling, which keeps every
//! task at or below that ceiling from starting; on exit both the priority
//! cell and the BASEPRI mask return to their pre-lock encoding. The hardware
//! writes themselves happen outside this crate; here the protocol is a pair
//! of verified transitions over the context's (priority cell, BASEPRI) state.

use vstd::prelude::*;

verus! {

/// Logical priority that stands for "all maskable interrupts disabled".
pub const MASK_ALL: u8 = 255;

/// The hardware BASEPRI encoding of a logical priority: `((1 << bits) -
/// logical) << (8 - bits)`, truncated to eight bits. Logical priority 0
/// (thread mode) encodes to 0, which masks nothing; higher logical
/// priorities encode to lower BASEPRI values.
pub open spec fn hw_prio(logical: u8, nvic_prio_bits: u8) -> u8 {
    (((((1u16 << nvic_prio_bits) - logical) as u16) << ((8 - nvic_prio_bits) as u16)) % 256) as u8
}

/// Converts a logical priority (0 = lowest, `1 << nvic_prio_bits` = highest)
/// to the hardware BASEPRI encoding of the device.
pub fn logical2hw(logical: u8, nvic_prio_bits: u8) -> (r: u8)
    requires
        1 <= nvic_prio_bits <= 8,
        logical <= (1u16 << nvic_prio_bits),
    ensures
        r == hw_prio(logical, nvic_prio_bits),
{
    ((((1u16 << nvic_prio_bits) - logical as u16) << ((8 - nvic_prio_bits) as u16)) % 256) as u8
}

/// The hardware encoding reverses the logical order: of two logical
/// priorities that both fit the device, the higher one has the smaller
/// BASEPRI value, so masking "at or below" a ceiling is one register write.
pub proof fn lemma_hw_prio_antitone(p: u8, q: u8, bits: u8)
    requires
        1 <= bits <= 8,
        1 <= p < q <= (1u16 << bits),
    ensures
        hw_prio(q, bits) < hw_prio(p, bits),
{
    assert(hw_prio(q, bits) < hw_prio(p, bits)) by (bit_vector)
        requires
            1 <= bits <= 8,
            1 <= p < q <= (1u16 << bits),
    ;
}

/// What a lock transition asks of the interrupt-mask hardware.
#[derive(Clone, Copy, Debug, PartialEq, Eq, Structural)]
pub enum MaskAction {
    /// Leave the mask alone.
    Keep,
    /// Write this value to BASEPRI.
    WriteBasepri(u8),
    /// Disable all maskable interrupts (PRIMASK), restored by the caller of
    /// the closed interrupt-free region itself.
    DisableAll,
}

/// The masking state of one execution context: the context-local logical
/// priority cell and the BASEPRI value this protocol last established.
#[derive(Clone, Copy, Debug, PartialEq, Eq, Structural)]
pub struct SrpContext {
    /// Current logical priority of the running context.
    pub priority: u8,
    /// BASEPRI as far as the lock protocol has written it.
    pub basepri: u8,
}

/// The context state after entering a lock with the given ceiling.
pub open spec fn spec_enter(ctx: SrpContext, ceiling: u8, bits: u8) -> SrpContext {
    if ctx.priority < ceiling {
        if ceiling == (1u16 << bits) {
            SrpContext { priority: MASK_ALL, basepri: ctx.basepri }
        } else {
            SrpContext { priority: ceiling, basepri: hw_prio(ceiling, bits) }
        }
    } else {
        ctx
    }
}

/// The context state after leaving a lock that was entered at `saved`.
pub open spec fn spec_exit(ctx: SrpContext, saved: u8, ceiling: u8, bits: u8) -> SrpContext {
    if saved < ceiling {
        if ceiling == (1u16 << bits) {
            SrpContext { priority: saved, basepri: ctx.basepri }
        } else {
            SrpContext { priority: saved, basepri: hw_prio(saved, bits) }
        }
    } else {
        ctx
    }
}

impl SrpContext {
    /// Enters a critical section for a resource with the given ceiling:
    /// decides whether the mask must be raised, raises the priority cell,
    /// and reports the saved priority and the hardware action to perform.
    /// While the section runs, no context at or below `ceiling` can start.
    pub fn lock_enter(&mut self, ceiling: u8, nvic_prio_bits: u8) -> (r: (u8, MaskAction))
        requires
            1 <= nvic_prio_bits <= 8,
            ceiling <= (1u16 << nvic_prio_bits),
        ensures
            *final(self) == spec_enter(*old(self), ceiling, nvic_prio_bits),
            r.0 == old(self).priority,
            r.1 == (if old(self).priority >= ceiling {
                MaskAction::Keep
            } else if ceiling == (1u16 << nvic_prio_bits) {
                MaskAction::DisableAll
            } else {
                MaskAction::WriteBasepri(hw_prio(ceiling, nvic_prio_bits))
            }),
    {
        let current = self.priority;
        if current < ceiling {
            if (ceiling as u16) == (1u16 << nvic_prio_bits) {
                self.priority = MASK_ALL;
                (current, MaskAction::DisableAll)
            } else {
                let hw = logical2hw(ceiling, nvic_prio_bits);
                self.priority = ceiling;
                self.basepri = hw;
                (current, MaskAction::WriteBasepri(hw))
            }
        } else {
            (current, MaskAction::Keep)
        }
    }

    /// Leaves a critical section entered at logical priority `saved`:
    /// restores the priority cell and reports the hardware action that
    /// restores the mask.
    pub fn lock_exit(&mut self, saved: u8, ceiling: u8, nvic_prio_bits: u8) -> (r: MaskAction)
        requires
            1 <= nvic_prio_bits <= 8,
            ceiling <= (1u16 << nvic_prio_bits),
            saved <= (1u16 << nvic_prio_bits),
        ensures
            *final(self) == spec_exit(*old(self), saved, ceiling, nvic_prio_bits),
            r == (if saved >= ceiling {
                MaskAction::Keep
            } else if ceiling == (1u16 << nvic_prio_bits) {
                MaskAction::Keep
            } else {
                MaskAction::WriteBasepri(hw_prio(saved, nvic_prio_bits))
            }),
    {
        if saved < ceiling {
            if (ceiling as u16) == (1u16 << nvic_prio_bits) {
                self.priority = saved;
                MaskAction::Keep
            } else {
                let hw = logical2hw(saved, nvic_prio_bits);
                self.priority = saved;
                self.basepri = hw;
                MaskAction::WriteBasepri(hw)
            }
        } else {
            MaskAction::Keep
        }
    }
}

/// SRP lock, restoration: after a lock entered at any context state returns,
/// the priority cell equals its pre-call value, and BASEPRI holds the
/// encoding of that value whenever the lock had raised it.
pub proof fn lemma_srp_lock_restores(ctx: SrpContext, ceiling: u8, bits: u8)
    requires
        1 <= bits <= 8,
        ceiling <= (1u16 << bits),
    ensures
        spec_exit(spec_enter(ctx, ceiling, bits), ctx.priority, ceiling, bits).priority
            == ctx.priority,
        ctx.priority < ceiling && ceiling != (1u16 << bits) ==> spec_exit(
            spec_enter(ctx, ceiling, bits),
            ctx.priority,
            ceiling,
            bits,
        ).basepri == hw_prio(ctx.priority, bits),
        ctx.priority >= ceiling || ceiling == (1u16 << bits) ==> spec_exit(
            spec_enter(ctx, ceiling, bits),
            ctx.priority,
            ceiling,
            bits,
        ).basepri == ctx.basepri,
{
}

/// SRP lock, masking: while the critical section runs the context's logical
/// priority is at least the resource's ceiling, so no context at or below
/// the ceiling can preempt it.
pub proof fn lemma_srp_lock_masks(ctx: SrpContext, ceiling: u8, bits: u8)
    requires
        1 <= bits <= 8,
        ceiling <= (1u16 << bits),
    ensures
        spec_enter(ctx, ceiling, bits).priority >= ceiling,
        spec_enter(ctx, ceiling, bits).priority >= ctx.priority,
{
}

} // verus!
