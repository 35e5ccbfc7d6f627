//! The two policies injected into the codec: byte order and byte budget.

use crate::error::ErrorKind;
use vstd::prelude::*;

verus! {

/// Byte order applied to every multi-byte fixed-width field on the wire,
/// including length prefixes and variant tags.
#[derive(Debug, Clone, Copy, PartialEq, Eq, Structural)]
pub enum Endianness {
    Little,
    Big,
}

/// Byte-budget policy: an accumulator that either never runs out, or fails
/// with [`ErrorKind::SizeLimit`] once a configured number of bytes has been
/// accounted.
#[derive(Debug, Clone, Copy, PartialEq, Eq, Structural)]
pub enum SizeLimit {
    /// No budget: every charge succeeds.
    Infinite,
    /// The number of bytes that may still be accounted.
    Bounded(u64),
}

impl SizeLimit {
    /// Whether a charge of `n` bytes fits in the remaining budget.
    pub open spec fn allows(self, n: nat) -> bool {
        match self {
            SizeLimit::Infinite => true,
            SizeLimit::Bounded(r) => n <= r,
        }
    }

    /// The budget left after a successful charge of `n` bytes.
    pub open spec fn charge(self, n: nat) -> SizeLimit {
        match self {
            SizeLimit::Infinite => SizeLimit::Infinite,
            SizeLimit::Bounded(r) => SizeLimit::Bounded(if n <= r {
                (r - n) as u64
            } else {
                0
            }),
        }
    }

    /// Accounts `n` more wire bytes, failing once the budget is exhausted.
    pub fn add(&mut self, n: u64) -> (r: Result<(), ErrorKind>)
        ensures
            old(self).allows(n as nat) ==> r == Ok::<(), ErrorKind>(())
                && *final(self) == old(self).charge(n as nat),
            !old(self).allows(n as nat) ==> r == Err::<(), ErrorKind>(ErrorKind::SizeLimit)
                && *final(self) == *old(self),
    {
        match *self {
            SizeLimit::Infinite => Ok(()),
            SizeLimit::Bounded(r) => {
                if n <= r {
                    *self = SizeLimit::Bounded(r - n);
                    Ok(())
                } else {
                    Err(ErrorKind::SizeLimit)
                }
            },
        }
    }
}

/// Charging a total is the same as charging it in two instalments.
pub proof fn lemma_charge_split(l: SizeLimit, a: nat, b: nat)
    ensures
        l.allows(a + b) <==> l.allows(a) && l.charge(a).allows(b),
        l.allows(a + b) ==> l.charge(a + b) == l.charge(a).charge(b),
{
}

} // verus!
