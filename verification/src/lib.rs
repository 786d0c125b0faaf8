//! A verified model of two coupled stores: a payment-intent orchestrator
//! (intents advance along a fixed status machine, with external settlement
//! reconciled by callbacks) and a capability-gated drop store (single-use
//! tokens bound to data drops, redeemed exactly once, with cascading
//! revocation).
//!
//! External collaborators -- the deposit oracle, the payment facilitator and
//! the access-key layer -- are reached only through dispatch records returned
//! by the operations here; the host side performs the calls and feeds the
//! outcomes back in.

pub mod assoc;
pub mod drops;
pub mod errors;
pub mod intents;
