//! Verified core of a parachain subscription registry.
//!
//! A parachain operator registers (and later extends) a subscription for
//! resource-utilization tracking, optionally gated by an on-chain payment.
//! The core is the payment-verification engine: it reconstructs the exact
//! expected on-chain call, checks that the claimed payment block is
//! finalized, and confirms that the call appears, byte for byte in its
//! canonical encoding, among the block's extrinsics.
//!
//! Network reads (RPC) and HTTP plumbing live outside this crate; every
//! decision here is a function of plain values handed in by the caller.

pub mod calls;
pub mod extend_subscription;
pub mod payment;
pub mod register;
pub mod scale;
pub mod types;
