//! Core data model: parachain identities, registration records, payment
//! configuration and the error taxonomy.

use vstd::prelude::*;

verus! {

/// Number of a block on the payment chain.
pub type BlockNumber = u32;

/// Numeric identifier of a parachain.
pub type ParaId = u32;

/// A point in time, in the registry's clock units.
pub type Timestamp = u64;

/// The relay chain a parachain belongs to.
#[derive(Clone, Copy, Debug, PartialEq, Eq, Structural)]
pub enum RelayChain {
    Polkadot,
    Kusama,
}

/// A registration record: the parachain's identity together with the
/// expiry of its subscription. The identity (relay chain and para id) is
/// the unique key of the registry; only the expiry is ever mutated, and
/// only by a successful subscription extension.
#[derive(Clone, Copy, Debug, PartialEq, Eq, Structural)]
pub struct Parachain {
    /// The relay chain the parachain belongs to.
    pub relay_chain: RelayChain,
    /// The parachain's numeric identifier.
    pub para_id: ParaId,
    /// When the subscription expires.
    pub expiry_timestamp: Timestamp,
}

/// Payment configuration. When present, registrations and extensions must
/// prove an on-chain payment; when absent the service runs in free mode.
pub struct PaymentInfo {
    /// RPC endpoint of the chain the payment is verified against. Only the
    /// caller performing the network reads uses this.
    pub rpc_url: String,
    /// Raw 32-byte account id of the payment receiver.
    pub receiver: Vec<u8>,
    /// Expected cost in the smallest unit, as a decimal string.
    pub cost: String,
    /// How much a successful payment extends the subscription.
    pub subscription_duration: Timestamp,
    /// How long before expiry a renewal becomes possible.
    pub renewal_period: Timestamp,
}

/// Why a payment claim was rejected.
#[derive(Clone, Copy, Debug, PartialEq, Eq, Structural)]
pub enum PaymentError {
    /// The claimed block number is beyond the chain's finalized head, so
    /// the payment cannot yet be trusted.
    UnfinalizedPayment,
    /// The finalized block was inspected and contains no matching payment.
    PaymentNotFound,
    /// The truth could not be determined: malformed configuration or a
    /// failed network read.
    PaymentValidationFailed,
}

/// Errors surfaced to callers of the registration service.
#[derive(Clone, Copy, Debug, PartialEq, Eq, Structural)]
pub enum Error {
    /// The operation targets an identity absent from the registry.
    NotRegistered,
    /// Duplicate registration, or an extension attempted before the
    /// renewal window opens.
    AlreadyRegistered,
    /// Payment is configured but no payment block number was supplied.
    PaymentRequired,
    /// The payment claim failed verification.
    PaymentValidationError(PaymentError),
}

} // verus!
