//! Extension of an existing subscription.
//!
//! A renewal is allowed only once the renewal window has opened; in paid
//! mode it must be backed by a verified payment, and on success it adds
//! exactly the configured duration to the record's expiry — never
//! resetting it, so unused time is kept.

use vstd::prelude::*;
use crate::payment::{payment_verdict, validate_registration_payment};
use crate::register::{first_match, identity_registered};
use crate::types::{BlockNumber, Error, ParaId, Parachain, PaymentInfo, RelayChain, Timestamp};

verus! {

/// Body of a subscription-extension request.
#[derive(Clone, Copy, Debug)]
pub struct ExtendSubscriptionData {
    /// The parachain which is getting its subscription extended.
    pub para: (RelayChain, ParaId),
    /// The block in which the payment occurred for the specific parachain.
    pub payment_block_number: BlockNumber,
}

/// `a - b`, saturating at zero.
pub open spec fn saturating_diff(a: Timestamp, b: Timestamp) -> Timestamp {
    if a >= b {
        (a - b) as Timestamp
    } else {
        0
    }
}

/// Verdict of an extension request against the record `p` it targets:
/// how much to add to the expiry on success, or why it fails. Before the
/// renewal window opens the request is rejected (with `AlreadyRegistered`,
/// the code this service uses for "too early to renew") without touching
/// the payment; in free mode the added duration is zero.
pub open spec fn extend_verdict(
    p: Parachain,
    payment_info: Option<PaymentInfo>,
    now: Timestamp,
    payment_block_number: BlockNumber,
    head: BlockNumber,
    exts: Seq<Vec<u8>>,
) -> Result<Timestamp, Error> {
    match payment_info {
        Some(info) => {
            if saturating_diff(p.expiry_timestamp, info.renewal_period) > now {
                Err(Error::AlreadyRegistered)
            } else {
                match payment_verdict(
                    p.relay_chain,
                    p.para_id,
                    info,
                    payment_block_number,
                    head,
                    exts,
                ) {
                    Ok(_) => Ok(info.subscription_duration),
                    Err(e) => Err(Error::PaymentValidationError(e)),
                }
            }
        },
        None => Ok(0),
    }
}

/// Extends a parachain's subscription: fails with `NotRegistered` for an
/// unknown identity; otherwise decides by `extend_verdict` against the
/// first matching record, and on success adds exactly the returned
/// duration to that record's expiry, leaving the registry unchanged on
/// every failure path.
pub fn extend_subscription(
    paras: &mut Vec<Parachain>,
    data: &ExtendSubscriptionData,
    payment_info: &Option<PaymentInfo>,
    now: Timestamp,
    finalized_head: BlockNumber,
    extrinsics: &Vec<Vec<u8>>,
) -> (r: Result<(), Error>)
    requires
        (*payment_info) matches Some(info) ==> info.receiver@.len() == 32 && forall|j: int|
            0 <= j < old(paras)@.len() ==> (#[trigger] old(paras)@[j]).expiry_timestamp
                + info.subscription_duration <= u64::MAX,
    ensures
        !identity_registered(old(paras)@, data.para.0, data.para.1) ==> r == Err::<(), Error>(
            Error::NotRegistered,
        ) && final(paras)@ == old(paras)@,
        forall|i: int|
            first_match(old(paras)@, data.para.0, data.para.1, i) ==> (match extend_verdict(
                old(paras)@[i],
                *payment_info,
                now,
                data.payment_block_number,
                finalized_head,
                extrinsics@,
            ) {
                Ok(d) => r == Ok::<(), Error>(()) && final(paras)@ == old(paras)@.update(
                    i,
                    Parachain {
                        relay_chain: old(paras)@[i].relay_chain,
                        para_id: old(paras)@[i].para_id,
                        expiry_timestamp: (old(paras)@[i].expiry_timestamp + d) as Timestamp,
                    },
                ),
                Err(e) => r == Err::<(), Error>(e) && final(paras)@ == old(paras)@,
            }),
{
    let relay_chain = data.para.0;
    let para_id = data.para.1;
    let i = match crate::register::find_registered(paras, relay_chain, para_id) {
        None => {
            return Err(Error::NotRegistered);
        },
        Some(i) => i,
    };
    proof {
        lemma_first_match_unique(paras@, relay_chain, para_id, i as int);
    }
    let p = paras[i];
    let duration: Timestamp = match payment_info {
        Some(info) => {
            let eligible_at = if p.expiry_timestamp >= info.renewal_period {
                p.expiry_timestamp - info.renewal_period
            } else {
                0
            };
            if eligible_at > now {
                // Cannot renew yet.
                return Err(Error::AlreadyRegistered);
            }
            match validate_registration_payment(
                &p,
                info,
                data.payment_block_number,
                finalized_head,
                extrinsics,
            ) {
                Ok(_) => info.subscription_duration,
                Err(e) => {
                    return Err(Error::PaymentValidationError(e));
                },
            }
        },
        None => 0,
    };
    let updated = Parachain {
        relay_chain: p.relay_chain,
        para_id: p.para_id,
        expiry_timestamp: p.expiry_timestamp + duration,
    };
    paras[i] = updated;
    Ok(())
}

/// Whether the renewal window for record `p` has opened: renewals are
/// allowed from `renewal_period` before the expiry onward. Callers use
/// this to reject an early renewal before fetching anything from the
/// chain.
pub fn renewal_window_open(p: &Parachain, info: &PaymentInfo, now: Timestamp) -> (r: bool)
    ensures
        r == (saturating_diff(p.expiry_timestamp, info.renewal_period) <= now),
{
    let eligible_at = if p.expiry_timestamp >= info.renewal_period {
        p.expiry_timestamp - info.renewal_period
    } else {
        0
    };
    eligible_at <= now
}

/// At most one position is the first match for an identity.
pub proof fn lemma_first_match_unique(rs: Seq<Parachain>, relay: RelayChain, id: ParaId, i: int)
    requires
        first_match(rs, relay, id, i),
    ensures
        forall|t: int| first_match(rs, relay, id, t) ==> t == i,
{
    assert forall|t: int| first_match(rs, relay, id, t) implies t == i by {
        if t < i {
            assert(rs[t].relay_chain == relay && rs[t].para_id == id);
        }
        if t > i {
            assert(rs[i].relay_chain == relay && rs[i].para_id == id);
        }
    }
}

/// Law: a successful extension adds exactly the configured subscription
/// duration to the existing expiry — additive, never a reset — and any
/// failing verdict leaves every record unchanged (as `extend_subscription`
/// then returns the registry as it was).
pub proof fn lemma_extension_adds_duration(
    p: Parachain,
    info: PaymentInfo,
    now: Timestamp,
    payment_block_number: BlockNumber,
    head: BlockNumber,
    exts: Seq<Vec<u8>>,
)
    ensures
        extend_verdict(p, Some(info), now, payment_block_number, head, exts) matches Ok(d) ==> d
            == info.subscription_duration,
{
}

} // verus!
