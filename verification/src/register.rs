//! Registration of a parachain for resource-utilization tracking.
//!
//! The registry is the caller's collection of records, handed in whole and
//! mutated in place; the chain state a payment claim is checked against
//! (finalized head, candidate call bytes of the claimed block) is handed
//! in as plain values.

use vstd::prelude::*;
use crate::payment::{payment_verdict, validate_registration_payment};
use crate::types::{BlockNumber, Error, ParaId, Parachain, PaymentInfo, RelayChain};

verus! {

/// Body of a registration request.
#[derive(Clone, Copy, Debug, PartialEq, Eq, Structural)]
pub struct RegistrationData {
    /// The parachain getting registered.
    pub para: Parachain,
    /// The block in which the payment occurred for the specific parachain.
    /// In free mode (where payment is not required) this is ignored and
    /// can be `None`; otherwise it must hold a valid block number.
    pub payment_block_number: Option<BlockNumber>,
}

/// Whether some record in the registry has the given identity.
pub open spec fn identity_registered(rs: Seq<Parachain>, relay: RelayChain, id: ParaId) -> bool {
    exists|i: int|
        0 <= i < rs.len() && (#[trigger] rs[i]).relay_chain == relay && rs[i].para_id == id
}

/// Whether `i` is the position of the first record with the given identity.
pub open spec fn first_match(rs: Seq<Parachain>, relay: RelayChain, id: ParaId, i: int) -> bool {
    &&& 0 <= i < rs.len()
    &&& rs[i].relay_chain == relay
    &&& rs[i].para_id == id
    &&& forall|j: int|
        0 <= j < i ==> !((#[trigger] rs[j]).relay_chain == relay && rs[j].para_id == id)
}

/// Position of the first record with the given identity, if any.
pub fn find_registered(paras: &Vec<Parachain>, relay_chain: RelayChain, para_id: ParaId) -> (r:
    Option<usize>)
    ensures
        r.is_some() == identity_registered(paras@, relay_chain, para_id),
        r matches Some(i) ==> first_match(paras@, relay_chain, para_id, i as int),
{
    let mut i: usize = 0;
    while i < paras.len()
        invariant
            i <= paras@.len(),
            forall|j: int|
                0 <= j < i ==> !((#[trigger] paras@[j]).relay_chain == relay_chain
                    && paras@[j].para_id == para_id),
        decreases paras@.len() - i,
    {
        let p = paras[i];
        if p.relay_chain == relay_chain && p.para_id == para_id {
            return Some(i);
        }
        i = i + 1;
    }
    None
}

/// The first registered record with the given identity, if any.
pub fn registered_para(paras: &Vec<Parachain>, relay_chain: RelayChain, para_id: ParaId) -> (r:
    Option<Parachain>)
    ensures
        r.is_some() == identity_registered(paras@, relay_chain, para_id),
        r matches Some(p) ==> exists|i: int|
            first_match(paras@, relay_chain, para_id, i) && paras@[i] == p,
{
    match find_registered(paras, relay_chain, para_id) {
        Some(i) => {
            let p = paras[i];
            proof {
                assert(first_match(paras@, relay_chain, para_id, i as int) && paras@[i as int]
                    == p);
            }
            Some(p)
        },
        None => None,
    }
}

/// Verdict of a registration request: the duplicate check first, then —
/// only when payment is configured — the required block number and the
/// payment verification.
pub open spec fn register_verdict(
    rs: Seq<Parachain>,
    para: Parachain,
    payment_info: Option<PaymentInfo>,
    payment_block_number: Option<BlockNumber>,
    head: BlockNumber,
    exts: Seq<Vec<u8>>,
) -> Result<(), Error> {
    if identity_registered(rs, para.relay_chain, para.para_id) {
        Err(Error::AlreadyRegistered)
    } else {
        match payment_info {
            Some(info) => match payment_block_number {
                None => Err(Error::PaymentRequired),
                Some(n) => match payment_verdict(
                    para.relay_chain,
                    para.para_id,
                    info,
                    n,
                    head,
                    exts,
                ) {
                    Ok(_) => Ok(()),
                    Err(e) => Err(Error::PaymentValidationError(e)),
                },
            },
            None => Ok(()),
        }
    }
}

/// Registers a parachain: fails with `AlreadyRegistered` on a duplicate
/// identity; in paid mode demands a payment block number and a verified
/// payment; on success appends the record to the registry, which is
/// otherwise left unchanged.
pub fn register_para(
    paras: &mut Vec<Parachain>,
    registration_data: &RegistrationData,
    payment_info: &Option<PaymentInfo>,
    finalized_head: BlockNumber,
    extrinsics: &Vec<Vec<u8>>,
) -> (r: Result<(), Error>)
    requires
        (*payment_info) matches Some(info) ==> info.receiver@.len() == 32,
    ensures
        r == register_verdict(
            old(paras)@,
            registration_data.para,
            *payment_info,
            registration_data.payment_block_number,
            finalized_head,
            extrinsics@,
        ),
        r matches Ok(_) ==> final(paras)@ == old(paras)@.push(registration_data.para),
        r matches Err(_) ==> final(paras)@ == old(paras)@,
{
    let para = registration_data.para;
    if find_registered(paras, para.relay_chain, para.para_id).is_some() {
        return Err(Error::AlreadyRegistered);
    }
    match payment_info {
        Some(info) => {
            match registration_data.payment_block_number {
                None => {
                    return Err(Error::PaymentRequired);
                },
                Some(n) => {
                    match validate_registration_payment(
                        &para,
                        info,
                        n,
                        finalized_head,
                        extrinsics,
                    ) {
                        Ok(_) => {},
                        Err(e) => {
                            return Err(Error::PaymentValidationError(e));
                        },
                    }
                },
            }
        },
        None => {},
    }
    paras.push(para);
    Ok(())
}

/// Law: registering an identity that a successful registration just added
/// always fails with `AlreadyRegistered`, whatever the second request's
/// payment data says.
pub proof fn lemma_cannot_register_twice(
    rs: Seq<Parachain>,
    para1: Parachain,
    para2: Parachain,
    payment_info: Option<PaymentInfo>,
    payment_block_number: Option<BlockNumber>,
    head: BlockNumber,
    exts: Seq<Vec<u8>>,
)
    requires
        para1.relay_chain == para2.relay_chain,
        para1.para_id == para2.para_id,
    ensures
        register_verdict(rs.push(para1), para2, payment_info, payment_block_number, head, exts)
            == Err::<(), Error>(Error::AlreadyRegistered),
{
    assert(rs.push(para1)[rs.len() as int] == para1);
    assert(identity_registered(rs.push(para1), para2.relay_chain, para2.para_id));
}

} // verus!
