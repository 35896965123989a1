//! The payment-verification engine: builds the exact expected on-chain
//! call for a registration, and checks a finalized block's extrinsics for
//! a call whose canonical encoding matches it byte for byte.
//!
//! Network reads are not performed here: the chain's finalized head and
//! the candidate call bytes of the target block's extrinsics are handed
//! in as plain values, so every verdict is a pure function of its inputs.

use vstd::prelude::*;
use vstd::arithmetic::div_mod::lemma_fundamental_div_mod;
use vstd::arithmetic::mul::lemma_mul_inequality;
use crate::calls::{
    bytes_eq, call_encoding, calls_encoding, decode_call, encode_call, pallet_call_encoding,
    PalletCall, RuntimeCall, ACCOUNT_ID_ADDRESS_INDEX, BALANCES_PALLET_INDEX,
    BATCH_ALL_CALL_INDEX, REMARK_CALL_INDEX, SYSTEM_PALLET_INDEX,
    TRANSFER_KEEP_ALIVE_CALL_INDEX, UTILITY_PALLET_INDEX,
};
use crate::scale::{compact_u32_bytes, le_bytes, u128_le_bytes};
use crate::types::{BlockNumber, ParaId, Parachain, PaymentError, PaymentInfo, RelayChain};

verus! {

/// Whether `c` is an ASCII decimal digit.
pub open spec fn is_ascii_digit(c: char) -> bool {
    48 <= c as int <= 57
}

/// Numeric value of an ASCII decimal digit.
pub open spec fn digit_val(c: char) -> nat {
    (c as int - 48) as nat
}

/// Value of a sequence of decimal digits, most significant first.
pub open spec fn digits_val(s: Seq<char>) -> nat
    decreases s.len(),
{
    if s.len() == 0 {
        0
    } else {
        digits_val(s.drop_last()) * 10 + digit_val(s.last())
    }
}

/// The digit part of a cost string: an optional leading `+` is skipped.
pub open spec fn cost_digits(s: Seq<char>) -> Seq<char> {
    if s.len() > 0 && s[0] == '+' {
        s.drop_first()
    } else {
        s
    }
}

/// Whether a cost string parses as a non-negative integer that fits in a
/// `u128`: at least one digit, only digits, and a value within range.
pub open spec fn cost_is_valid(s: Seq<char>) -> bool {
    &&& cost_digits(s).len() > 0
    &&& forall|i: int| 0 <= i < cost_digits(s).len() ==> is_ascii_digit(#[trigger] cost_digits(s)[i])
    &&& digits_val(cost_digits(s)) <= u128::MAX
}

/// The parsed value of a valid cost string.
pub open spec fn cost_value(s: Seq<char>) -> nat {
    digits_val(cost_digits(s))
}

proof fn lemma_digits_val_mono(s: Seq<char>, j: int)
    requires
        0 <= j <= s.len(),
    ensures
        digits_val(s.take(j)) <= digits_val(s),
    decreases s.len() - j,
{
    if j < s.len() {
        lemma_digits_val_mono(s, j + 1);
        assert(s.take(j + 1).drop_last() =~= s.take(j));
        assert(s.take(j + 1).last() == s[j]);
        let x = digits_val(s.take(j));
        assert(x <= x * 10) by (nonlinear_arith);
    } else {
        assert(s.take(j) =~= s);
    }
}

/// Parses a decimal cost string exactly as the configuration expects it:
/// optional `+`, then decimal digits, value within `u128`.
pub fn parse_cost(s: &str) -> (r: Option<u128>)
    ensures
        r.is_some() <==> cost_is_valid(s@),
        r matches Some(v) ==> v as nat == cost_value(s@),
{
    let n = s.unicode_len();
    let start: usize = if n > 0 && s.get_char(0) == '+' {
        1
    } else {
        0
    };
    let ghost d = cost_digits(s@);
    proof {
        assert(d =~= s@.skip(start as int));
    }
    if n == start {
        return None;
    }
    let mut acc: u128 = 0;
    let mut i: usize = start;
    while i < n
        invariant
            start <= i <= n,
            n == s@.len(),
            d == cost_digits(s@),
            d =~= s@.skip(start as int),
            forall|t: int| 0 <= t < i - start ==> is_ascii_digit(#[trigger] d[t]),
            acc as nat == digits_val(d.take(i - start)),
        decreases n - i,
    {
        let c = s.get_char(i);
        let cu = c as u32;
        proof {
            assert(d[i - start] == s@[i as int]);
        }
        if cu < 48 || cu > 57 {
            proof {
                assert(!is_ascii_digit(d[i - start]));
            }
            return None;
        }
        let dv = (cu - 48) as u128;
        proof {
            assert(d.take(i - start + 1).drop_last() =~= d.take(i - start));
            assert(d.take(i - start + 1).last() == d[i - start]);
            assert(digits_val(d.take(i - start + 1)) == (acc as nat) * 10 + dv as nat);
            lemma_fundamental_div_mod((u128::MAX - dv) as int, 10);
        }
        if acc > (u128::MAX - dv) / 10 {
            proof {
                let q = ((u128::MAX - dv) / 10) as int;
                assert((acc as int) >= q + 1);
                lemma_mul_inequality(q + 1, acc as int, 10);
                assert((acc as int) * 10 >= (q + 1) * 10);
                assert((q + 1) * 10 == q * 10 + 10) by (nonlinear_arith);
                assert(q * 10 == 10 * q) by (nonlinear_arith);
                assert((acc as nat) * 10 + dv as nat > u128::MAX);
                lemma_digits_val_mono(d, i - start + 1);
                assert(digits_val(d) > u128::MAX);
            }
            return None;
        }
        proof {
            let q = ((u128::MAX - dv) / 10) as int;
            lemma_mul_inequality(acc as int, q, 10);
            assert(q * 10 == 10 * q) by (nonlinear_arith);
            assert((acc as int) * 10 + dv <= u128::MAX);
        }
        acc = acc * 10 + dv;
        i = i + 1;
    }
    proof {
        assert(d.take(n - start) =~= d);
    }
    Some(acc)
}

/// Decimal digits of `n`, as ASCII bytes, most significant first.
pub open spec fn dec_bytes(n: nat) -> Seq<u8>
    decreases n,
{
    if n < 10 {
        seq![(48 + n) as u8]
    } else {
        dec_bytes(n / 10) + seq![(48 + n % 10) as u8]
    }
}

/// 10 raised to the power `k`.
pub open spec fn pow10(k: nat) -> nat
    decreases k,
{
    if k == 0 {
        1
    } else {
        10 * pow10((k - 1) as nat)
    }
}

pub proof fn lemma_dec_bytes_len(n: nat, k: nat)
    requires
        k >= 1,
        n < pow10(k),
    ensures
        1 <= dec_bytes(n).len() <= k,
    decreases k,
{
    if n >= 10 {
        assert(pow10(0) == 1);
        assert(pow10(1) == 10);
        assert(k >= 2) by {
            if k == 1 {
                assert(n < 10);
            }
        }
        assert(n / 10 < pow10((k - 1) as nat)) by {
            lemma_fundamental_div_mod(n as int, 10);
            if n / 10 >= pow10((k - 1) as nat) {
                lemma_mul_inequality(pow10((k - 1) as nat) as int, (n / 10) as int, 10);
                assert(false);
            }
        }
        lemma_dec_bytes_len(n / 10, (k - 1) as nat);
    }
}

/// Appends the decimal digits of `n` to `out`.
pub fn push_decimal(n: u32, out: &mut Vec<u8>)
    ensures
        final(out)@ == old(out)@ + dec_bytes(n as nat),
    decreases n,
{
    if n < 10 {
        out.push(48 + n as u8);
        proof {
            assert(old(out)@ + dec_bytes(n as nat) =~= old(out)@.push((48 + n) as u8));
        }
    } else {
        push_decimal(n / 10, out);
        out.push(48 + (n % 10) as u8);
        proof {
            assert(old(out)@ + dec_bytes(n as nat) =~= (old(out)@ + dec_bytes((n / 10) as nat)).push(
                (48 + (n as nat) % 10) as u8,
            ));
        }
    }
}

/// ASCII name of a relay chain, as it appears in the remark payload.
pub open spec fn relay_chain_bytes(r: RelayChain) -> Seq<u8> {
    match r {
        RelayChain::Polkadot => seq![80u8, 111u8, 108u8, 107u8, 97u8, 100u8, 111u8, 116u8],
        RelayChain::Kusama => seq![75u8, 117u8, 115u8, 97u8, 109u8, 97u8],
    }
}

/// The remark payload identifying a parachain: `<relay-chain>:<para-id>`
/// in ASCII.
pub open spec fn remark_bytes(r: RelayChain, id: ParaId) -> Seq<u8> {
    relay_chain_bytes(r) + seq![58u8] + dec_bytes(id as nat)
}

/// Builds the remark payload for a parachain identity.
pub fn remark_payload(r: RelayChain, id: ParaId) -> (out: Vec<u8>)
    ensures
        out@ == remark_bytes(r, id),
{
    let mut out: Vec<u8> = Vec::new();
    match r {
        RelayChain::Polkadot => {
            out.push(80);
            out.push(111);
            out.push(108);
            out.push(107);
            out.push(97);
            out.push(100);
            out.push(111);
            out.push(116);
        },
        RelayChain::Kusama => {
            out.push(75);
            out.push(117);
            out.push(115);
            out.push(97);
            out.push(109);
            out.push(97);
        },
    }
    out.push(58);
    proof {
        assert(out@ =~= relay_chain_bytes(r) + seq![58u8]);
    }
    push_decimal(id, &mut out);
    proof {
        assert(out@ =~= remark_bytes(r, id));
    }
    out
}

/// The remark payload is short: at most 8 name bytes, the separator, and
/// at most 10 digits.
pub proof fn lemma_remark_bytes_len(r: RelayChain, id: ParaId)
    ensures
        1 <= remark_bytes(r, id).len() <= 19,
{
    assert(pow10(0) == 1);
    assert(pow10(1) == 10);
    assert(pow10(2) == 100);
    assert(pow10(3) == 1000);
    assert(pow10(4) == 10000);
    assert(pow10(5) == 100000);
    assert(pow10(6) == 1000000);
    assert(pow10(7) == 10000000);
    assert(pow10(8) == 100000000);
    assert(pow10(9) == 1000000000);
    assert(pow10(10) == 10000000000);
    lemma_dec_bytes_len(id as nat, 10);
}

/// Whether `c` is exactly the expected payment call for the given
/// identity and configuration: a batch-all of the keep-alive transfer of
/// the configured cost to the configured receiver, then the identifying
/// remark, in that order.
pub open spec fn is_expected_call(
    c: RuntimeCall,
    relay: RelayChain,
    id: ParaId,
    info: PaymentInfo,
) -> bool {
    match c {
        RuntimeCall::BatchAll { calls } => calls@.len() == 2 && (match calls@[0] {
            PalletCall::TransferKeepAlive { dest, value } => dest@ == info.receiver@ && value as nat
                == cost_value(info.cost@),
            _ => false,
        }) && (match calls@[1] {
            PalletCall::Remark { remark } => remark@ == remark_bytes(relay, id),
            _ => false,
        }),
        _ => false,
    }
}

/// Canonical encoding of the expected payment call, written out in full.
pub open spec fn expected_encoding(relay: RelayChain, id: ParaId, info: PaymentInfo) -> Seq<u8> {
    seq![UTILITY_PALLET_INDEX, BATCH_ALL_CALL_INDEX] + compact_u32_bytes(2) + (seq![
        BALANCES_PALLET_INDEX,
        TRANSFER_KEEP_ALIVE_CALL_INDEX,
        ACCOUNT_ID_ADDRESS_INDEX,
    ] + info.receiver@ + le_bytes(cost_value(info.cost@), 16)) + (seq![
        SYSTEM_PALLET_INDEX,
        REMARK_CALL_INDEX,
    ] + compact_u32_bytes(remark_bytes(relay, id).len() as u32) + remark_bytes(relay, id))
}

/// Any call matching `is_expected_call` encodes to `expected_encoding`.
pub proof fn lemma_expected_call_encoding(
    c: RuntimeCall,
    relay: RelayChain,
    id: ParaId,
    info: PaymentInfo,
)
    requires
        is_expected_call(c, relay, id, info),
        cost_value(info.cost@) <= u128::MAX,
    ensures
        call_encoding(c) == expected_encoding(relay, id, info),
{
    match c {
        RuntimeCall::BatchAll { calls } => {
            let cs = calls@;
            assert(cs.drop_first().drop_first() =~= Seq::<PalletCall>::empty());
            assert(cs.drop_first()[0] == cs[1]);
            assert(calls_encoding(cs.drop_first().drop_first()).len() == 0);
            assert(cs.drop_first().len() == 1);
            assert(calls_encoding(cs.drop_first()) == pallet_call_encoding(cs[1])
                + calls_encoding(cs.drop_first().drop_first()));
            assert(calls_encoding(cs) == pallet_call_encoding(cs[0]) + calls_encoding(
                cs.drop_first(),
            ));
            match cs[0] {
                PalletCall::TransferKeepAlive { dest, value } => {
                    assert(u128_le_bytes(value) == le_bytes(cost_value(info.cost@), 16));
                },
                _ => {},
            }
            assert(call_encoding(c) =~= expected_encoding(relay, id, info));
        },
        _ => {},
    }
}

/// Law: the expected call is a pure function of the registration
/// parameters. Any two calls built from identical inputs have
/// byte-identical canonical encodings.
pub proof fn lemma_expected_call_deterministic(
    c1: RuntimeCall,
    c2: RuntimeCall,
    relay: RelayChain,
    id: ParaId,
    info: PaymentInfo,
)
    requires
        is_expected_call(c1, relay, id, info),
        is_expected_call(c2, relay, id, info),
        cost_value(info.cost@) <= u128::MAX,
    ensures
        call_encoding(c1) == call_encoding(c2),
{
    lemma_expected_call_encoding(c1, relay, id, info);
    lemma_expected_call_encoding(c2, relay, id, info);
}

/// Builds the expected payment call for a registration, or fails with
/// `PaymentValidationFailed` exactly when the configured cost string does
/// not parse as a `u128`.
pub fn build_expected_call(relay: RelayChain, para_id: ParaId, info: &PaymentInfo) -> (r: Result<
    RuntimeCall,
    PaymentError,
>)
    requires
        info.receiver@.len() == 32,
    ensures
        cost_is_valid(info.cost@) ==> (r matches Ok(c) && c.wf() && is_expected_call(
            c,
            relay,
            para_id,
            *info,
        )),
        !cost_is_valid(info.cost@) ==> r == Err::<RuntimeCall, PaymentError>(
            PaymentError::PaymentValidationFailed,
        ),
{
    let cost = match parse_cost(info.cost.as_str()) {
        None => {
            return Err(PaymentError::PaymentValidationFailed);
        },
        Some(v) => v,
    };
    let mut dest: Vec<u8> = Vec::new();
    let mut i: usize = 0;
    while i < info.receiver.len()
        invariant
            i <= info.receiver@.len(),
            dest@ == info.receiver@.take(i as int),
        decreases info.receiver@.len() - i,
    {
        dest.push(info.receiver[i]);
        i = i + 1;
        proof {
            assert(info.receiver@.take(i as int) =~= info.receiver@.take(i - 1).push(
                info.receiver@[i - 1],
            ));
        }
    }
    proof {
        assert(dest@ =~= info.receiver@);
    }
    let transfer = PalletCall::TransferKeepAlive { dest, value: cost };
    let remark = remark_payload(relay, para_id);
    proof {
        lemma_remark_bytes_len(relay, para_id);
    }
    let remark_call = PalletCall::Remark { remark };
    let mut calls: Vec<PalletCall> = Vec::new();
    calls.push(transfer);
    calls.push(remark_call);
    Ok(RuntimeCall::BatchAll { calls })
}

/// Whether some extrinsic's call bytes equal the expected payment call's
/// canonical encoding.
pub open spec fn payment_present(
    relay: RelayChain,
    id: ParaId,
    info: PaymentInfo,
    exts: Seq<Vec<u8>>,
) -> bool {
    exists|i: int| 0 <= i < exts.len() && (#[trigger] exts[i])@ == expected_encoding(relay, id, info)
}

/// Verdict of scanning a block's extrinsics for the expected payment.
pub open spec fn payment_check(
    relay: RelayChain,
    id: ParaId,
    info: PaymentInfo,
    exts: Seq<Vec<u8>>,
) -> Result<(), PaymentError> {
    if !cost_is_valid(info.cost@) {
        Err(PaymentError::PaymentValidationFailed)
    } else if payment_present(relay, id, info, exts) {
        Ok(())
    } else {
        Err(PaymentError::PaymentNotFound)
    }
}

/// Scans the candidate call bytes of a block's extrinsics for the
/// expected payment call: each entry is speculatively decoded, re-encoded
/// canonically, and compared byte for byte; entries that do not decode
/// are skipped, never an error.
pub fn ensure_contains_payment(para: &Parachain, info: &PaymentInfo, extrinsics: &Vec<Vec<u8>>) -> (r:
    Result<(), PaymentError>)
    requires
        info.receiver@.len() == 32,
    ensures
        r == payment_check(para.relay_chain, para.para_id, *info, extrinsics@),
{
    let ghost relay = para.relay_chain;
    let ghost id = para.para_id;
    let expected_call = match build_expected_call(para.relay_chain, para.para_id, info) {
        Err(e) => {
            return Err(e);
        },
        Ok(c) => c,
    };
    let expected = encode_call(&expected_call);
    proof {
        lemma_expected_call_encoding(expected_call, relay, id, *info);
    }
    let mut j: usize = 0;
    while j < extrinsics.len()
        invariant
            j <= extrinsics@.len(),
            relay == para.relay_chain,
            id == para.para_id,
            info.receiver@.len() == 32,
            cost_is_valid(info.cost@),
            expected_call.wf(),
            call_encoding(expected_call) == expected_encoding(relay, id, *info),
            expected@ == expected_encoding(relay, id, *info),
            forall|t: int| 0 <= t < j ==> (#[trigger] extrinsics@[t])@ != expected@,
        decreases extrinsics@.len() - j,
    {
        match decode_call(&extrinsics[j]) {
            Some(c) => {
                let enc = encode_call(&c);
                if bytes_eq(&enc, &expected) {
                    proof {
                        assert(extrinsics@[j as int]@ == expected_encoding(relay, id, *info));
                        assert(payment_present(relay, id, *info, extrinsics@));
                        assert(cost_is_valid(info.cost@));
                        assert(payment_check(relay, id, *info, extrinsics@) == Ok::<
                            (),
                            PaymentError,
                        >(()));
                    }
                    return Ok(());
                }
            },
            None => {
                proof {
                    if extrinsics@[j as int]@ == expected@ {
                        assert(call_encoding(expected_call) == extrinsics@[j as int]@);
                        assert(false);
                    }
                }
            },
        }
        j = j + 1;
    }
    proof {
        assert(!payment_present(relay, id, *info, extrinsics@));
    }
    Err(PaymentError::PaymentNotFound)
}

/// Verdict of the whole payment verification: the finality check first,
/// then the extrinsic scan.
pub open spec fn payment_verdict(
    relay: RelayChain,
    id: ParaId,
    info: PaymentInfo,
    claimed: BlockNumber,
    head: BlockNumber,
    exts: Seq<Vec<u8>>,
) -> Result<(), PaymentError> {
    if claimed > head {
        Err(PaymentError::UnfinalizedPayment)
    } else {
        payment_check(relay, id, info, exts)
    }
}

/// Rejects a claimed payment block that the chain has not finalized yet.
pub fn check_finalized(claimed: BlockNumber, finalized_head: BlockNumber) -> (r: Result<
    (),
    PaymentError,
>)
    ensures
        r == (if claimed > finalized_head {
            Err::<(), PaymentError>(PaymentError::UnfinalizedPayment)
        } else {
            Ok::<(), PaymentError>(())
        }),
{
    if claimed > finalized_head {
        Err(PaymentError::UnfinalizedPayment)
    } else {
        Ok(())
    }
}

/// Verifies a claimed payment for `para` against the chain state handed
/// in: the current finalized head and the candidate call bytes of the
/// claimed block's extrinsics. Steps short-circuit in order: finality
/// first, then the configured cost, then the scan.
pub fn validate_registration_payment(
    para: &Parachain,
    info: &PaymentInfo,
    payment_block_number: BlockNumber,
    finalized_head: BlockNumber,
    extrinsics: &Vec<Vec<u8>>,
) -> (r: Result<(), PaymentError>)
    requires
        info.receiver@.len() == 32,
    ensures
        r == payment_verdict(
            para.relay_chain,
            para.para_id,
            *info,
            payment_block_number,
            finalized_head,
            extrinsics@,
        ),
        payment_block_number > finalized_head ==> r == Err::<(), PaymentError>(
            PaymentError::UnfinalizedPayment,
        ),
{
    match check_finalized(payment_block_number, finalized_head) {
        Err(e) => Err(e),
        Ok(()) => ensure_contains_payment(para, info, extrinsics),
    }
}

/// Law: a claimed block number beyond the finalized head always fails
/// with `UnfinalizedPayment`, regardless of the block's content.
pub proof fn lemma_unfinalized_always_fails(
    relay: RelayChain,
    id: ParaId,
    info: PaymentInfo,
    claimed: BlockNumber,
    head: BlockNumber,
    exts: Seq<Vec<u8>>,
)
    requires
        claimed > head,
    ensures
        payment_verdict(relay, id, info, claimed, head, exts) == Err::<(), PaymentError>(
            PaymentError::UnfinalizedPayment,
        ),
{
}

/// Law: if no extrinsic's call bytes equal the expected call's canonical
/// encoding, verification of a finalized claim fails with
/// `PaymentNotFound`.
pub proof fn lemma_payment_not_found(
    relay: RelayChain,
    id: ParaId,
    info: PaymentInfo,
    claimed: BlockNumber,
    head: BlockNumber,
    exts: Seq<Vec<u8>>,
)
    requires
        claimed <= head,
        cost_is_valid(info.cost@),
        forall|i: int| 0 <= i < exts.len() ==> (#[trigger] exts[i])@ != expected_encoding(
            relay,
            id,
            info,
        ),
    ensures
        payment_verdict(relay, id, info, claimed, head, exts) == Err::<(), PaymentError>(
            PaymentError::PaymentNotFound,
        ),
{
}

/// Law: if some extrinsic's call bytes equal the expected call's
/// canonical encoding — in any position, whatever else the block holds —
/// verification of a finalized claim succeeds.
pub proof fn lemma_payment_found(
    relay: RelayChain,
    id: ParaId,
    info: PaymentInfo,
    claimed: BlockNumber,
    head: BlockNumber,
    exts: Seq<Vec<u8>>,
    witness: int,
)
    requires
        claimed <= head,
        cost_is_valid(info.cost@),
        0 <= witness < exts.len(),
        exts[witness]@ == expected_encoding(relay, id, info),
    ensures
        payment_verdict(relay, id, info, claimed, head, exts) == Ok::<(), PaymentError>(()),
{
    assert(payment_present(relay, id, info, exts));
}

} // verus!
