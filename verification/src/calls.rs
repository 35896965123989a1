//! Model of the payment chain's call type, restricted to the calls the
//! registry cares about: a keep-alive balance transfer, a system remark,
//! and a batch-all wrapping a list of such calls. Each call has exactly
//! one canonical encoding; `decode_call` accepts exactly those byte
//! strings and is the fallible decoder used when scanning a block's
//! extrinsics.

use vstd::prelude::*;
use crate::scale::{
    compact_u32_bytes, compact_u32_len, decode_compact_u32_at, le_val, lemma_compact_u32_first_byte,
    lemma_le_bytes_len, lemma_le_bytes_of_val, lemma_le_bytes_val, lemma_pow256_values, pow256,
    read_le_val, scale_encode_compact_u32, scale_encode_u128, u128_le_bytes,
};

verus! {

/// Pallet index of the balances pallet in the chain's runtime.
pub const BALANCES_PALLET_INDEX: u8 = 5;

/// Call index of `transfer_keep_alive` within the balances pallet.
pub const TRANSFER_KEEP_ALIVE_CALL_INDEX: u8 = 3;

/// Pallet index of the system pallet.
pub const SYSTEM_PALLET_INDEX: u8 = 0;

/// Call index of `remark` within the system pallet.
pub const REMARK_CALL_INDEX: u8 = 0;

/// Pallet index of the utility pallet.
pub const UTILITY_PALLET_INDEX: u8 = 26;

/// Call index of `batch_all` within the utility pallet.
pub const BATCH_ALL_CALL_INDEX: u8 = 2;

/// Variant tag of a plain 32-byte account id in the chain's address type.
pub const ACCOUNT_ID_ADDRESS_INDEX: u8 = 0;

/// A call of a single pallet.
#[derive(Debug)]
pub enum PalletCall {
    /// `Balances::transfer_keep_alive`: pay `value` to the account `dest`.
    TransferKeepAlive { dest: Vec<u8>, value: u128 },
    /// `System::remark`: record an opaque payload on chain.
    Remark { remark: Vec<u8> },
}

/// A top-level call: either a single pallet call or `Utility::batch_all`
/// over a list of pallet calls.
#[derive(Debug)]
pub enum RuntimeCall {
    Single(PalletCall),
    BatchAll { calls: Vec<PalletCall> },
}

impl PalletCall {
    /// Structural validity: the transfer destination is a raw 32-byte
    /// account id, and a remark payload's length fits the compact length
    /// prefix.
    pub open spec fn wf(self) -> bool {
        match self {
            PalletCall::TransferKeepAlive { dest, .. } => dest@.len() == 32,
            PalletCall::Remark { remark } => remark@.len() <= u32::MAX,
        }
    }
}

impl RuntimeCall {
    pub open spec fn wf(self) -> bool {
        match self {
            RuntimeCall::Single(c) => c.wf(),
            RuntimeCall::BatchAll { calls } => calls@.len() <= u32::MAX && forall|i: int|
                0 <= i < calls@.len() ==> (#[trigger] calls@[i]).wf(),
        }
    }
}

/// Canonical encoding of a single pallet call: pallet index, call index,
/// then the SCALE encoding of the call's fields.
pub open spec fn pallet_call_encoding(c: PalletCall) -> Seq<u8> {
    match c {
        PalletCall::TransferKeepAlive { dest, value } => seq![
            BALANCES_PALLET_INDEX,
            TRANSFER_KEEP_ALIVE_CALL_INDEX,
            ACCOUNT_ID_ADDRESS_INDEX,
        ] + dest@ + u128_le_bytes(value),
        PalletCall::Remark { remark } => seq![SYSTEM_PALLET_INDEX, REMARK_CALL_INDEX]
            + compact_u32_bytes(remark@.len() as u32) + remark@,
    }
}

/// Concatenation of the encodings of a list of pallet calls.
pub open spec fn calls_encoding(cs: Seq<PalletCall>) -> Seq<u8>
    decreases cs.len(),
{
    if cs.len() == 0 {
        Seq::empty()
    } else {
        pallet_call_encoding(cs[0]) + calls_encoding(cs.drop_first())
    }
}

/// Canonical encoding of a top-level call.
pub open spec fn call_encoding(c: RuntimeCall) -> Seq<u8> {
    match c {
        RuntimeCall::Single(pc) => pallet_call_encoding(pc),
        RuntimeCall::BatchAll { calls } => seq![UTILITY_PALLET_INDEX, BATCH_ALL_CALL_INDEX]
            + compact_u32_bytes(calls@.len() as u32) + calls_encoding(calls@),
    }
}

pub proof fn lemma_pallet_call_encoding_shape(c: PalletCall)
    requires
        c.wf(),
    ensures
        pallet_call_encoding(c).len() >= 3,
        c matches PalletCall::TransferKeepAlive { .. } ==> pallet_call_encoding(c).len() == 51
            && pallet_call_encoding(c)[0] == BALANCES_PALLET_INDEX && pallet_call_encoding(c)[1]
            == TRANSFER_KEEP_ALIVE_CALL_INDEX && pallet_call_encoding(c)[2]
            == ACCOUNT_ID_ADDRESS_INDEX,
        c matches PalletCall::Remark { remark } ==> pallet_call_encoding(c).len() == 2
            + compact_u32_len(remark@.len() as u32) + remark@.len() && pallet_call_encoding(c)[0]
            == SYSTEM_PALLET_INDEX && pallet_call_encoding(c)[1] == REMARK_CALL_INDEX,
{
    match c {
        PalletCall::TransferKeepAlive { dest, value } => {
            lemma_le_bytes_len(value as nat, 16);
        },
        PalletCall::Remark { remark } => {
            lemma_compact_u32_first_byte(remark@.len() as u32);
        },
    }
}

pub proof fn lemma_call_encoding_shape(c: RuntimeCall)
    requires
        c.wf(),
    ensures
        call_encoding(c).len() >= 3,
        c matches RuntimeCall::Single(pc) ==> (call_encoding(c)[0] == BALANCES_PALLET_INDEX
            || call_encoding(c)[0] == SYSTEM_PALLET_INDEX),
        c matches RuntimeCall::BatchAll { calls } ==> call_encoding(c)[0] == UTILITY_PALLET_INDEX
            && call_encoding(c)[1] == BATCH_ALL_CALL_INDEX,
{
    match c {
        RuntimeCall::Single(pc) => {
            lemma_pallet_call_encoding_shape(pc);
        },
        RuntimeCall::BatchAll { calls } => {
            lemma_compact_u32_first_byte(calls@.len() as u32);
        },
    }
}

pub proof fn lemma_calls_encoding_push(cs: Seq<PalletCall>, c: PalletCall)
    ensures
        calls_encoding(cs.push(c)) == calls_encoding(cs) + pallet_call_encoding(c),
    decreases cs.len(),
{
    if cs.len() == 0 {
        let s1 = cs.push(c);
        assert(s1.len() == 1);
        assert(s1[0] == c);
        assert(s1.drop_first() =~= Seq::<PalletCall>::empty());
        assert(calls_encoding(s1.drop_first()).len() == 0);
        assert(calls_encoding(s1) == pallet_call_encoding(c) + calls_encoding(s1.drop_first()));
        assert(calls_encoding(cs).len() == 0);
        assert(calls_encoding(cs.push(c)) =~= calls_encoding(cs) + pallet_call_encoding(c));
    } else {
        lemma_calls_encoding_push(cs.drop_first(), c);
        assert(cs.push(c).drop_first() =~= cs.drop_first().push(c));
        assert(cs.push(c)[0] == cs[0]);
        assert(pallet_call_encoding(cs[0]) + (calls_encoding(cs.drop_first())
            + pallet_call_encoding(c)) =~= (pallet_call_encoding(cs[0]) + calls_encoding(
            cs.drop_first(),
        )) + pallet_call_encoding(c));
    }
}

pub proof fn lemma_calls_encoding_skip(cs: Seq<PalletCall>, i: int)
    requires
        0 <= i < cs.len(),
    ensures
        calls_encoding(cs.skip(i)) == pallet_call_encoding(cs[i]) + calls_encoding(cs.skip(i + 1)),
{
    assert(cs.skip(i).len() > 0);
    assert(cs.skip(i)[0] == cs[i]);
    assert(cs.skip(i).drop_first() =~= cs.skip(i + 1));
}

/// Appends `src` to `out`.
pub(crate) fn push_bytes(out: &mut Vec<u8>, src: &Vec<u8>)
    ensures
        final(out)@ == old(out)@ + src@,
{
    let mut i: usize = 0;
    while i < src.len()
        invariant
            i <= src@.len(),
            out@ == old(out)@ + src@.take(i as int),
        decreases src@.len() - i,
    {
        out.push(src[i]);
        i = i + 1;
        proof {
            assert(old(out)@ + src@.take(i as int) =~= (old(out)@ + src@.take(i - 1)).push(
                src@[i - 1],
            ));
        }
    }
    proof {
        assert(src@.take(src@.len() as int) =~= src@);
    }
}

/// Whether two byte vectors hold the same bytes.
pub fn bytes_eq(a: &Vec<u8>, b: &Vec<u8>) -> (r: bool)
    ensures
        r == (a@ == b@),
{
    if a.len() != b.len() {
        proof {
            assert(a@ != b@);
        }
        return false;
    }
    let mut i: usize = 0;
    while i < a.len()
        invariant
            i <= a@.len(),
            a@.len() == b@.len(),
            forall|t: int| 0 <= t < i ==> a@[t] == b@[t],
        decreases a@.len() - i,
    {
        if a[i] != b[i] {
            proof {
                assert(a@ != b@);
            }
            return false;
        }
        i = i + 1;
    }
    proof {
        assert(a@ =~= b@);
    }
    true
}

/// Appends the canonical encoding of `c` to `out`.
pub fn encode_pallet_call(c: &PalletCall, out: &mut Vec<u8>)
    requires
        c.wf(),
    ensures
        final(out)@ == old(out)@ + pallet_call_encoding(*c),
{
    match c {
        PalletCall::TransferKeepAlive { dest, value } => {
            out.push(BALANCES_PALLET_INDEX);
            out.push(TRANSFER_KEEP_ALIVE_CALL_INDEX);
            out.push(ACCOUNT_ID_ADDRESS_INDEX);
            push_bytes(out, dest);
            let venc = scale_encode_u128(*value);
            push_bytes(out, &venc);
            proof {
                assert(out@ =~= old(out)@ + pallet_call_encoding(*c));
            }
        },
        PalletCall::Remark { remark } => {
            out.push(SYSTEM_PALLET_INDEX);
            out.push(REMARK_CALL_INDEX);
            let lenb = scale_encode_compact_u32(remark.len() as u32);
            push_bytes(out, &lenb);
            push_bytes(out, remark);
            proof {
                assert(out@ =~= old(out)@ + pallet_call_encoding(*c));
            }
        },
    }
}

/// Returns the canonical encoding of `c`.
pub fn encode_call(c: &RuntimeCall) -> (r: Vec<u8>)
    requires
        c.wf(),
    ensures
        r@ == call_encoding(*c),
{
    let mut out: Vec<u8> = Vec::new();
    match c {
        RuntimeCall::Single(pc) => {
            encode_pallet_call(pc, &mut out);
        },
        RuntimeCall::BatchAll { calls } => {
            out.push(UTILITY_PALLET_INDEX);
            out.push(BATCH_ALL_CALL_INDEX);
            let lenb = scale_encode_compact_u32(calls.len() as u32);
            push_bytes(&mut out, &lenb);
            let ghost prefix = out@;
            let mut j: usize = 0;
            while j < calls.len()
                invariant
                    j <= calls@.len(),
                    calls@.len() <= u32::MAX,
                    forall|i: int| 0 <= i < calls@.len() ==> (#[trigger] calls@[i]).wf(),
                    out@ == prefix + calls_encoding(calls@.take(j as int)),
                decreases calls@.len() - j,
            {
                encode_pallet_call(&calls[j], &mut out);
                proof {
                    lemma_calls_encoding_push(calls@.take(j as int), calls@[j as int]);
                    assert(calls@.take(j + 1) =~= calls@.take(j as int).push(calls@[j as int]));
                    assert(prefix + (calls_encoding(calls@.take(j as int)) + pallet_call_encoding(
                        calls@[j as int],
                    )) =~= (prefix + calls_encoding(calls@.take(j as int))) + pallet_call_encoding(
                        calls@[j as int],
                    ));
                }
                j = j + 1;
            }
            proof {
                assert(calls@.take(calls@.len() as int) =~= calls@);
                assert(out@ =~= call_encoding(*c));
            }
        },
    }
    out
}

/// Decodes one pallet call starting at `pos`: returns the call and the
/// position just past it, or `None` when no well-formed pallet call's
/// canonical encoding starts there.
#[verifier::rlimit(100)]
pub fn decode_pallet_call_at(bytes: &Vec<u8>, pos: usize) -> (r: Option<(PalletCall, usize)>)
    requires
        pos <= bytes@.len(),
    ensures
        r matches Some(p) ==> p.0.wf() && pos < p.1 <= bytes@.len() && bytes@.subrange(
            pos as int,
            p.1 as int,
        ) == pallet_call_encoding(p.0),
        forall|c: PalletCall|
            c.wf() && (#[trigger] pallet_call_encoding(c)).is_prefix_of(bytes@.skip(pos as int))
                ==> (r matches Some(p) && pallet_call_encoding(p.0) == pallet_call_encoding(c)
                && p.1 == pos + pallet_call_encoding(c).len()),
{
    let len = bytes.len();
    let ghost sk = bytes@.skip(pos as int);
    if len - pos < 2 {
        proof {
            assert forall|c: PalletCall|
                c.wf() && (#[trigger] pallet_call_encoding(c)).is_prefix_of(sk) implies false by {
                lemma_pallet_call_encoding_shape(c);
            }
        }
        return None;
    }
    let b0 = bytes[pos];
    let b1 = bytes[pos + 1];
    proof {
        assert(sk[0] == b0 && sk[1] == b1);
    }
    if b0 == BALANCES_PALLET_INDEX && b1 == TRANSFER_KEEP_ALIVE_CALL_INDEX {
        if len - pos < 51 {
            proof {
                assert forall|c: PalletCall|
                    c.wf() && (#[trigger] pallet_call_encoding(c)).is_prefix_of(sk) implies false by {
                    lemma_pallet_call_encoding_shape(c);
                    assert(pallet_call_encoding(c)[0] == sk[0]);
                }
            }
            return None;
        }
        if bytes[pos + 2] != ACCOUNT_ID_ADDRESS_INDEX {
            proof {
                assert(sk[2] == bytes@[pos + 2]);
                assert forall|c: PalletCall|
                    c.wf() && (#[trigger] pallet_call_encoding(c)).is_prefix_of(sk) implies false by {
                    lemma_pallet_call_encoding_shape(c);
                    assert(pallet_call_encoding(c)[0] == sk[0]);
                    assert(pallet_call_encoding(c)[2] == sk[2]);
                }
            }
            return None;
        }
        let mut dest: Vec<u8> = Vec::new();
        let mut i: usize = 0;
        while i < 32
            invariant
                i <= 32,
                pos + 51 <= len,
                len == bytes@.len(),
                dest@ == bytes@.subrange(pos + 3, pos + 3 + i),
            decreases 32 - i,
        {
            dest.push(bytes[pos + 3 + i]);
            i = i + 1;
            proof {
                assert(bytes@.subrange(pos + 3, pos + 3 + i) =~= bytes@.subrange(
                    pos + 3,
                    pos + 3 + i - 1,
                ).push(bytes@[pos + 3 + i - 1]));
            }
        }
        let value = read_le_val(bytes, pos + 35, 16);
        let call = PalletCall::TransferKeepAlive { dest, value };
        proof {
            lemma_pow256_values();
        }
        let ghost vtail = bytes@.subrange(pos + 35, pos + 51);
        proof {
            lemma_le_bytes_of_val(vtail);
            assert(u128_le_bytes(value) == vtail);
            assert(pallet_call_encoding(call) =~= bytes@.subrange(pos as int, pos + 51));
            assert forall|c: PalletCall|
                c.wf() && (#[trigger] pallet_call_encoding(c)).is_prefix_of(sk) implies (
            pallet_call_encoding(c) == pallet_call_encoding(call) && pos + 51 == pos
                + pallet_call_encoding(c).len()) by {
                lemma_pallet_call_encoding_shape(c);
                assert(pallet_call_encoding(c)[0] == sk[0]);
                match c {
                    PalletCall::TransferKeepAlive { dest: d2, value: v2 } => {
                        let enc = pallet_call_encoding(c);
                        assert(enc =~= sk.subrange(0, 51));
                        assert(u128_le_bytes(v2) =~= vtail) by {
                            lemma_le_bytes_len(v2 as nat, 16);
                            assert forall|t: int| 0 <= t < 16 implies u128_le_bytes(v2)[t]
                                == vtail[t] by {
                                assert(enc[35 + t] == u128_le_bytes(v2)[t]);
                                assert(sk[35 + t] == bytes@[pos + 35 + t]);
                            }
                        }
                        lemma_le_bytes_val(v2 as nat, 16);
                        lemma_le_bytes_val(value as nat, 16);
                        assert(le_val(vtail) == v2 as nat);
                        assert(v2 == value);
                        assert(enc =~= pallet_call_encoding(call));
                    },
                    PalletCall::Remark { .. } => {
                        assert(false);
                    },
                }
            }
        }
        return Some((call, pos + 51));
    } else if b0 == SYSTEM_PALLET_INDEX && b1 == REMARK_CALL_INDEX {
        match decode_compact_u32_at(bytes, pos + 2) {
            None => {
                proof {
                    assert forall|c: PalletCall|
                        c.wf() && (#[trigger] pallet_call_encoding(c)).is_prefix_of(
                        sk,
                    ) implies false by {
                        lemma_pallet_call_encoding_shape(c);
                        assert(pallet_call_encoding(c)[0] == sk[0]);
                        match c {
                            PalletCall::Remark { remark } => {
                                let nlen = remark@.len() as u32;
                                lemma_compact_u32_first_byte(nlen);
                                assert(compact_u32_bytes(nlen).is_prefix_of(
                                    bytes@.skip(pos + 2),
                                )) by {
                                    let enc = pallet_call_encoding(c);
                                    assert forall|t: int|
                                        0 <= t < compact_u32_bytes(nlen).len() implies
                                    compact_u32_bytes(nlen)[t] == bytes@.skip(pos + 2)[t] by {
                                        assert(enc[2 + t] == compact_u32_bytes(nlen)[t]);
                                        assert(sk[2 + t] == bytes@[pos + 2 + t]);
                                    }
                                    assert(compact_u32_bytes(nlen) =~= bytes@.skip(
                                        pos + 2,
                                    ).subrange(0, compact_u32_bytes(nlen).len() as int));
                                }
                            },
                            PalletCall::TransferKeepAlive { .. } => {},
                        }
                    }
                }
                return None;
            },
            Some((n, end)) => {
                let n_usize = n as usize;
                proof {
                    lemma_compact_u32_first_byte(n);
                }
                if n_usize > len - end {
                    proof {
                        assert forall|c: PalletCall|
                            c.wf() && (#[trigger] pallet_call_encoding(c)).is_prefix_of(
                            sk,
                        ) implies false by {
                            lemma_pallet_call_encoding_shape(c);
                            assert(pallet_call_encoding(c)[0] == sk[0]);
                            match c {
                                PalletCall::Remark { remark } => {
                                    let nlen = remark@.len() as u32;
                                    lemma_compact_u32_first_byte(nlen);
                                    let enc = pallet_call_encoding(c);
                                    assert(compact_u32_bytes(nlen).is_prefix_of(
                                        bytes@.skip(pos + 2),
                                    )) by {
                                        assert forall|t: int|
                                            0 <= t < compact_u32_bytes(nlen).len() implies
                                        compact_u32_bytes(nlen)[t] == bytes@.skip(pos + 2)[t] by {
                                            assert(enc[2 + t] == compact_u32_bytes(nlen)[t]);
                                            assert(sk[2 + t] == bytes@[pos + 2 + t]);
                                        }
                                        assert(compact_u32_bytes(nlen) =~= bytes@.skip(
                                            pos + 2,
                                        ).subrange(0, compact_u32_bytes(nlen).len() as int));
                                    }
                                    assert(n == nlen);
                                    assert(enc.len() <= sk.len());
                                },
                                PalletCall::TransferKeepAlive { .. } => {},
                            }
                        }
                    }
                    return None;
                }
                let mut remark: Vec<u8> = Vec::new();
                let mut i: usize = 0;
                while i < n_usize
                    invariant
                        i <= n_usize,
                        end + n_usize <= len,
                        len == bytes@.len(),
                        remark@ == bytes@.subrange(end as int, end + i),
                    decreases n_usize - i,
                {
                    remark.push(bytes[end + i]);
                    i = i + 1;
                    proof {
                        assert(bytes@.subrange(end as int, end + i) =~= bytes@.subrange(
                            end as int,
                            end + i - 1,
                        ).push(bytes@[end + i - 1]));
                    }
                }
                let call = PalletCall::Remark { remark };
                proof {
                    assert(remark@.len() == n);
                    assert(pallet_call_encoding(call) =~= bytes@.subrange(
                        pos as int,
                        end + n_usize,
                    ));
                    assert forall|c: PalletCall|
                        c.wf() && (#[trigger] pallet_call_encoding(c)).is_prefix_of(sk) implies (
                    pallet_call_encoding(c) == pallet_call_encoding(call) && end + n_usize == pos
                        + pallet_call_encoding(c).len()) by {
                        lemma_pallet_call_encoding_shape(c);
                        assert(pallet_call_encoding(c)[0] == sk[0]);
                        match c {
                            PalletCall::Remark { remark: m2 } => {
                                let nlen = m2@.len() as u32;
                                lemma_compact_u32_first_byte(nlen);
                                let enc = pallet_call_encoding(c);
                                assert(compact_u32_bytes(nlen).is_prefix_of(
                                    bytes@.skip(pos + 2),
                                )) by {
                                    assert forall|t: int|
                                        0 <= t < compact_u32_bytes(nlen).len() implies
                                    compact_u32_bytes(nlen)[t] == bytes@.skip(pos + 2)[t] by {
                                        assert(enc[2 + t] == compact_u32_bytes(nlen)[t]);
                                        assert(sk[2 + t] == bytes@[pos + 2 + t]);
                                    }
                                    assert(compact_u32_bytes(nlen) =~= bytes@.skip(
                                        pos + 2,
                                    ).subrange(0, compact_u32_bytes(nlen).len() as int));
                                }
                                assert(n == nlen);
                                assert(end == pos + 2 + compact_u32_len(nlen));
                                assert(m2@ =~= bytes@.subrange(end as int, end + n_usize)) by {
                                    assert forall|t: int| 0 <= t < m2@.len() implies m2@[t]
                                        == bytes@[end + t] by {
                                        assert(enc[2 + compact_u32_len(nlen) + t] == m2@[t]);
                                        assert(sk[2 + compact_u32_len(nlen) + t] == bytes@[pos + 2
                                            + compact_u32_len(nlen) + t]);
                                    }
                                }
                                assert(enc =~= pallet_call_encoding(call));
                            },
                            PalletCall::TransferKeepAlive { .. } => {
                                assert(false);
                            },
                        }
                    }
                }
                return Some((call, end + n_usize));
            },
        }
    } else {
        proof {
            assert forall|c: PalletCall|
                c.wf() && (#[trigger] pallet_call_encoding(c)).is_prefix_of(sk) implies false by {
                lemma_pallet_call_encoding_shape(c);
                assert(pallet_call_encoding(c)[0] == sk[0]);
                assert(pallet_call_encoding(c)[1] == sk[1]);
            }
        }
        return None;
    }
}

/// Decodes a whole byte string as one top-level call. Returns `Some`
/// exactly when the bytes are the canonical encoding of a well-formed
/// call, and then returns a call with those bytes as its encoding.
pub fn decode_call(bytes: &Vec<u8>) -> (r: Option<RuntimeCall>)
    ensures
        r matches Some(c) ==> c.wf() && call_encoding(c) == bytes@,
        forall|c: RuntimeCall| c.wf() && #[trigger] call_encoding(c) == bytes@ ==> r.is_some(),
{
    let len = bytes.len();
    if len < 2 {
        proof {
            assert forall|c: RuntimeCall|
                c.wf() && #[trigger] call_encoding(c) == bytes@ implies false by {
                lemma_call_encoding_shape(c);
            }
        }
        return None;
    }
    let b0 = bytes[0];
    let b1 = bytes[1];
    if b0 == UTILITY_PALLET_INDEX && b1 == BATCH_ALL_CALL_INDEX {
        match decode_compact_u32_at(bytes, 2) {
            None => {
                proof {
                    assert forall|c: RuntimeCall|
                        c.wf() && #[trigger] call_encoding(c) == bytes@ implies false by {
                        lemma_call_encoding_shape(c);
                        match c {
                            RuntimeCall::BatchAll { calls } => {
                                let k0 = calls@.len() as u32;
                                lemma_compact_u32_first_byte(k0);
                                assert(compact_u32_bytes(k0).is_prefix_of(bytes@.skip(2))) by {
                                    let enc = call_encoding(c);
                                    assert forall|t: int|
                                        0 <= t < compact_u32_bytes(k0).len() implies
                                    compact_u32_bytes(k0)[t] == bytes@.skip(2)[t] by {
                                        assert(enc[2 + t] == compact_u32_bytes(k0)[t]);
                                    }
                                    assert(compact_u32_bytes(k0) =~= bytes@.skip(2).subrange(
                                        0,
                                        compact_u32_bytes(k0).len() as int,
                                    ));
                                }
                            },
                            RuntimeCall::Single(..) => {},
                        }
                    }
                }
                return None;
            },
            Some((k, start)) => {
                proof {
                    lemma_compact_u32_first_byte(k);
                    assert forall|c: RuntimeCall|
                        c.wf() && #[trigger] call_encoding(c) == bytes@ implies (
                    c matches RuntimeCall::BatchAll { calls } && calls@.len() == k as int
                        && calls_encoding(calls@.skip(0)) == bytes@.skip(start as int)) by {
                        lemma_call_encoding_shape(c);
                        match c {
                            RuntimeCall::BatchAll { calls } => {
                                let k0 = calls@.len() as u32;
                                lemma_compact_u32_first_byte(k0);
                                let enc = call_encoding(c);
                                assert(compact_u32_bytes(k0).is_prefix_of(bytes@.skip(2))) by {
                                    assert forall|t: int|
                                        0 <= t < compact_u32_bytes(k0).len() implies
                                    compact_u32_bytes(k0)[t] == bytes@.skip(2)[t] by {
                                        assert(enc[2 + t] == compact_u32_bytes(k0)[t]);
                                    }
                                    assert(compact_u32_bytes(k0) =~= bytes@.skip(2).subrange(
                                        0,
                                        compact_u32_bytes(k0).len() as int,
                                    ));
                                }
                                assert(k == k0);
                                assert(start == 2 + compact_u32_len(k0));
                                assert(calls@.skip(0) =~= calls@);
                                assert(calls_encoding(calls@) =~= bytes@.skip(start as int)) by {
                                    assert(enc.len() == 2 + compact_u32_len(k0) + calls_encoding(
                                        calls@,
                                    ).len());
                                    assert forall|t: int|
                                        0 <= t < calls_encoding(calls@).len() implies
                                    calls_encoding(calls@)[t] == bytes@.skip(start as int)[t] by {
                                        assert(enc[start + t] == calls_encoding(calls@)[t]);
                                    }
                                }
                            },
                            RuntimeCall::Single(..) => {
                                assert(false);
                            },
                        }
                    }
                }
                let mut calls: Vec<PalletCall> = Vec::new();
                let mut pos = start;
                let mut j: u32 = 0;
                while j < k
                    invariant
                        j as int == calls@.len(),
                        j <= k,
                        start <= pos <= len,
                        len == bytes@.len(),
                        2 < start <= len,
                        bytes@.subrange(start as int, pos as int) == calls_encoding(calls@),
                        forall|t: int| 0 <= t < calls@.len() ==> (#[trigger] calls@[t]).wf(),
                        forall|c: RuntimeCall|
                            c.wf() && #[trigger] call_encoding(c) == bytes@ ==> (
                            c matches RuntimeCall::BatchAll { calls: cs } && cs@.len() == k as int
                                && calls_encoding(cs@.skip(j as int)) == bytes@.skip(pos as int)),
                    decreases k - j,
                {
                    match decode_pallet_call_at(bytes, pos) {
                        None => {
                            proof {
                                assert forall|c: RuntimeCall|
                                    c.wf() && #[trigger] call_encoding(c) == bytes@ implies false by {
                                    match c {
                                        RuntimeCall::BatchAll { calls: cs } => {
                                            lemma_calls_encoding_skip(cs@, j as int);
                                            assert(cs@[j as int].wf());
                                            assert(pallet_call_encoding(
                                                cs@[j as int],
                                            ).is_prefix_of(bytes@.skip(pos as int))) by {
                                                assert(pallet_call_encoding(cs@[j as int])
                                                    =~= bytes@.skip(pos as int).subrange(
                                                    0,
                                                    pallet_call_encoding(cs@[j as int]).len() as int,
                                                ));
                                            }
                                        },
                                        RuntimeCall::Single(..) => {
                                            assert(false);
                                        },
                                    }
                                }
                            }
                            return None;
                        },
                        Some((pc, end)) => {
                            proof {
                                lemma_calls_encoding_push(calls@, pc);
                                assert(bytes@.subrange(start as int, end as int) =~= bytes@.subrange(
                                    start as int,
                                    pos as int,
                                ) + bytes@.subrange(pos as int, end as int));
                                assert forall|c: RuntimeCall|
                                    c.wf() && #[trigger] call_encoding(c) == bytes@ implies (
                                c matches RuntimeCall::BatchAll { calls: cs } && cs@.len()
                                    == k as int && calls_encoding(cs@.skip(j + 1)) == bytes@.skip(
                                    end as int,
                                )) by {
                                    match c {
                                        RuntimeCall::BatchAll { calls: cs } => {
                                            lemma_calls_encoding_skip(cs@, j as int);
                                            assert(cs@[j as int].wf());
                                            let ce = pallet_call_encoding(cs@[j as int]);
                                            assert(ce.is_prefix_of(bytes@.skip(pos as int))) by {
                                                assert(ce =~= bytes@.skip(pos as int).subrange(
                                                    0,
                                                    ce.len() as int,
                                                ));
                                            }
                                            assert(end == pos + ce.len());
                                            assert(calls_encoding(cs@.skip(j + 1)) =~= bytes@.skip(
                                                end as int,
                                            )) by {
                                                assert forall|t: int|
                                                    0 <= t < calls_encoding(
                                                        cs@.skip(j + 1),
                                                    ).len() implies #[trigger] calls_encoding(
                                                    cs@.skip(j + 1),
                                                )[t] == bytes@[end + t] by {
                                                    assert(calls_encoding(cs@.skip(j as int))[ce.len()
                                                        + t] == calls_encoding(cs@.skip(j + 1))[t]);
                                                    assert(bytes@.skip(pos as int)[ce.len() + t]
                                                        == bytes@[end + t]);
                                                }
                                            }
                                        },
                                        RuntimeCall::Single(..) => {
                                            assert(false);
                                        },
                                    }
                                }
                            }
                            calls.push(pc);
                            pos = end;
                            j = j + 1;
                        },
                    }
                }
                if pos == len {
                    let call = RuntimeCall::BatchAll { calls };
                    proof {
                        assert(calls@.len() as u32 == k);
                        assert(call_encoding(call) =~= bytes@);
                    }
                    return Some(call);
                } else {
                    proof {
                        assert forall|c: RuntimeCall|
                            c.wf() && #[trigger] call_encoding(c) == bytes@ implies false by {
                            match c {
                                RuntimeCall::BatchAll { calls: cs } => {
                                    assert(cs@.skip(k as int) =~= Seq::<PalletCall>::empty());
                                    assert(calls_encoding(cs@.skip(k as int)).len() == 0);
                                    assert(bytes@.skip(pos as int).len() == 0);
                                },
                                RuntimeCall::Single(..) => {
                                    assert(false);
                                },
                            }
                        }
                    }
                    return None;
                }
            },
        }
    } else {
        match decode_pallet_call_at(bytes, 0) {
            None => {
                proof {
                    assert(bytes@.skip(0) =~= bytes@);
                    assert forall|c: RuntimeCall|
                        c.wf() && #[trigger] call_encoding(c) == bytes@ implies false by {
                        lemma_call_encoding_shape(c);
                        match c {
                            RuntimeCall::Single(pc) => {
                                assert(pallet_call_encoding(pc).is_prefix_of(bytes@)) by {
                                    assert(pallet_call_encoding(pc) =~= bytes@.subrange(
                                        0,
                                        pallet_call_encoding(pc).len() as int,
                                    ));
                                }
                            },
                            RuntimeCall::BatchAll { .. } => {},
                        }
                    }
                }
                return None;
            },
            Some((pc, end)) => {
                if end == len {
                    let call = RuntimeCall::Single(pc);
                    proof {
                        assert(call_encoding(call) =~= bytes@);
                    }
                    return Some(call);
                } else {
                    proof {
                        assert(bytes@.skip(0) =~= bytes@);
                        assert forall|c: RuntimeCall|
                            c.wf() && #[trigger] call_encoding(c) == bytes@ implies false by {
                            lemma_call_encoding_shape(c);
                            match c {
                                RuntimeCall::Single(pc2) => {
                                    assert(pallet_call_encoding(pc2).is_prefix_of(bytes@)) by {
                                        assert(pallet_call_encoding(pc2) =~= bytes@.subrange(
                                            0,
                                            pallet_call_encoding(pc2).len() as int,
                                        ));
                                    }
                                    assert(end == pallet_call_encoding(pc2).len());
                                },
                                RuntimeCall::BatchAll { .. } => {},
                            }
                        }
                    }
                    return None;
                }
            },
        }
    }
}

} // verus!
