//! SCALE primitives: little-endian fixed-width integers and the compact
//! (variable-length) encoding of `u32`, as the payment chain serializes
//! them. Encoding calls into `parity-scale-codec`; decoding is verified
//! here and accepts exactly the canonical byte forms.

use vstd::prelude::*;
use vstd::arithmetic::div_mod::{
    lemma_fundamental_div_mod, lemma_fundamental_div_mod_converse_div,
    lemma_fundamental_div_mod_converse_mod, lemma_mod_mod,
};
use vstd::arithmetic::mul::lemma_mul_inequality;

verus! {

/// The little-endian encoding of `v` in exactly `n` bytes; the value is
/// truncated to `n` bytes if it does not fit.
pub open spec fn le_bytes(v: nat, n: nat) -> Seq<u8>
    decreases n,
{
    if n == 0 {
        Seq::empty()
    } else {
        seq![(v % 256) as u8] + le_bytes(v / 256, (n - 1) as nat)
    }
}

/// The value of a little-endian byte sequence.
pub open spec fn le_val(s: Seq<u8>) -> nat
    decreases s.len(),
{
    if s.len() == 0 {
        0
    } else {
        s[0] as nat + 256 * le_val(s.drop_first())
    }
}

/// 256 raised to the power `n`: the number of values `n` bytes can hold.
pub open spec fn pow256(n: nat) -> nat
    decreases n,
{
    if n == 0 {
        1
    } else {
        256 * pow256((n - 1) as nat)
    }
}

/// The 16-byte little-endian encoding of a `u128`.
pub open spec fn u128_le_bytes(v: u128) -> Seq<u8> {
    le_bytes(v as nat, 16)
}

/// The canonical SCALE compact encoding of a `u32`: a two-bit mode in the
/// first byte selects one-, two-, four- or five-byte form, and each value
/// has exactly one (minimal) form.
pub open spec fn compact_u32_bytes(v: u32) -> Seq<u8> {
    if v < 64 {
        seq![(v * 4) as u8]
    } else if v < 16384 {
        le_bytes((v * 4 + 1) as nat, 2)
    } else if v < 1073741824 {
        le_bytes((v * 4 + 2) as nat, 4)
    } else {
        seq![3u8] + le_bytes(v as nat, 4)
    }
}

/// Length in bytes of the compact encoding of `v`.
pub open spec fn compact_u32_len(v: u32) -> int {
    if v < 64 {
        1
    } else if v < 16384 {
        2
    } else if v < 1073741824 {
        4
    } else {
        5
    }
}

pub proof fn lemma_pow256_values()
    ensures
        pow256(1) == 0x100,
        pow256(2) == 0x10000,
        pow256(4) == 0x100000000,
        pow256(15) == 0x1000000000000000000000000000000,
        pow256(16) == 0x100000000000000000000000000000000,
{
    assert(pow256(0) == 1);
    assert(pow256(1) == 0x100);
    assert(pow256(2) == 0x10000);
    assert(pow256(3) == 0x1000000);
    assert(pow256(4) == 0x100000000);
    assert(pow256(5) == 0x10000000000);
    assert(pow256(6) == 0x1000000000000);
    assert(pow256(7) == 0x100000000000000);
    assert(pow256(8) == 0x10000000000000000);
    assert(pow256(9) == 0x1000000000000000000);
    assert(pow256(10) == 0x100000000000000000000);
    assert(pow256(11) == 0x10000000000000000000000);
    assert(pow256(12) == 0x1000000000000000000000000);
    assert(pow256(13) == 0x100000000000000000000000000);
    assert(pow256(14) == 0x10000000000000000000000000000);
    assert(pow256(15) == 0x1000000000000000000000000000000);
    assert(pow256(16) == 0x100000000000000000000000000000000);
}

pub proof fn lemma_le_bytes_len(v: nat, n: nat)
    ensures
        le_bytes(v, n).len() == n,
    decreases n,
{
    if n > 0 {
        lemma_le_bytes_len(v / 256, (n - 1) as nat);
    }
}

pub proof fn lemma_le_val_bound(s: Seq<u8>)
    ensures
        le_val(s) < pow256(s.len()),
    decreases s.len(),
{
    if s.len() > 0 {
        lemma_le_val_bound(s.drop_first());
        let r = le_val(s.drop_first());
        let p = pow256((s.len() - 1) as nat);
        assert(r <= p - 1);
        lemma_mul_inequality(r as int, p - 1, 256);
        assert(256 * r <= 256 * (p - 1)) by {
            assert(r * 256 == 256 * r) by (nonlinear_arith);
            assert((p - 1) * 256 == 256 * (p - 1)) by (nonlinear_arith);
        }
        assert(256 * (p - 1) + 255 < 256 * p) by (nonlinear_arith);
    }
}

/// Decoding the little-endian bytes of `v` gives `v` back.
pub proof fn lemma_le_bytes_val(v: nat, n: nat)
    requires
        v < pow256(n),
    ensures
        le_val(le_bytes(v, n)) == v,
    decreases n,
{
    if n == 0 {
        assert(v == 0);
    } else {
        lemma_fundamental_div_mod(v as int, 256);
        assert(v / 256 < pow256((n - 1) as nat)) by {
            if v / 256 >= pow256((n - 1) as nat) {
                lemma_mul_inequality(pow256((n - 1) as nat) as int, (v / 256) as int, 256);
                assert(256 * (v / 256) <= v);
                assert(false);
            }
        }
        lemma_le_bytes_val(v / 256, (n - 1) as nat);
        let s = le_bytes(v, n);
        lemma_le_bytes_len(v / 256, (n - 1) as nat);
        assert(s.drop_first() =~= le_bytes(v / 256, (n - 1) as nat));
        assert(s[0] == (v % 256) as u8);
        assert(le_val(s) == v % 256 + 256 * (v / 256));
    }
}

/// Every byte sequence is the little-endian encoding of its value.
pub proof fn lemma_le_bytes_of_val(s: Seq<u8>)
    ensures
        le_bytes(le_val(s), s.len()) == s,
    decreases s.len(),
{
    if s.len() > 0 {
        let rest = s.drop_first();
        lemma_le_bytes_of_val(rest);
        let v = le_val(s);
        assert(v == s[0] + 256 * le_val(rest));
        lemma_fundamental_div_mod_converse_mod(v as int, 256, le_val(rest) as int, s[0] as int);
        lemma_fundamental_div_mod_converse_div(v as int, 256, le_val(rest) as int, s[0] as int);
        assert(v % 256 == s[0]);
        assert(v / 256 == le_val(rest));
        assert(le_bytes(v, s.len()) =~= s);
    }
}

/// Relies on `parity_scale_codec`'s `Encode` for `u128`: the encoding is
/// the value's 16 little-endian bytes (`to_le_bytes`).
#[verifier::external_body]
pub(crate) fn scale_encode_u128(v: u128) -> (r: Vec<u8>)
    ensures
        r@ == u128_le_bytes(v),
{
    parity_scale_codec::Encode::encode(&v)
}

/// Relies on `parity_scale_codec`'s `Encode` for `Compact<u32>`: a two-bit
/// mode in the low bits of the first byte, then the minimal little-endian
/// form of the value.
#[verifier::external_body]
pub(crate) fn scale_encode_compact_u32(v: u32) -> (r: Vec<u8>)
    ensures
        r@ == compact_u32_bytes(v),
{
    parity_scale_codec::Encode::encode(&parity_scale_codec::Compact(v))
}

/// Reads the value of the `n` little-endian bytes at `pos`.
pub(crate) fn read_le_val(bytes: &Vec<u8>, pos: usize, n: usize) -> (v: u128)
    requires
        pos + n <= bytes@.len(),
        n <= 16,
    ensures
        v as nat == le_val(bytes@.subrange(pos as int, pos + n)),
        (v as nat) < pow256(n as nat),
{
    proof {
        lemma_le_val_bound(bytes@.subrange(pos as int, pos + n));
    }
    let len = bytes.len();
    let mut acc: u128 = 0;
    let mut i: usize = n;
    while i > 0
        invariant
            i <= n,
            n <= 16,
            len == bytes@.len(),
            pos + n <= len,
            acc as nat == le_val(bytes@.subrange(pos + i, pos + n)),
            (acc as nat) < pow256((n - i) as nat),
        decreases i,
    {
        i = i - 1;
        let b = bytes[pos + i];
        proof {
            lemma_pow256_values();
            let p = pow256((n - i - 1) as nat);
            assert(pow256((n - i) as nat) == 256 * p);
            assert(acc < p);
            assert(p <= pow256(15)) by {
                lemma_pow256_le((n - i - 1) as nat, 15);
            }
            assert(256 * acc + 255 < 256 * p) by (nonlinear_arith)
                requires acc < p;
            assert(256 * p <= 256 * pow256(15)) by (nonlinear_arith)
                requires p <= pow256(15);
            assert(256 * pow256(15) == pow256(16));
        }
        acc = b as u128 + acc * 256;
        proof {
            let s = bytes@.subrange(pos + i, pos + n);
            assert(s.drop_first() =~= bytes@.subrange(pos + i + 1, pos + n));
            assert(s[0] == b);
        }
    }
    proof {
        assert(bytes@.subrange(pos as int, pos + n) =~= bytes@.subrange(pos + 0, pos + n));
    }
    acc
}

pub proof fn lemma_pow256_le(a: nat, b: nat)
    requires
        a <= b,
    ensures
        pow256(a) <= pow256(b),
    decreases b,
{
    if a < b {
        lemma_pow256_le(a, (b - 1) as nat);
        lemma_pow256_pos((b - 1) as nat);
        let p = pow256((b - 1) as nat);
        assert(p <= 256 * p) by (nonlinear_arith)
            requires p >= 1;
    }
}

pub proof fn lemma_pow256_pos(n: nat)
    ensures
        pow256(n) >= 1,
    decreases n,
{
    if n > 0 {
        lemma_pow256_pos((n - 1) as nat);
        let p = pow256((n - 1) as nat);
        assert(256 * p >= p) by (nonlinear_arith)
            requires p >= 1;
    }
}

/// Decodes a canonical compact `u32` starting at `pos`. Returns the value
/// and the position just past it, or `None` when no `u32`'s canonical
/// compact encoding starts there.
pub fn decode_compact_u32_at(bytes: &Vec<u8>, pos: usize) -> (r: Option<(u32, usize)>)
    requires
        pos <= bytes@.len(),
    ensures
        r matches Some(p) ==> pos < p.1 <= bytes@.len()
            && bytes@.subrange(pos as int, p.1 as int) == compact_u32_bytes(p.0)
            && p.1 - pos == compact_u32_len(p.0),
        forall|v: u32|
            compact_u32_bytes(v).is_prefix_of(bytes@.skip(pos as int)) ==> r == Some::<(
                u32,
                usize,
            )>((v, (pos + compact_u32_len(v)) as usize)),
{
    proof {
        lemma_pow256_values();
    }
    let len = bytes.len();
    if pos >= len {
        proof {
            assert forall|v: u32| !compact_u32_bytes(v).is_prefix_of(bytes@.skip(pos as int)) by {
                lemma_compact_u32_first_byte(v);
                assert(bytes@.skip(pos as int).len() == 0);
            }
        }
        return None;
    }
    let b0 = bytes[pos];
    let ghost sk = bytes@.skip(pos as int);
    assert(sk[0] == b0);
    let mode = b0 % 4;
    if mode == 0 {
        let v = (b0 / 4) as u32;
        proof {
            assert(compact_u32_bytes(v) =~= bytes@.subrange(pos as int, pos + 1));
            assert forall|w: u32| compact_u32_bytes(w).is_prefix_of(sk) implies w == v by {
                lemma_compact_u32_first_byte(w);
                assert(compact_u32_bytes(w)[0] == sk[0]);
                lemma_byte_mode(w);
                assert(w < 64);
            }
        }
        return Some((v, pos + 1));
    } else if mode == 1 {
        if len - pos < 2 {
            proof {
                assert forall|w: u32| !compact_u32_bytes(w).is_prefix_of(sk) by {
                    lemma_compact_u32_first_byte(w);
                    lemma_byte_mode(w);
                    if compact_u32_bytes(w).is_prefix_of(sk) {
                        assert(compact_u32_bytes(w)[0] == sk[0]);
                        assert(64 <= w < 16384);
                        assert(compact_u32_bytes(w).len() == 2);
                    }
                }
            }
            return None;
        }
        let raw = read_le_val(bytes, pos, 2);
        let v = (raw / 4) as u32;
        proof {
            let s2 = bytes@.subrange(pos as int, pos + 2);
            assert(le_val(s2) % 4 == 1) by {
                lemma_le_val_low_bits(s2);
                assert(s2[0] == b0);
            }
            lemma_fundamental_div_mod(raw as int, 4);
        }
        if v >= 64 {
            proof {
                let s2 = bytes@.subrange(pos as int, pos + 2);
                assert(raw == v * 4 + 1);
                assert(v < 16384);
                assert(compact_u32_bytes(v as u32) == s2) by {
                    lemma_le_bytes_of_val(s2);
                    assert(s2.len() == 2);
                }
                assert forall|w: u32| compact_u32_bytes(w).is_prefix_of(sk) implies w == v by {
                    lemma_compact_u32_first_byte(w);
                    assert(compact_u32_bytes(w)[0] == sk[0]);
                    lemma_byte_mode(w);
                    assert(64 <= w < 16384);
                    assert(compact_u32_bytes(w).len() == 2);
                    assert(compact_u32_bytes(w) =~= s2);
                    lemma_le_bytes_val((w * 4 + 1) as nat, 2);
                }
            }
            return Some((v, pos + 2));
        } else {
            proof {
                assert forall|w: u32| !compact_u32_bytes(w).is_prefix_of(sk) by {
                    if compact_u32_bytes(w).is_prefix_of(sk) {
                        lemma_compact_u32_first_byte(w);
                        assert(compact_u32_bytes(w)[0] == sk[0]);
                        lemma_byte_mode(w);
                        assert(64 <= w < 16384);
                        let s2 = bytes@.subrange(pos as int, pos + 2);
                        assert(compact_u32_bytes(w).len() == 2);
                        assert(compact_u32_bytes(w) =~= s2);
                        lemma_le_bytes_val((w * 4 + 1) as nat, 2);
                        assert(raw == w * 4 + 1);
                        assert(raw / 4 == w) by {
                            lemma_fundamental_div_mod_converse_div(raw as int, 4, w as int, 1);
                        }
                    }
                }
            }
            return None;
        }
    } else if mode == 2 {
        if len - pos < 4 {
            proof {
                assert forall|w: u32| !compact_u32_bytes(w).is_prefix_of(sk) by {
                    lemma_compact_u32_first_byte(w);
                    lemma_byte_mode(w);
                    if compact_u32_bytes(w).is_prefix_of(sk) {
                        assert(compact_u32_bytes(w)[0] == sk[0]);
                        assert(16384 <= w < 1073741824);
                        assert(compact_u32_bytes(w).len() == 4);
                    }
                }
            }
            return None;
        }
        let raw = read_le_val(bytes, pos, 4);
        let v = (raw / 4) as u32;
        proof {
            let s4 = bytes@.subrange(pos as int, pos + 4);
            assert(le_val(s4) % 4 == 2) by {
                lemma_le_val_low_bits(s4);
                assert(s4[0] == b0);
            }
            lemma_fundamental_div_mod(raw as int, 4);
        }
        if v >= 16384 {
            proof {
                let s4 = bytes@.subrange(pos as int, pos + 4);
                assert(raw == v * 4 + 2);
                assert(v < 1073741824);
                assert(compact_u32_bytes(v as u32) == s4) by {
                    lemma_le_bytes_of_val(s4);
                    assert(s4.len() == 4);
                }
                assert forall|w: u32| compact_u32_bytes(w).is_prefix_of(sk) implies w == v by {
                    lemma_compact_u32_first_byte(w);
                    assert(compact_u32_bytes(w)[0] == sk[0]);
                    lemma_byte_mode(w);
                    assert(16384 <= w < 1073741824);
                    assert(compact_u32_bytes(w).len() == 4);
                    assert(compact_u32_bytes(w) =~= s4);
                    lemma_le_bytes_val((w * 4 + 2) as nat, 4);
                }
            }
            return Some((v, pos + 4));
        } else {
            proof {
                assert forall|w: u32| !compact_u32_bytes(w).is_prefix_of(sk) by {
                    if compact_u32_bytes(w).is_prefix_of(sk) {
                        lemma_compact_u32_first_byte(w);
                        assert(compact_u32_bytes(w)[0] == sk[0]);
                        lemma_byte_mode(w);
                        assert(16384 <= w < 1073741824);
                        let s4 = bytes@.subrange(pos as int, pos + 4);
                        assert(compact_u32_bytes(w).len() == 4);
                        assert(compact_u32_bytes(w) =~= s4);
                        lemma_le_bytes_val((w * 4 + 2) as nat, 4);
                        assert(raw == w * 4 + 2);
                        assert(raw / 4 == w) by {
                            lemma_fundamental_div_mod_converse_div(raw as int, 4, w as int, 2);
                        }
                    }
                }
            }
            return None;
        }
    } else {
        if b0 == 3 && len - pos >= 5 {
            let raw = read_le_val(bytes, pos + 1, 4);
            if raw >= 1073741824 {
                let v = raw as u32;
                proof {
                    let s4 = bytes@.subrange(pos + 1, pos + 5);
                    lemma_le_bytes_of_val(s4);
                    assert(s4.len() == 4);
                    assert(compact_u32_bytes(v) =~= bytes@.subrange(pos as int, pos + 5));
                    assert forall|w: u32| compact_u32_bytes(w).is_prefix_of(sk) implies w == v by {
                        lemma_compact_u32_first_byte(w);
                        assert(compact_u32_bytes(w)[0] == sk[0]);
                        lemma_byte_mode(w);
                        assert(w >= 1073741824);
                        assert(compact_u32_bytes(w).len() == 5) by {
                            lemma_le_bytes_len(w as nat, 4);
                        }
                        assert(compact_u32_bytes(w).skip(1) =~= s4);
                        assert(le_bytes(w as nat, 4) =~= s4);
                        lemma_le_bytes_val(w as nat, 4);
                    }
                }
                return Some((v, pos + 5));
            } else {
                proof {
                    assert forall|w: u32| !compact_u32_bytes(w).is_prefix_of(sk) by {
                        if compact_u32_bytes(w).is_prefix_of(sk) {
                            lemma_compact_u32_first_byte(w);
                            assert(compact_u32_bytes(w)[0] == sk[0]);
                            lemma_byte_mode(w);
                            assert(w >= 1073741824);
                            let s4 = bytes@.subrange(pos + 1, pos + 5);
                            assert(compact_u32_bytes(w).len() == 5) by {
                                lemma_le_bytes_len(w as nat, 4);
                            }
                            assert(compact_u32_bytes(w).skip(1) =~= s4);
                            assert(le_bytes(w as nat, 4) =~= s4);
                            lemma_le_bytes_val(w as nat, 4);
                        }
                    }
                }
                return None;
            }
        } else {
            proof {
                assert forall|w: u32| !compact_u32_bytes(w).is_prefix_of(sk) by {
                    if compact_u32_bytes(w).is_prefix_of(sk) {
                        lemma_compact_u32_first_byte(w);
                        assert(compact_u32_bytes(w)[0] == sk[0]);
                        lemma_byte_mode(w);
                        assert(w >= 1073741824);
                        assert(sk[0] == 3);
                        assert(compact_u32_bytes(w).len() == 5) by {
                            lemma_le_bytes_len(w as nat, 4);
                        }
                    }
                }
            }
            return None;
        }
    }
}

/// The compact encoding is non-empty, and its length is `compact_u32_len`.
pub proof fn lemma_compact_u32_first_byte(v: u32)
    ensures
        compact_u32_bytes(v).len() == compact_u32_len(v),
        compact_u32_bytes(v).len() >= 1,
{
    if v < 64 {
    } else if v < 16384 {
        lemma_le_bytes_len((v * 4 + 1) as nat, 2);
    } else if v < 1073741824 {
        lemma_le_bytes_len((v * 4 + 2) as nat, 4);
    } else {
        lemma_le_bytes_len(v as nat, 4);
    }
}

/// The two low bits of a compact encoding's first byte give the mode.
pub proof fn lemma_byte_mode(v: u32)
    ensures
        v < 64 ==> compact_u32_bytes(v)[0] % 4 == 0 && compact_u32_bytes(v)[0] / 4 == v,
        64 <= v < 16384 ==> compact_u32_bytes(v)[0] % 4 == 1,
        16384 <= v < 1073741824 ==> compact_u32_bytes(v)[0] % 4 == 2,
        v >= 1073741824 ==> compact_u32_bytes(v)[0] == 3,
{
    if v < 64 {
        lemma_fundamental_div_mod_converse_mod(v * 4, 4, v as int, 0);
        lemma_fundamental_div_mod_converse_div(v * 4, 4, v as int, 0);
    } else if v < 16384 {
        let x = v * 4 + 1;
        assert(compact_u32_bytes(v)[0] == (x % 256) as u8);
        lemma_mod_mod(x as int, 4, 64);
        lemma_fundamental_div_mod_converse_mod(x as int, 4, v as int, 1);
    } else if v < 1073741824 {
        let x = v * 4 + 2;
        assert(compact_u32_bytes(v)[0] == (x % 256) as u8);
        lemma_mod_mod(x as int, 4, 64);
        lemma_fundamental_div_mod_converse_mod(x as int, 4, v as int, 2);
    } else {
    }
}

/// The two low bits of the first byte are the two low bits of the value.
pub proof fn lemma_le_val_low_bits(s: Seq<u8>)
    requires
        s.len() > 0,
    ensures
        le_val(s) % 4 == s[0] % 4,
{
    let r = le_val(s.drop_first());
    assert(le_val(s) == s[0] + 256 * r);
    assert((s[0] + 256 * r) % 4 == s[0] % 4) by (nonlinear_arith);
}

} // verus!
