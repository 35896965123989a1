use para_registry::calls::{decode_call, encode_call, PalletCall, RuntimeCall};
use para_registry::payment::{build_expected_call, parse_cost, remark_payload};
use para_registry::types::{PaymentInfo, RelayChain};

fn remark(bytes: &[u8]) -> RuntimeCall {
    RuntimeCall::Single(PalletCall::Remark { remark: bytes.to_vec() })
}

#[test]
fn remark_encoding_is_canonical_scale() {
    // System pallet 0, remark call 0, compact(2) = 0x08, then the payload.
    let enc = encode_call(&remark(b"hi"));
    assert_eq!(enc, vec![0u8, 0, 0x08, 104, 105]);
}

#[test]
fn transfer_encoding_is_canonical_scale() {
    let call = RuntimeCall::Single(PalletCall::TransferKeepAlive {
        dest: vec![9u8; 32],
        value: 5,
    });
    let enc = encode_call(&call);
    let mut expected = vec![5u8, 3, 0];
    expected.extend_from_slice(&[9u8; 32]);
    expected.extend_from_slice(&5u128.to_le_bytes());
    assert_eq!(enc, expected);
}

#[test]
fn batch_all_encoding_is_canonical_scale() {
    let call = RuntimeCall::BatchAll {
        calls: vec![
            PalletCall::TransferKeepAlive { dest: vec![1u8; 32], value: 1_000_000 },
            PalletCall::Remark { remark: b"Polkadot:2000".to_vec() },
        ],
    };
    let enc = encode_call(&call);
    let mut expected = vec![26u8, 2, 0x08];
    expected.extend_from_slice(&[5u8, 3, 0]);
    expected.extend_from_slice(&[1u8; 32]);
    expected.extend_from_slice(&1_000_000u128.to_le_bytes());
    expected.extend_from_slice(&[0u8, 0, 52]);
    expected.extend_from_slice(b"Polkadot:2000");
    assert_eq!(enc, expected);
}

#[test]
fn compact_length_prefix_uses_two_byte_mode_from_64() {
    let enc63 = encode_call(&remark(&[b'x'; 63]));
    assert_eq!(&enc63[..3], &[0u8, 0, 0xfc]);
    assert_eq!(enc63.len(), 3 + 63);

    let enc64 = encode_call(&remark(&[b'x'; 64]));
    // (64 << 2) | 0b01 = 257, little endian.
    assert_eq!(&enc64[..4], &[0u8, 0, 0x01, 0x01]);
    assert_eq!(enc64.len(), 4 + 64);
}

#[test]
fn decode_inverts_encode() {
    let calls = vec![
        remark(b""),
        remark(b"subscription"),
        RuntimeCall::Single(PalletCall::TransferKeepAlive {
            dest: vec![3u8; 32],
            value: u128::MAX,
        }),
        RuntimeCall::BatchAll { calls: vec![] },
        RuntimeCall::BatchAll {
            calls: vec![
                PalletCall::TransferKeepAlive { dest: vec![0u8; 32], value: 0 },
                PalletCall::Remark { remark: b"Kusama:42".to_vec() },
            ],
        },
    ];
    for call in calls {
        let enc = encode_call(&call);
        let decoded = decode_call(&enc).expect("canonical bytes decode");
        assert_eq!(encode_call(&decoded), enc);
    }
}

#[test]
fn decode_rejects_garbage_and_truncations() {
    assert!(decode_call(&vec![]).is_none());
    assert!(decode_call(&vec![1, 2, 3]).is_none());
    // Unknown pallet / call indices.
    assert!(decode_call(&vec![4, 3, 0]).is_none());
    assert!(decode_call(&vec![5, 4, 0]).is_none());
    // Truncated transfer.
    let transfer = encode_call(&RuntimeCall::Single(PalletCall::TransferKeepAlive {
        dest: vec![9u8; 32],
        value: 5,
    }));
    assert!(decode_call(&transfer[..50].to_vec()).is_none());
    // Trailing byte after a complete call.
    let mut padded = encode_call(&remark(b"hi"));
    padded.push(0);
    assert!(decode_call(&padded).is_none());
    // Batch that promises more calls than it holds.
    assert!(decode_call(&vec![26, 2, 0x08, 0, 0, 0x04, b'x']).is_none());
}

#[test]
fn decode_rejects_non_canonical_compact() {
    // A remark of length 0 with the length written in two-byte mode:
    // parity-scale-codec would never emit this, and the decoder refuses it.
    assert!(decode_call(&vec![0, 0, 0x01, 0x00]).is_none());
    // Canonical form of the same call decodes.
    assert!(decode_call(&vec![0, 0, 0x00]).is_some());
}

#[test]
fn parse_cost_accepts_decimal_u128() {
    assert_eq!(parse_cost("0"), Some(0));
    assert_eq!(parse_cost("007"), Some(7));
    assert_eq!(parse_cost("1000000"), Some(1_000_000));
    assert_eq!(parse_cost("+5"), Some(5));
    assert_eq!(
        parse_cost("340282366920938463463374607431768211455"),
        Some(u128::MAX)
    );
}

#[test]
fn parse_cost_rejects_malformed_and_overflowing() {
    assert_eq!(parse_cost(""), None);
    assert_eq!(parse_cost("+"), None);
    assert_eq!(parse_cost("12a"), None);
    assert_eq!(parse_cost("-1"), None);
    assert_eq!(parse_cost(" 1"), None);
    // One past u128::MAX.
    assert_eq!(parse_cost("340282366920938463463374607431768211456"), None);
}

#[test]
fn remark_payload_names_the_parachain() {
    assert_eq!(remark_payload(RelayChain::Polkadot, 2000), b"Polkadot:2000".to_vec());
    assert_eq!(remark_payload(RelayChain::Kusama, 0), b"Kusama:0".to_vec());
    assert_eq!(
        remark_payload(RelayChain::Polkadot, 4294967295),
        b"Polkadot:4294967295".to_vec()
    );
}

#[test]
fn expected_call_is_deterministic_and_exact() {
    let info = PaymentInfo {
        rpc_url: String::from("ws://127.0.0.1:9944"),
        receiver: vec![7u8; 32],
        cost: String::from("1000000"),
        subscription_duration: 3600,
        renewal_period: 3600,
    };
    let one = build_expected_call(RelayChain::Polkadot, 2000, &info).unwrap();
    let two = build_expected_call(RelayChain::Polkadot, 2000, &info).unwrap();
    assert_eq!(encode_call(&one), encode_call(&two));

    let mut expected = vec![26u8, 2, 0x08];
    expected.extend_from_slice(&[5u8, 3, 0]);
    expected.extend_from_slice(&[7u8; 32]);
    expected.extend_from_slice(&1_000_000u128.to_le_bytes());
    expected.extend_from_slice(&[0u8, 0, 52]);
    expected.extend_from_slice(b"Polkadot:2000");
    assert_eq!(encode_call(&one), expected);
}
