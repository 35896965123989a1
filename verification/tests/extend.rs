use para_registry::calls::encode_call;
use para_registry::extend_subscription::{extend_subscription, ExtendSubscriptionData};
use para_registry::payment::build_expected_call;
use para_registry::types::{Error, Parachain, PaymentError, PaymentInfo, RelayChain};

const PARA_2000_PAYMENT: u32 = 9145403;
const FINALIZED_HEAD: u32 = 9500000;

fn payment_info() -> PaymentInfo {
    PaymentInfo {
        rpc_url: String::from("ws://127.0.0.1:9944"),
        receiver: vec![7u8; 32],
        cost: String::from("1000000"),
        subscription_duration: 3600,
        renewal_period: 500,
    }
}

fn block_extrinsics(number: u32) -> Vec<Vec<u8>> {
    if number == PARA_2000_PAYMENT {
        let info = payment_info();
        let expected = build_expected_call(RelayChain::Polkadot, 2000, &info)
            .expect("configured cost parses");
        vec![encode_call(&expected)]
    } else {
        Vec::new()
    }
}

fn dispatch_extend(
    paras: &mut Vec<Parachain>,
    data: ExtendSubscriptionData,
    info: &Option<PaymentInfo>,
    now: u64,
) -> Result<(), Error> {
    let extrinsics = if data.payment_block_number <= FINALIZED_HEAD {
        block_extrinsics(data.payment_block_number)
    } else {
        Vec::new()
    };
    extend_subscription(paras, &data, info, now, FINALIZED_HEAD, &extrinsics)
}

fn registered_2000(expiry_timestamp: u64) -> Parachain {
    Parachain { relay_chain: RelayChain::Polkadot, para_id: 2000, expiry_timestamp }
}

#[test]
fn extension_adds_exactly_the_duration() {
    let mut paras = vec![registered_2000(10000)];
    let info = Some(payment_info());
    let data = ExtendSubscriptionData {
        para: (RelayChain::Polkadot, 2000),
        payment_block_number: PARA_2000_PAYMENT,
    };

    // The renewal window is open: expiry 10000 - renewal period 500 <= now.
    let response = dispatch_extend(&mut paras, data, &info, 9800);

    assert_eq!(response, Ok(()));
    // Additive, not reset to now + duration: 10000 + 3600.
    assert_eq!(paras, vec![registered_2000(13600)]);
}

#[test]
fn extending_unknown_para_fails() {
    let mut paras = vec![registered_2000(10000)];
    let info = Some(payment_info());
    let data = ExtendSubscriptionData {
        para: (RelayChain::Polkadot, 2006),
        payment_block_number: PARA_2000_PAYMENT,
    };

    let response = dispatch_extend(&mut paras, data, &info, 9800);

    assert_eq!(response, Err(Error::NotRegistered));
    assert_eq!(paras, vec![registered_2000(10000)]);
}

#[test]
fn extending_before_renewal_window_fails() {
    let mut paras = vec![registered_2000(10000)];
    let info = Some(payment_info());
    let data = ExtendSubscriptionData {
        para: (RelayChain::Polkadot, 2000),
        payment_block_number: PARA_2000_PAYMENT,
    };

    // expiry 10000 - renewal period 500 = 9500 > now = 9000: too early.
    let response = dispatch_extend(&mut paras, data, &info, 9000);

    assert_eq!(response, Err(Error::AlreadyRegistered));
    assert_eq!(paras, vec![registered_2000(10000)]);
}

#[test]
fn extension_with_unfinalized_payment_fails() {
    let mut paras = vec![registered_2000(10000)];
    let info = Some(payment_info());
    let data = ExtendSubscriptionData {
        para: (RelayChain::Polkadot, 2000),
        payment_block_number: 99999999,
    };

    let response = dispatch_extend(&mut paras, data, &info, 9800);

    assert_eq!(
        response,
        Err(Error::PaymentValidationError(PaymentError::UnfinalizedPayment))
    );
    assert_eq!(paras, vec![registered_2000(10000)]);
}

#[test]
fn extension_without_matching_payment_fails() {
    let mut paras = vec![
        Parachain { relay_chain: RelayChain::Polkadot, para_id: 2006, expiry_timestamp: 10000 },
    ];
    let info = Some(payment_info());
    // The block holds a payment for para 2000, not 2006.
    let data = ExtendSubscriptionData {
        para: (RelayChain::Polkadot, 2006),
        payment_block_number: PARA_2000_PAYMENT,
    };

    let response = dispatch_extend(&mut paras, data, &info, 9800);

    assert_eq!(
        response,
        Err(Error::PaymentValidationError(PaymentError::PaymentNotFound))
    );
    assert_eq!(paras[0].expiry_timestamp, 10000);
}

#[test]
fn free_mode_extension_adds_zero() {
    let mut paras = vec![registered_2000(10000)];
    let data = ExtendSubscriptionData {
        para: (RelayChain::Polkadot, 2000),
        payment_block_number: PARA_2000_PAYMENT,
    };

    let response = dispatch_extend(&mut paras, data, &None, 9800);

    assert_eq!(response, Ok(()));
    assert_eq!(paras, vec![registered_2000(10000)]);
}
