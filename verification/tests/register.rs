use para_registry::register::{register_para, registered_para, RegistrationData};
use para_registry::types::{Error, Parachain, PaymentError, PaymentInfo, RelayChain};
use para_registry::calls::encode_call;
use para_registry::payment::build_expected_call;

const PARA_2000_PAYMENT: u32 = 9145403;
const FINALIZED_HEAD: u32 = 9500000;

fn payment_info() -> PaymentInfo {
    PaymentInfo {
        rpc_url: String::from("ws://127.0.0.1:9944"),
        receiver: vec![7u8; 32],
        cost: String::from("1000000"),
        subscription_duration: 3600,
        renewal_period: 3600,
    }
}

fn para(relay_chain: RelayChain, para_id: u32) -> Parachain {
    Parachain { relay_chain, para_id, expiry_timestamp: 0 }
}

/// The mock chain: block `PARA_2000_PAYMENT` holds the payment for para
/// 2000 (among unrelated and undecodable extrinsics), every other block is
/// empty.
fn block_extrinsics(number: u32) -> Vec<Vec<u8>> {
    if number == PARA_2000_PAYMENT {
        let info = payment_info();
        let expected = build_expected_call(RelayChain::Polkadot, 2000, &info)
            .expect("configured cost parses");
        vec![vec![0xde, 0xad, 0xbe, 0xef], encode_call(&expected)]
    } else {
        Vec::new()
    }
}

/// Drives a registration the way the service does: read the finalized
/// head, fetch the claimed block's call bytes only when the claim is
/// plausible, then decide.
fn dispatch_register(
    paras: &mut Vec<Parachain>,
    data: RegistrationData,
    info: &Option<PaymentInfo>,
) -> Result<(), Error> {
    let extrinsics = match data.payment_block_number {
        Some(n) if n <= FINALIZED_HEAD => block_extrinsics(n),
        _ => Vec::new(),
    };
    register_para(paras, &data, info, FINALIZED_HEAD, &extrinsics)
}

#[test]
fn register_works() {
    let mut paras: Vec<Parachain> = Vec::new();
    let info = Some(payment_info());
    let para = para(RelayChain::Polkadot, 2000);
    let registration_data =
        RegistrationData { para, payment_block_number: Some(PARA_2000_PAYMENT) };

    let response = dispatch_register(&mut paras, registration_data, &info);

    assert_eq!(response, Ok(()));

    let registered = registered_para(&paras, RelayChain::Polkadot, 2000).unwrap();

    // Ensure the parachain is properly registered:
    assert_eq!(paras, vec![para.clone()]);
    assert_eq!(registered, para);
}

#[test]
fn cannot_register_same_para_twice() {
    let mut paras: Vec<Parachain> = Vec::new();
    let info = Some(payment_info());
    let registration_data = RegistrationData {
        para: para(RelayChain::Polkadot, 2000),
        payment_block_number: Some(PARA_2000_PAYMENT),
    };

    // Cannot register the same para twice:
    assert_eq!(dispatch_register(&mut paras, registration_data, &info), Ok(()));
    assert_eq!(
        dispatch_register(&mut paras, registration_data, &info),
        Err(Error::AlreadyRegistered)
    );
}

#[test]
fn providing_no_payment_info_fails() {
    let mut paras: Vec<Parachain> = Vec::new();
    let info = Some(payment_info());
    let registration_data =
        RegistrationData { para: para(RelayChain::Polkadot, 2006), payment_block_number: None };

    let response = dispatch_register(&mut paras, registration_data, &info);

    assert_eq!(response, Err(Error::PaymentRequired));
}

#[test]
fn providing_non_finalized_payment_block_number_fails() {
    let mut paras: Vec<Parachain> = Vec::new();
    let info = Some(payment_info());
    let registration_data = RegistrationData {
        para: para(RelayChain::Polkadot, 2006),
        payment_block_number: Some(99999999),
    };

    let response = dispatch_register(&mut paras, registration_data, &info);

    assert_eq!(
        response,
        Err(Error::PaymentValidationError(PaymentError::UnfinalizedPayment))
    );
}

#[test]
fn payment_not_found_works() {
    let mut paras: Vec<Parachain> = Vec::new();
    let info = Some(payment_info());
    // We are registering para 2006, but the payment is for para 2000.
    let registration_data = RegistrationData {
        para: para(RelayChain::Polkadot, 2006),
        payment_block_number: Some(PARA_2000_PAYMENT),
    };

    let response = dispatch_register(&mut paras, registration_data, &info);

    assert_eq!(
        response,
        Err(Error::PaymentValidationError(PaymentError::PaymentNotFound))
    );
}

#[test]
fn free_mode_registers_without_payment() {
    let mut paras: Vec<Parachain> = Vec::new();
    let registration_data =
        RegistrationData { para: para(RelayChain::Kusama, 2000), payment_block_number: None };

    let response = dispatch_register(&mut paras, registration_data, &None);

    assert_eq!(response, Ok(()));
    assert_eq!(paras, vec![para(RelayChain::Kusama, 2000)]);
}

#[test]
fn registry_unchanged_on_failed_registration() {
    let mut paras: Vec<Parachain> = Vec::new();
    let info = Some(payment_info());
    let first = RegistrationData {
        para: para(RelayChain::Polkadot, 2000),
        payment_block_number: Some(PARA_2000_PAYMENT),
    };
    assert_eq!(dispatch_register(&mut paras, first, &info), Ok(()));

    let unpaid =
        RegistrationData { para: para(RelayChain::Polkadot, 2006), payment_block_number: None };
    assert!(dispatch_register(&mut paras, unpaid, &info).is_err());
    assert_eq!(paras, vec![para(RelayChain::Polkadot, 2000)]);
}

#[test]
fn malformed_cost_fails_validation() {
    let mut paras: Vec<Parachain> = Vec::new();
    let mut bad = payment_info();
    bad.cost = String::from("not-a-number");
    let registration_data = RegistrationData {
        para: para(RelayChain::Polkadot, 2000),
        payment_block_number: Some(PARA_2000_PAYMENT),
    };

    let response = dispatch_register(&mut paras, registration_data, &Some(bad));

    assert_eq!(
        response,
        Err(Error::PaymentValidationError(PaymentError::PaymentValidationFailed))
    );
    assert!(paras.is_empty());
}

#[test]
fn same_para_id_other_relay_chain_registers() {
    let mut paras: Vec<Parachain> = Vec::new();
    let first =
        RegistrationData { para: para(RelayChain::Polkadot, 2000), payment_block_number: None };
    let second =
        RegistrationData { para: para(RelayChain::Kusama, 2000), payment_block_number: None };
    assert_eq!(dispatch_register(&mut paras, first, &None), Ok(()));
    assert_eq!(dispatch_register(&mut paras, second, &None), Ok(()));
    assert_eq!(paras.len(), 2);
}
