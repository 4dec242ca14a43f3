use substrate_client::extrinsic::{CheckedExtrinsic, TransactionValidityError};

#[test]
fn should_test_unsigned_logic() {
    let xt: CheckedExtrinsic<u64, u32, ()> = CheckedExtrinsic { signed: None, function: 7 };
    assert_eq!(xt.origin(), None);
    assert_eq!(
        xt.resolve_validity::<u32>(Ok(None), 0),
        Err(TransactionValidityError::NoValidityInfo)
    );
    assert_eq!(xt.resolve_validity(Ok(Some(9u32)), 0), Ok(9));
    assert_eq!(
        xt.resolve_validity::<u32>(Err(TransactionValidityError::Rejected(3)), 0),
        Err(TransactionValidityError::Rejected(3))
    );
}

#[test]
fn signed_extrinsic_defaults_when_nobody_vouches() {
    let xt: CheckedExtrinsic<u64, u32, ()> =
        CheckedExtrinsic { signed: Some((5, ())), function: 7 };
    assert_eq!(xt.origin(), Some(&5));
    assert_eq!(xt.resolve_validity::<u32>(Ok(None), 42), Ok(42));
    assert_eq!(xt.resolve_validity(Ok(Some(1u32)), 42), Ok(1));
    assert_eq!(
        xt.resolve_validity::<u32>(Err(TransactionValidityError::Rejected(1)), 42),
        Err(TransactionValidityError::Rejected(1))
    );
    let unsigned: CheckedExtrinsic<u64, u32, ()> = CheckedExtrinsic { signed: None, function: 7 };
    assert_ne!(xt, unsigned);
    assert_eq!(xt.clone(), xt);
}
