use derivation_path::{ChildIndex, DerivationPathError, EthereumDerivationPath};

fn path_of(ixs: Vec<ChildIndex>) -> EthereumDerivationPath {
    EthereumDerivationPath::try_from(ixs).unwrap()
}

#[test]
fn valid_path() {
    assert_eq!(EthereumDerivationPath::from_str("m"), Ok(path_of(vec![])));
    assert_eq!(
        EthereumDerivationPath::from_str("m/0"),
        Ok(path_of(vec![ChildIndex::from_normal(0).unwrap()]))
    );
    assert_eq!(
        EthereumDerivationPath::from_str("m/0/1"),
        Ok(path_of(vec![
            ChildIndex::from_normal(0).unwrap(),
            ChildIndex::from_normal(1).unwrap()
        ]))
    );
    assert_eq!(
        EthereumDerivationPath::from_str("m/0/1/2"),
        Ok(path_of(vec![
            ChildIndex::from_normal(0).unwrap(),
            ChildIndex::from_normal(1).unwrap(),
            ChildIndex::from_normal(2).unwrap()
        ]))
    );
    assert_eq!(
        EthereumDerivationPath::from_str("m/0/1/2/3"),
        Ok(path_of(vec![
            ChildIndex::from_normal(0).unwrap(),
            ChildIndex::from_normal(1).unwrap(),
            ChildIndex::from_normal(2).unwrap(),
            ChildIndex::from_normal(3).unwrap()
        ]))
    );

    assert_eq!(EthereumDerivationPath::from_str("m"), Ok(path_of(vec![])));
    assert_eq!(
        EthereumDerivationPath::from_str("m/0'"),
        Ok(path_of(vec![ChildIndex::from_hardened(0).unwrap()]))
    );
    assert_eq!(
        EthereumDerivationPath::from_str("m/0'/1"),
        Ok(path_of(vec![
            ChildIndex::from_hardened(0).unwrap(),
            ChildIndex::from_normal(1).unwrap()
        ]))
    );
    assert_eq!(
        EthereumDerivationPath::from_str("m/0'/1/2'"),
        Ok(path_of(vec![
            ChildIndex::from_hardened(0).unwrap(),
            ChildIndex::from_normal(1).unwrap(),
            ChildIndex::from_hardened(2).unwrap(),
        ]))
    );
    assert_eq!(
        EthereumDerivationPath::from_str("m/0'/1/2'/3"),
        Ok(path_of(vec![
            ChildIndex::from_hardened(0).unwrap(),
            ChildIndex::from_normal(1).unwrap(),
            ChildIndex::from_hardened(2).unwrap(),
            ChildIndex::from_normal(3).unwrap(),
        ]))
    );
    assert_eq!(
        EthereumDerivationPath::from_str("m/0'/1/2'/3/4'"),
        Ok(path_of(vec![
            ChildIndex::from_hardened(0).unwrap(),
            ChildIndex::from_normal(1).unwrap(),
            ChildIndex::from_hardened(2).unwrap(),
            ChildIndex::from_normal(3).unwrap(),
            ChildIndex::from_hardened(4).unwrap(),
        ]))
    );

    assert_eq!(EthereumDerivationPath::from_str("m"), Ok(path_of(vec![])));
    assert_eq!(
        EthereumDerivationPath::from_str("m/0h"),
        Ok(path_of(vec![ChildIndex::from_hardened(0).unwrap()]))
    );
    assert_eq!(
        EthereumDerivationPath::from_str("m/0h/1'"),
        Ok(path_of(vec![
            ChildIndex::from_hardened(0).unwrap(),
            ChildIndex::from_hardened(1).unwrap()
        ]))
    );
    assert_eq!(
        EthereumDerivationPath::from_str("m/0'/1h/2'"),
        Ok(path_of(vec![
            ChildIndex::from_hardened(0).unwrap(),
            ChildIndex::from_hardened(1).unwrap(),
            ChildIndex::from_hardened(2).unwrap(),
        ]))
    );
    assert_eq!(
        EthereumDerivationPath::from_str("m/0h/1'/2h/3'"),
        Ok(path_of(vec![
            ChildIndex::from_hardened(0).unwrap(),
            ChildIndex::from_hardened(1).unwrap(),
            ChildIndex::from_hardened(2).unwrap(),
            ChildIndex::from_hardened(3).unwrap(),
        ]))
    );
    assert_eq!(
        EthereumDerivationPath::from_str("m/0'/1h/2'/3h/4'"),
        Ok(path_of(vec![
            ChildIndex::from_hardened(0).unwrap(),
            ChildIndex::from_hardened(1).unwrap(),
            ChildIndex::from_hardened(2).unwrap(),
            ChildIndex::from_hardened(3).unwrap(),
            ChildIndex::from_hardened(4).unwrap(),
        ]))
    );
}

#[test]
fn invalid_path() {
    assert_eq!(
        EthereumDerivationPath::from_str("n"),
        Err(DerivationPathError::InvalidDerivationPath("n".to_string()))
    );
    assert_eq!(
        EthereumDerivationPath::from_str("n/0"),
        Err(DerivationPathError::InvalidDerivationPath("n/0".to_string()))
    );
    assert_eq!(
        EthereumDerivationPath::from_str("n/0/0"),
        Err(DerivationPathError::InvalidDerivationPath("n/0/0".to_string()))
    );

    assert_eq!(
        EthereumDerivationPath::from_str("1"),
        Err(DerivationPathError::InvalidDerivationPath("1".to_string()))
    );
    assert_eq!(
        EthereumDerivationPath::from_str("1/0"),
        Err(DerivationPathError::InvalidDerivationPath("1/0".to_string()))
    );
    assert_eq!(
        EthereumDerivationPath::from_str("1/0/0"),
        Err(DerivationPathError::InvalidDerivationPath("1/0/0".to_string()))
    );

    assert_eq!(
        EthereumDerivationPath::from_str("m/0x"),
        Err(DerivationPathError::InvalidChildNumberFormat)
    );
    assert_eq!(
        EthereumDerivationPath::from_str("m/0x0"),
        Err(DerivationPathError::InvalidChildNumberFormat)
    );
    assert_eq!(
        EthereumDerivationPath::from_str("m/0x00"),
        Err(DerivationPathError::InvalidChildNumberFormat)
    );

    assert_eq!(
        EthereumDerivationPath::from_str("0/m"),
        Err(DerivationPathError::InvalidDerivationPath("0/m".to_string()))
    );
    assert_eq!(
        EthereumDerivationPath::from_str("m//0"),
        Err(DerivationPathError::InvalidChildNumberFormat)
    );
    assert_eq!(
        EthereumDerivationPath::from_str("m/2147483648"),
        Err(DerivationPathError::InvalidChildNumber(2147483648))
    );
}
