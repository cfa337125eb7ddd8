use derivation_path::{ChildIndex, DerivationPathError, EthereumDerivationPath};

fn parse(s: &str) -> Result<EthereumDerivationPath, DerivationPathError> {
    EthereumDerivationPath::from_str(s)
}

#[test]
fn round_trip_of_canonical_text() {
    for text in ["m", "m/0", "m/0'", "m/44'/60'/0'/0/0", "m/2147483647", "m/0'/1/2'/3/4'"] {
        let parsed = parse(text).unwrap();
        assert_eq!(parsed.to_text(), text);
    }
}

#[test]
fn format_normalizes_h_marker_to_apostrophe() {
    let parsed = parse("m/0h/1/2h").unwrap();
    assert_eq!(parsed.to_text(), "m/0'/1/2'");
}

#[test]
fn marker_spellings_parse_alike() {
    assert_eq!(parse("m/0h"), parse("m/0'"));
    assert_eq!(parse("m/0h/1'/2h"), parse("m/0'/1'/2'"));
    assert_eq!(parse("m/44h/60'/0h/0/0"), parse("m/44'/60'/0'/0/0"));
}

#[test]
fn reparse_of_formatted_output_is_identity() {
    for text in ["m", "m/0h/1'", "m/44h/60h/0h/0/0", "m/2147483647'"] {
        let first = parse(text).unwrap();
        let second = parse(&first.to_text()).unwrap();
        assert_eq!(second, first);
    }
}

#[test]
fn master_path_is_empty() {
    let master = parse("m").unwrap();
    assert_eq!(master.to_vec().unwrap(), vec![]);
    assert_eq!(master.to_text(), "m");
    let empty = EthereumDerivationPath::from_vec(&vec![]).unwrap();
    assert_eq!(empty.to_text(), "m");
}

#[test]
fn range_boundary() {
    assert_eq!(
        parse("m/2147483647"),
        Ok(EthereumDerivationPath::try_from(vec![ChildIndex::Normal(2147483647)]).unwrap())
    );
    assert_eq!(
        parse("m/2147483648"),
        Err(DerivationPathError::InvalidChildNumber(2147483648))
    );
    assert_eq!(
        parse("m/2147483648'"),
        Err(DerivationPathError::InvalidChildNumber(2147483648))
    );
    assert_eq!(
        parse("m/4294967295"),
        Err(DerivationPathError::InvalidChildNumber(4294967295))
    );
}

#[test]
fn numbers_beyond_the_machine_word_are_malformed() {
    assert_eq!(
        parse("m/4294967296"),
        Err(DerivationPathError::InvalidChildNumberFormat)
    );
    assert_eq!(
        parse("m/99999999999999999999"),
        Err(DerivationPathError::InvalidChildNumberFormat)
    );
}

#[test]
fn non_root_texts_are_rejected_with_the_whole_input() {
    for text in ["", "n", "1", "0/m", "mm", "m'", "M", "m0"] {
        assert_eq!(
            parse(text),
            Err(DerivationPathError::InvalidDerivationPath(text.to_string()))
        );
    }
}

#[test]
fn malformed_tokens_are_rejected() {
    for text in ["m/", "m//0", "m/0x", "m/'", "m/h", "m/0''", "m/+5", "m/-1", "m/ 1", "m/1 "] {
        assert_eq!(
            parse(text),
            Err(DerivationPathError::InvalidChildNumberFormat),
            "input: {:?}",
            text
        );
    }
}

#[test]
fn first_failing_token_decides() {
    // A malformed token before an out-of-range one: the format error wins.
    assert_eq!(
        parse("m/x/2147483648"),
        Err(DerivationPathError::InvalidChildNumberFormat)
    );
    // The out-of-range token comes first: the range error wins.
    assert_eq!(
        parse("m/2147483648/x"),
        Err(DerivationPathError::InvalidChildNumber(2147483648))
    );
}

#[test]
fn order_is_preserved() {
    let parsed = parse("m/0'/1/2'").unwrap();
    let ixs = parsed.to_vec().unwrap();
    assert_eq!(
        ixs,
        vec![
            ChildIndex::Hardened(0),
            ChildIndex::Normal(1),
            ChildIndex::Hardened(2)
        ]
    );
    let rebuilt = EthereumDerivationPath::from_vec(&ixs).unwrap();
    assert_eq!(rebuilt, parsed);
    assert_eq!(rebuilt.to_vec().unwrap(), ixs);
}

#[test]
fn conversions_do_not_validate_or_reorder() {
    let ixs = vec![
        ChildIndex::Normal(5),
        ChildIndex::Hardened(5),
        ChildIndex::Normal(5),
    ];
    let from_slice = EthereumDerivationPath::try_from_slice(&ixs).unwrap();
    let from_owned = EthereumDerivationPath::try_from(ixs.clone()).unwrap();
    assert_eq!(from_slice, from_owned);
    assert_eq!(from_slice.to_vec().unwrap(), ixs);
}

#[test]
fn index_constructors_enforce_the_range() {
    assert_eq!(ChildIndex::from_normal(0), Ok(ChildIndex::Normal(0)));
    assert_eq!(
        ChildIndex::from_normal(2147483647),
        Ok(ChildIndex::Normal(2147483647))
    );
    assert_eq!(
        ChildIndex::from_normal(2147483648),
        Err(DerivationPathError::InvalidChildNumber(2147483648))
    );
    assert_eq!(
        ChildIndex::from_hardened(2147483647),
        Ok(ChildIndex::Hardened(2147483647))
    );
    assert_eq!(
        ChildIndex::from_hardened(4294967295),
        Err(DerivationPathError::InvalidChildNumber(4294967295))
    );
}

#[test]
fn formatting_renders_exact_decimals() {
    let p = EthereumDerivationPath::try_from(vec![
        ChildIndex::Normal(0),
        ChildIndex::Hardened(10),
        ChildIndex::Normal(305441),
        ChildIndex::Hardened(2147483647),
    ])
    .unwrap();
    assert_eq!(p.to_text(), "m/0/10'/305441/2147483647'");
}

#[test]
fn leading_zeros_parse_but_are_not_canonical() {
    let parsed = parse("m/007").unwrap();
    assert_eq!(parsed.to_vec().unwrap(), vec![ChildIndex::Normal(7)]);
    assert_eq!(parsed.to_text(), "m/7");
}

#[test]
fn non_ascii_tokens_are_malformed() {
    assert_eq!(
        parse("m/é"),
        Err(DerivationPathError::InvalidChildNumberFormat)
    );
    assert_eq!(
        parse("é"),
        Err(DerivationPathError::InvalidDerivationPath("é".to_string()))
    );
}
