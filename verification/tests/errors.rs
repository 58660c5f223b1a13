use iron_carrier::IronCarrierError;

#[test]
fn messages_without_a_name() {
    assert_eq!(
        IronCarrierError::ConfigFileNotFound.message(),
        "Configuration file not found on provided path"
    );
    assert_eq!(
        IronCarrierError::ConfigFileIsInvalid.message(),
        "Configuration file has invalid configuration"
    );
    assert_eq!(IronCarrierError::InvalidPeerAddress.message(), "Invalid Peer Address");
    assert_eq!(
        IronCarrierError::IOReadingError.message(),
        "There was an error reading information from disk"
    );
    assert_eq!(
        IronCarrierError::IOWritingError.message(),
        "There was an error writing information to disk"
    );
    assert_eq!(
        IronCarrierError::NetworkIOReadingError.message(),
        "There was an error reading information from network stream"
    );
    assert_eq!(
        IronCarrierError::NetworkIOWritingError.message(),
        "There was an error writing information to network stream"
    );
    assert_eq!(
        IronCarrierError::ParseCommandError.message(),
        "There was an error parsing the provide command"
    );
}

#[test]
fn messages_with_a_name() {
    assert_eq!(
        IronCarrierError::AliasNotAvailable("docs".to_string()).message(),
        "Alias docs not available on this node"
    );
    assert_eq!(
        IronCarrierError::AliasNotAvailable(String::new()).message(),
        "Alias  not available on this node"
    );
    assert_eq!(
        IronCarrierError::ServerStartError("port in use".to_string()).message(),
        "There was an error starting the server: port in use"
    );
    assert_eq!(
        IronCarrierError::PeerDisconectedError("10.0.0.1:8090".to_string()).message(),
        "The target peer is not available: 10.0.0.1:8090"
    );
}

#[test]
fn decoding_failure_is_a_command_that_cannot_be_parsed() {
    let failure: bincode::Error = bincode::deserialize::<u64>(&[1u8, 2u8]).unwrap_err();
    let error = IronCarrierError::from(failure);
    assert!(matches!(error, IronCarrierError::ParseCommandError));
    let custom: bincode::Error = Box::new(bincode::ErrorKind::Custom("broken".to_string()));
    let error: IronCarrierError = custom.into();
    assert!(matches!(error, IronCarrierError::ParseCommandError));
}
