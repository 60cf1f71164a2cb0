use handel::{
    score, BitSet, ClientConfig, ConfigError, ConsensusConfig, Contribution, NetworkId,
    ProtocolConfig, StorageConfig, SyncError, WS_DEFAULT_PORT,
};

#[test]
fn build_requires_a_protocol() {
    let builder = ClientConfig::builder();
    assert_eq!(builder.build().unwrap_err(), ConfigError::MissingProtocol);
}

#[test]
fn build_fills_in_defaults() {
    let mut builder = ClientConfig::builder();
    builder.dumb();
    let cfg = builder.build().unwrap();
    assert_eq!(cfg.consensus, ConsensusConfig::Full);
    assert_eq!(cfg.network_id, NetworkId::DevAlbatross);
    assert_eq!(cfg.protocol, ProtocolConfig::Dumb);
    assert_eq!(cfg.storage, StorageConfig::Path("~/.nimiq".to_owned()));
    assert!(cfg.reverse_proxy.is_none());
    assert!(cfg.validator.is_none());
}

#[test]
fn builder_setters_take_effect() {
    let mut builder = ClientConfig::builder();
    builder.macro_sync();
    builder.test();
    builder.volatile();
    builder.ws("node.example".to_owned(), None);
    builder.reverse_proxy(8444, "X-Forwarded-For".to_owned(), "127.0.0.1".to_owned(), true);
    let cfg = builder.build().unwrap();
    assert_eq!(cfg.consensus, ConsensusConfig::MacroSync);
    assert_eq!(cfg.network_id, NetworkId::TestAlbatross);
    assert_eq!(cfg.storage, StorageConfig::Volatile);
    assert_eq!(
        cfg.protocol,
        ProtocolConfig::Ws { host: "node.example".to_owned(), port: WS_DEFAULT_PORT }
    );
    let proxy = cfg.reverse_proxy.unwrap();
    assert_eq!(proxy.port, 8444);
    assert!(proxy.with_tls_termination);
}

#[test]
fn wss_keeps_the_key_material() {
    let mut builder = ClientConfig::builder();
    builder.wss(
        "node.example".to_owned(),
        Some(9000),
        "/etc/nimiq/key.p12".to_owned(),
        "opensesame".to_owned(),
    );
    builder.dev();
    let cfg = builder.build().unwrap();
    match cfg.protocol {
        ProtocolConfig::Wss { host, port, pkcs12_key_file, .. } => {
            assert_eq!(host, "node.example");
            assert_eq!(port, 9000);
            assert_eq!(pkcs12_key_file, "/etc/nimiq/key.p12");
        }
        other => panic!("unexpected protocol: {:?}", other),
    }
    assert_eq!(cfg.network_id, NetworkId::DevAlbatross);
}

#[test]
fn storage_paths() {
    assert_eq!(StorageConfig::home(), StorageConfig::Path("~/.nimiq".to_owned()));
    assert_eq!(StorageConfig::system(), StorageConfig::Path("/var/lib/nimiq".to_owned()));
    assert_eq!(StorageConfig::default(), StorageConfig::home());
}

#[test]
fn sync_error_variants_are_distinct() {
    assert_ne!(SyncError::Other, SyncError::NoValidSyncTarget);
}

#[test]
fn score_orders_candidates_by_contributor_count() {
    let mut adm = BitSet::new(4);
    adm.insert(1);
    adm.insert(2);
    adm.insert(3);

    let single = Contribution::individual(4, 2, vec![2]);
    assert_eq!(score(&single, &adm, &None), 1);

    let mut bits = BitSet::new(4);
    bits.insert(2);
    bits.insert(3);
    let pair = Contribution::new(bits, vec![9]);
    assert_eq!(score(&pair, &adm, &None), 2);

    // A duplicate of the current best scores zero.
    assert_eq!(score(&pair, &adm, &Some(pair.clone())), 0);

    // A contributor outside the admissible set makes a candidate unusable.
    let outsider = Contribution::individual(4, 0, vec![0]);
    assert_eq!(score(&outsider, &adm, &None), 0);
}

#[test]
fn database_name_is_lowercase_and_hyphenated() {
    assert_eq!(
        StorageConfig::database_name(NetworkId::DevAlbatross, ConsensusConfig::Full),
        "devalbatross-full-consensus"
    );
    assert_eq!(
        StorageConfig::database_name(NetworkId::TestAlbatross, ConsensusConfig::MacroSync),
        "testalbatross-macrosync-consensus"
    );
}
