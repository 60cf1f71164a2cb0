//! Client configuration: which consensus to run, how the client accepts
//! connections, where data is stored, and a builder that assembles a
//! complete configuration from parts.

use vstd::prelude::*;

verus! {

/// The default port for `ws` and `wss`.
pub const WS_DEFAULT_PORT: u16 = 8443;

/// The consensus type.
#[derive(Debug, Copy, Clone, Eq, PartialEq, Hash, Structural)]
pub enum ConsensusConfig {
    Full,
    MacroSync,
}

impl ConsensusConfig {
    /// Lower-case name of the consensus type.
    pub open spec fn spec_name(&self) -> Seq<char> {
        match self {
            ConsensusConfig::Full => "full"@,
            ConsensusConfig::MacroSync => "macrosync"@,
        }
    }

    /// Lower-case name of the consensus type.
    pub fn name(&self) -> (r: &'static str)
        ensures
            r@ == self.spec_name(),
    {
        match self {
            ConsensusConfig::Full => "full",
            ConsensusConfig::MacroSync => "macrosync",
        }
    }
}

impl Default for ConsensusConfig {
    fn default() -> (r: Self)
        ensures
            r == ConsensusConfig::Full,
    {
        Self::Full
    }
}

/// The network the client should connect to.
#[derive(Debug, Copy, Clone, Eq, PartialEq, Hash, Structural)]
pub enum NetworkId {
    Main,
    Test,
    DevAlbatross,
    TestAlbatross,
}

impl NetworkId {
    /// Lower-case name of the network.
    pub open spec fn spec_name(&self) -> Seq<char> {
        match self {
            NetworkId::Main => "main"@,
            NetworkId::Test => "test"@,
            NetworkId::DevAlbatross => "devalbatross"@,
            NetworkId::TestAlbatross => "testalbatross"@,
        }
    }

    /// Lower-case name of the network.
    pub fn name(&self) -> (r: &'static str)
        ensures
            r@ == self.spec_name(),
    {
        match self {
            NetworkId::Main => "main",
            NetworkId::Test => "test",
            NetworkId::DevAlbatross => "devalbatross",
            NetworkId::TestAlbatross => "testalbatross",
        }
    }
}

/// Which protocol to use and the configuration that protocol needs.
#[derive(Debug, Clone, Eq, PartialEq, Hash)]
pub enum ProtocolConfig {
    /// No incoming connections are accepted.
    Dumb,
    /// Plain websocket.
    Ws { host: String, port: u16 },
    /// Secure websocket, with the key material to serve it.
    Wss { host: String, port: u16, pkcs12_key_file: String, pkcs12_passphrase: String },
    /// WebRTC.
    Rtc,
}

/// Configuration of the validator role.
#[derive(Debug, Clone)]
pub struct ValidatorConfig {}

/// Configuration for a node running behind a reverse proxy.
#[derive(Debug, Clone, Eq, PartialEq, Hash)]
pub struct ReverseProxyConfig {
    /// Port at which the reverse proxy listens.
    pub port: u16,
    /// Header that carries the origin address.
    pub header: String,
    /// Address at which the reverse proxy listens.
    pub address: String,
    /// Whether the proxy terminates TLS.
    pub with_tls_termination: bool,
}

/// Where the database is stored.
#[derive(Debug, Clone, Eq, PartialEq, Hash)]
pub enum StorageConfig {
    /// Volatile storage: all data is lost at shutdown.
    Volatile,
    /// The directory in which the database is stored.
    Path(String),
    /// Browser storage.
    IndexedDB,
}

impl StorageConfig {
    /// Storage under the user's home directory.
    pub fn home() -> (r: Self)
        ensures
            r matches StorageConfig::Path(p) && p@ == "~/.nimiq"@,
    {
        Self::Path("~/.nimiq".to_owned())
    }

    /// Storage under the system data directory.
    pub fn system() -> (r: Self)
        ensures
            r matches StorageConfig::Path(p) && p@ == "/var/lib/nimiq"@,
    {
        Self::Path("/var/lib/nimiq".to_owned())
    }

    /// Name of the database that a storage backend opens for the given
    /// network and consensus type. Opening the database is left to the
    /// embedding application; this is the name it opens.
    pub fn database_name(network_id: NetworkId, consensus: ConsensusConfig) -> (r: String)
        ensures
            r@ == network_id.spec_name() + "-"@ + consensus.spec_name() + "-consensus"@,
    {
        let mut name = <String as vstd::string::StringExecFns>::from_str(network_id.name());
        vstd::string::StringExecFns::append(&mut name, "-");
        vstd::string::StringExecFns::append(&mut name, consensus.name());
        vstd::string::StringExecFns::append(&mut name, "-consensus");
        name
    }
}

impl Default for StorageConfig {
    fn default() -> (r: Self)
        ensures
            r matches StorageConfig::Path(p) && p@ == "~/.nimiq"@,
    {
        Self::home()
    }
}

/// Why a configuration could not be built.
#[derive(Debug, Clone, Copy, PartialEq, Eq, Structural)]
pub enum ConfigError {
    /// No protocol was chosen.
    MissingProtocol,
}

/// A complete client configuration.
#[derive(Debug, Clone)]
pub struct ClientConfig {
    /// Which consensus protocol to use.
    pub consensus: ConsensusConfig,
    /// How the client accepts incoming connections.
    pub protocol: ProtocolConfig,
    /// The network the client connects to.
    pub network_id: NetworkId,
    /// Configuration of a reverse proxy in front of the node, if any.
    pub reverse_proxy: Option<ReverseProxyConfig>,
    /// Where the database is stored.
    pub storage: StorageConfig,
    /// The validator configuration, if the node validates.
    pub validator: Option<ValidatorConfig>,
}

impl ClientConfig {
    /// Creates a new builder object for the client configuration.
    pub fn builder() -> (r: ClientConfigBuilder)
        ensures
            r.consensus is None,
            r.protocol is None,
            r.network_id is None,
            r.reverse_proxy is None,
            r.storage is None,
            r.validator is None,
    {
        ClientConfigBuilder {
            consensus: None,
            protocol: None,
            network_id: None,
            reverse_proxy: None,
            storage: None,
            validator: None,
        }
    }
}

/// Builder for `ClientConfig`: every part but the protocol has a default.
pub struct ClientConfigBuilder {
    pub consensus: Option<ConsensusConfig>,
    pub protocol: Option<ProtocolConfig>,
    pub network_id: Option<NetworkId>,
    pub reverse_proxy: Option<ReverseProxyConfig>,
    pub storage: Option<StorageConfig>,
    pub validator: Option<ValidatorConfig>,
}

impl ClientConfigBuilder {
    /// Builds the finished configuration. Fails exactly when no protocol was
    /// chosen; every other part falls back to its default.
    pub fn build(self) -> (r: Result<ClientConfig, ConfigError>)
        ensures
            r is Ok <==> self.protocol is Some,
            r is Err ==> r->Err_0 == ConfigError::MissingProtocol,
            r is Ok ==> ({
                let c = r->Ok_0;
                &&& c.protocol == self.protocol->Some_0
                &&& c.consensus == (match self.consensus {
                    Some(v) => v,
                    None => ConsensusConfig::Full,
                })
                &&& c.network_id == (match self.network_id {
                    Some(v) => v,
                    None => NetworkId::DevAlbatross,
                })
                &&& c.reverse_proxy == self.reverse_proxy
                &&& (self.storage is Some ==> c.storage == self.storage->0)
                &&& (self.storage is None ==> (c.storage matches StorageConfig::Path(p) && p@
                    == "~/.nimiq"@))
                &&& c.validator == self.validator
            }),
    {
        let protocol = match self.protocol {
            Some(p) => p,
            None => {
                return Err(ConfigError::MissingProtocol);
            },
        };
        Ok(
            ClientConfig {
                consensus: match self.consensus {
                    Some(v) => v,
                    None => ConsensusConfig::Full,
                },
                protocol,
                network_id: match self.network_id {
                    Some(v) => v,
                    None => NetworkId::DevAlbatross,
                },
                reverse_proxy: self.reverse_proxy,
                storage: match self.storage {
                    Some(v) => v,
                    None => StorageConfig::default(),
                },
                validator: self.validator,
            },
        )
    }

    /// Sets the network to the Albatross development network.
    pub fn dev(&mut self)
        ensures
            *final(self) == (ClientConfigBuilder {
                network_id: Some(NetworkId::DevAlbatross),
                ..*old(self)
            }),
    {
        self.network_id = Some(NetworkId::DevAlbatross);
    }

    /// Sets the network to the Albatross test network.
    pub fn test(&mut self)
        ensures
            *final(self) == (ClientConfigBuilder {
                network_id: Some(NetworkId::TestAlbatross),
                ..*old(self)
            }),
    {
        self.network_id = Some(NetworkId::TestAlbatross);
    }

    /// Sets the client to sync the full block chain.
    pub fn full(&mut self)
        ensures
            *final(self) == (ClientConfigBuilder {
                consensus: Some(ConsensusConfig::Full),
                ..*old(self)
            }),
    {
        self.consensus = Some(ConsensusConfig::Full);
    }

    /// Sets the client to sync only macro blocks until caught up.
    pub fn macro_sync(&mut self)
        ensures
            *final(self) == (ClientConfigBuilder {
                consensus: Some(ConsensusConfig::MacroSync),
                ..*old(self)
            }),
    {
        self.consensus = Some(ConsensusConfig::MacroSync);
    }

    /// Sets the protocol that accepts no incoming connections.
    pub fn dumb(&mut self)
        ensures
            *final(self) == (ClientConfigBuilder {
                protocol: Some(ProtocolConfig::Dumb),
                ..*old(self)
            }),
    {
        self.protocol = Some(ProtocolConfig::Dumb);
    }

    /// Sets the WebRTC protocol.
    pub fn rtc(&mut self)
        ensures
            *final(self) == (ClientConfigBuilder {
                protocol: Some(ProtocolConfig::Rtc),
                ..*old(self)
            }),
    {
        self.protocol = Some(ProtocolConfig::Rtc);
    }

    /// Sets the plain websocket protocol; without a port the default websocket
    /// port is used.
    pub fn ws(&mut self, host: String, port: Option<u16>)
        ensures
            final(self).protocol matches Some(p) && p matches ProtocolConfig::Ws {
                host: h,
                port: q,
            } && h == host && q == (match port {
                Some(q) => q,
                None => WS_DEFAULT_PORT,
            }),
            final(self).consensus == old(self).consensus,
            final(self).network_id == old(self).network_id,
            final(self).reverse_proxy == old(self).reverse_proxy,
            final(self).storage == old(self).storage,
            final(self).validator == old(self).validator,
    {
        self.protocol = Some(
            ProtocolConfig::Ws {
                host,
                port: match port {
                    Some(p) => p,
                    None => WS_DEFAULT_PORT,
                },
            },
        );
    }

    /// Sets the secure websocket protocol; without a port the default
    /// websocket port is used.
    pub fn wss(&mut self, host: String, port: Option<u16>, pkcs12_key_file: String, pkcs12_passphrase: String)
        ensures
            final(self).protocol matches Some(p) && p matches ProtocolConfig::Wss {
                host: h,
                port: q,
                pkcs12_key_file: kf,
                pkcs12_passphrase: pp,
            } && h == host && kf == pkcs12_key_file && pp == pkcs12_passphrase && q == (
            match port {
                Some(q) => q,
                None => WS_DEFAULT_PORT,
            }),
            final(self).consensus == old(self).consensus,
            final(self).network_id == old(self).network_id,
            final(self).reverse_proxy == old(self).reverse_proxy,
            final(self).storage == old(self).storage,
            final(self).validator == old(self).validator,
    {
        self.protocol = Some(
            ProtocolConfig::Wss {
                host,
                port: match port {
                    Some(p) => p,
                    None => WS_DEFAULT_PORT,
                },
                pkcs12_key_file,
                pkcs12_passphrase,
            },
        );
    }

    /// Sets the reverse proxy configuration.
    pub fn reverse_proxy(
        &mut self,
        port: u16,
        header: String,
        address: String,
        with_tls_termination: bool,
    )
        ensures
            final(self).reverse_proxy matches Some(p) && p.port == port && p.header == header
                && p.address == address && p.with_tls_termination == with_tls_termination,
            final(self).consensus == old(self).consensus,
            final(self).protocol == old(self).protocol,
            final(self).network_id == old(self).network_id,
            final(self).storage == old(self).storage,
            final(self).validator == old(self).validator,
    {
        self.reverse_proxy = Some(
            ReverseProxyConfig { port, header, address, with_tls_termination },
        );
    }

    /// Configures volatile storage: all data is lost at shutdown.
    pub fn volatile(&mut self)
        ensures
            *final(self) == (ClientConfigBuilder {
                storage: Some(StorageConfig::Volatile),
                ..*old(self)
            }),
    {
        self.storage = Some(StorageConfig::Volatile);
    }

    /// Sets the validator configuration.
    pub fn validator(&mut self, validator: ValidatorConfig)
        ensures
            final(self).validator is Some,
            final(self).consensus == old(self).consensus,
            final(self).protocol == old(self).protocol,
            final(self).network_id == old(self).network_id,
            final(self).reverse_proxy == old(self).reverse_proxy,
            final(self).storage == old(self).storage,
    {
        self.validator = Some(validator);
    }
}

} // verus!
