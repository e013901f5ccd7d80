//! Start-up configuration: where to listen, and an optional connection
//! string that is carried along untouched.

use crate::address::{
    lemma_socket_address_well_formed, socket_address, AddressModel, SocketAddress,
};
use crate::canonical::{address_text, decimal_text, join, lemma_text_round_trip};
use vstd::prelude::*;
use vstd::string::{is_ascii_spec_bytes, StringSliceAdditionalSpecFns};

verus! {

/// Name of the environment variable that holds the bind address.
pub const BIND_ADDRESS: &'static str = "BIND_ADDRESS";

/// Name of the environment variable that holds the connection string.
pub const DATABASE_URL: &'static str = "DATABASE_URL";

/// The bind address used where none is given: loopback, port 3000.
pub const DEFAULT_BIND_ADDRESS: &'static str = "127.0.0.1:3000";

/// Why a configuration could not be loaded.
#[derive(Clone, Copy, Debug, PartialEq, Eq, Structural)]
pub enum ConfigError {
    /// The bind address is not the text of a socket address.
    InvalidBindAddress,
    /// Restricted mode is on and the bind host is not `127.0.0.1`.
    NotLoopback,
}

/// The configuration of the service. Built once at start and not changed
/// afterwards.
#[derive(Clone, Debug, PartialEq, Eq)]
pub struct Config {
    pub bind_address: SocketAddress,
    pub database_url: Option<String>,
}

/// The host that restricted mode insists on: `127.0.0.1`.
pub open spec fn is_loopback(address: AddressModel) -> bool {
    address matches AddressModel::V4 { octets, .. } && octets == seq![127nat, 0nat, 0nat, 1nat]
}

/// The address that the default text denotes: `127.0.0.1`, port 3000.
pub open spec fn default_address() -> AddressModel {
    AddressModel::V4 { octets: seq![127nat, 0nat, 0nat, 1nat], port: 3000 }
}

/// The text that the bind address is read from: the one given, or the
/// default.
pub open spec fn bind_text(bind_address: Option<&str>) -> Seq<u8> {
    match bind_address {
        Some(text) => text.spec_bytes(),
        None => DEFAULT_BIND_ADDRESS.spec_bytes(),
    }
}

/// What loading decides about a bind address text: the address it denotes,
/// or the reason it is refused. Restricted mode refuses every host but
/// `127.0.0.1`.
pub open spec fn bind_outcome(text: Seq<u8>, restricted: bool) -> Result<
    AddressModel,
    ConfigError,
> {
    match socket_address(text) {
        None => Err(ConfigError::InvalidBindAddress),
        Some(address) => if restricted && !is_loopback(address) {
            Err(ConfigError::NotLoopback)
        } else {
            Ok(address)
        },
    }
}

/// The default text is the canonical text of the default address, so it
/// denotes that address, which is a loopback address.
pub proof fn lemma_default_bind_address()
    ensures
        DEFAULT_BIND_ADDRESS.spec_bytes() == address_text(default_address()),
        socket_address(DEFAULT_BIND_ADDRESS.spec_bytes()) == Some(default_address()),
        is_loopback(default_address()),
{
    reveal_strlit("127.0.0.1:3000");
    is_ascii_spec_bytes(DEFAULT_BIND_ADDRESS);
    reveal_with_fuel(decimal_text, 4);
    reveal_with_fuel(join, 4);
    let octets = seq![127nat, 0nat, 0nat, 1nat];
    let fields = Seq::new(4, |i: int| decimal_text(octets[i]));
    assert(fields.drop_first().drop_first().drop_first()[0] == fields[3]);
    assert(fields.drop_first().drop_first()[0] == fields[2]);
    assert(fields.drop_first()[0] == fields[1]);
    assert(DEFAULT_BIND_ADDRESS.spec_bytes() =~= address_text(default_address()));
    lemma_text_round_trip(default_address());
}

impl SocketAddress {
    /// Whether this is an IPv4 address with host `127.0.0.1`.
    pub fn is_loopback(&self) -> (r: bool)
        ensures
            r == is_loopback(self@),
    {
        match self {
            SocketAddress::V4 { octets, .. } => {
                let r = octets[0] == 127 && octets[1] == 0 && octets[2] == 0 && octets[3] == 1;
                proof {
                    let model = self@->V4_octets;
                    assert(model[0] == octets@[0] as nat);
                    assert(model[1] == octets@[1] as nat);
                    assert(model[2] == octets@[2] as nat);
                    assert(model[3] == octets@[3] as nat);
                    if r {
                        assert(model =~= seq![127nat, 0nat, 0nat, 1nat]);
                    }
                }
                r
            },
            SocketAddress::V6 { .. } => false,
        }
    }
}

impl ConfigError {
    /// The message of this error, as text.
    pub open spec fn message_text(self) -> Seq<char> {
        match self {
            ConfigError::InvalidBindAddress => "Invalid BIND_ADDRESS: invalid socket address syntax"@,
            ConfigError::NotLoopback => "In no-auth mode, BIND_ADDRESS must be 127.0.0.1"@,
        }
    }

    /// A message for the operator.
    pub fn message(&self) -> (r: String)
        ensures
            r@ == self.message_text(),
    {
        match self {
            ConfigError::InvalidBindAddress => String::from_str(
                "Invalid BIND_ADDRESS: invalid socket address syntax",
            ),
            ConfigError::NotLoopback => String::from_str(
                "In no-auth mode, BIND_ADDRESS must be 127.0.0.1",
            ),
        }
    }
}

impl Config {
    /// What holds of every configuration that was loaded: in restricted
    /// mode the bind host is `127.0.0.1`.
    pub open spec fn admissible(self, restricted: bool) -> bool {
        restricted ==> is_loopback(self.bind_address@)
    }

    /// Makes a configuration from an address that was already read.
    /// Restricted mode refuses every host but `127.0.0.1`; nothing else can
    /// go wrong.
    pub fn new(
        bind_address: SocketAddress,
        database_url: Option<String>,
        restricted: bool,
    ) -> (r: Result<Config, ConfigError>)
        ensures
            match r {
                Ok(config) => config.bind_address == bind_address && config.database_url
                    == database_url && config.admissible(restricted),
                Err(error) => error == ConfigError::NotLoopback && restricted && !is_loopback(
                    bind_address@,
                ),
            },
    {
        if restricted && !bind_address.is_loopback() {
            Err(ConfigError::NotLoopback)
        } else {
            Ok(Config { bind_address, database_url })
        }
    }

    /// Loads the configuration from what the environment holds.
    ///
    /// `bind_address` is the value of `BIND_ADDRESS` and `database_url` that
    /// of `DATABASE_URL`, each `None` where the variable is not set. A
    /// missing bind address stands for the default; a missing connection
    /// string is no error. `restricted` says whether the service runs
    /// without authentication, in which case it may listen on `127.0.0.1`
    /// only.
    pub fn from_env(
        bind_address: Option<&str>,
        database_url: Option<String>,
        restricted: bool,
    ) -> (r: Result<Config, ConfigError>)
        ensures
            match r {
                Ok(config) => bind_outcome(bind_text(bind_address), restricted) == Ok::<
                    AddressModel,
                    ConfigError,
                >(config.bind_address@) && config.database_url == database_url,
                Err(error) => bind_outcome(bind_text(bind_address), restricted) == Err::<
                    AddressModel,
                    ConfigError,
                >(error),
            },
            bind_address is None ==> (r matches Ok(config) && config.bind_address@
                == default_address()),
            r matches Ok(config) ==> config.admissible(restricted),
    {
        proof {
            lemma_default_bind_address();
        }
        let text = match bind_address {
            Some(text) => text,
            None => DEFAULT_BIND_ADDRESS,
        };
        match SocketAddress::parse(text) {
            None => Err(ConfigError::InvalidBindAddress),
            Some(address) => Config::new(address, database_url, restricted),
        }
    }
}

/// Every text that denotes an address loads, outside restricted mode, to
/// exactly that address; and the address round-trips: its canonical text
/// loads to the same host and port again.
pub proof fn lemma_valid_text_loads(text: Seq<u8>)
    requires
        socket_address(text) is Some,
    ensures
        bind_outcome(text, false) == Ok::<AddressModel, ConfigError>(socket_address(text).unwrap()),
        bind_outcome(address_text(socket_address(text).unwrap()), false) == bind_outcome(
            text,
            false,
        ),
{
    lemma_socket_address_well_formed(text);
    lemma_text_round_trip(socket_address(text).unwrap());
}

/// Every well-formed address can be loaded from its canonical text.
pub proof fn lemma_canonical_text_loads(address: AddressModel)
    requires
        address.well_formed(),
    ensures
        bind_outcome(address_text(address), false) == Ok::<AddressModel, ConfigError>(address),
{
    lemma_text_round_trip(address);
}

/// A text that denotes no address is refused as invalid, in either mode.
pub proof fn lemma_malformed_text_is_refused(text: Seq<u8>, restricted: bool)
    requires
        socket_address(text) is None,
    ensures
        bind_outcome(text, restricted) == Err::<AddressModel, ConfigError>(
            ConfigError::InvalidBindAddress,
        ),
{
}

/// In restricted mode a text that denotes an address loads if and only if
/// its host is `127.0.0.1`, and is refused as not loopback otherwise.
pub proof fn lemma_restricted_mode(text: Seq<u8>)
    requires
        socket_address(text) is Some,
    ensures
        is_loopback(socket_address(text).unwrap()) ==> bind_outcome(text, true) == Ok::<
            AddressModel,
            ConfigError,
        >(socket_address(text).unwrap()),
        !is_loopback(socket_address(text).unwrap()) ==> bind_outcome(text, true) == Err::<
            AddressModel,
            ConfigError,
        >(ConfigError::NotLoopback),
{
}

/// Restricted mode can be met on every port: the canonical text of
/// `127.0.0.1` with any port loads in restricted mode.
pub proof fn lemma_loopback_loads_restricted(port: nat)
    requires
        port <= 65535,
    ensures
        bind_outcome(
            address_text(AddressModel::V4 { octets: seq![127nat, 0nat, 0nat, 1nat], port }),
            true,
        ) == Ok::<AddressModel, ConfigError>(
            AddressModel::V4 { octets: seq![127nat, 0nat, 0nat, 1nat], port },
        ),
{
    lemma_text_round_trip(AddressModel::V4 { octets: seq![127nat, 0nat, 0nat, 1nat], port });
}

} // verus!
