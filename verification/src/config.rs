//! What the producer needs to address and authenticate against one Event Hub.

use vstd::prelude::*;

use crate::connection::{
    connection_string_of, is_plain_host, law_connection_string_reads_back, parse_connection_string,
    parsed,
};
use crate::text::{is_bare, lacks, split};
use crate::text_lemmas::{lemma_split_concat, lemma_split_whole};

verus! {

/// How many events are sent where the caller does not say: 0, which stands for no limit.
pub const DEFAULT_COUNT: u32 = 0;

/// The delay between sends where the caller does not say, in milliseconds.
pub const DEFAULT_INTERVAL_MS: u64 = 250;

/// What the caller asks the producer to do.
#[derive(Debug)]
pub struct Args {
    /// Full Event Hubs connection string, as a shared access policy shows it.
    pub connection_string: Option<String>,
    /// Namespace host. Ignored where a connection string is given.
    pub fqdn: Option<String>,
    /// SAS policy (key) name. Ignored where a connection string is given.
    pub sas_key_name: Option<String>,
    /// SAS key value. Ignored where a connection string is given.
    pub sas_key: Option<String>,
    /// Event hub (entity) name. Required unless the connection string carries an EntityPath.
    pub event_hub: Option<String>,
    /// Number of events to send. 0 sends continuously.
    pub count: u32,
    /// Delay between sends, in milliseconds.
    pub interval_ms: u64,
}

/// [`Args`] with its texts as sequences of characters.
#[verifier::ext_equal]
pub struct ArgsView {
    pub connection_string: Option<Seq<char>>,
    pub fqdn: Option<Seq<char>>,
    pub sas_key_name: Option<Seq<char>>,
    pub sas_key: Option<Seq<char>>,
    pub event_hub: Option<Seq<char>>,
    pub count: u32,
    pub interval_ms: u64,
}

/// The text of an optional string.
pub open spec fn text_of(value: Option<String>) -> Option<Seq<char>> {
    match value {
        Some(text) => Some(text@),
        None => None,
    }
}

impl View for Args {
    type V = ArgsView;

    open spec fn view(&self) -> ArgsView {
        ArgsView {
            connection_string: text_of(self.connection_string),
            fqdn: text_of(self.fqdn),
            sas_key_name: text_of(self.sas_key_name),
            sas_key: text_of(self.sas_key),
            event_hub: text_of(self.event_hub),
            count: self.count,
            interval_ms: self.interval_ms,
        }
    }
}

/// Everything we need to address and authenticate against one Event Hub.
#[derive(Debug)]
pub struct EventHubConfig {
    /// e.g. "mynamespace.servicebus.windows.net"
    pub fqdn: String,
    /// the entity path / hub name
    pub event_hub: String,
    /// the name of the shared access policy
    pub sas_key_name: String,
    /// the key of the shared access policy
    pub sas_key: String,
}

/// The text that an [`EventHubConfig`] holds.
#[verifier::ext_equal]
pub struct ConfigView {
    pub fqdn: Seq<char>,
    pub event_hub: Seq<char>,
    pub sas_key_name: Seq<char>,
    pub sas_key: Seq<char>,
}

impl View for EventHubConfig {
    type V = ConfigView;

    open spec fn view(&self) -> ConfigView {
        ConfigView {
            fqdn: self.fqdn@,
            event_hub: self.event_hub@,
            sas_key_name: self.sas_key_name@,
            sas_key: self.sas_key@,
        }
    }
}

/// Why no [`EventHubConfig`] could be made.
#[derive(Debug)]
pub enum ConfigError {
    /// A segment of the connection string, given here without the whitespace around it, has no '='.
    MalformedSegment(String),
    /// The connection string has no `Endpoint=`.
    NoEndpoint,
    /// The connection string has no `SharedAccessKeyName=`.
    NoSharedAccessKeyName,
    /// The connection string has no `SharedAccessKey=`.
    NoSharedAccessKey,
    /// Neither the connection string nor the arguments name an event hub.
    NoEntityPath,
    /// The arguments hold neither a connection string nor a namespace host.
    NoFqdnArgument,
    /// The arguments hold neither a connection string nor an event hub.
    NoEventHubArgument,
    /// The arguments hold neither a connection string nor a policy name.
    NoSasKeyNameArgument,
    /// The arguments hold neither a connection string nor a key.
    NoSasKeyArgument,
}

/// A [`ConfigError`] with its text as a sequence of characters.
#[verifier::ext_equal]
pub enum ConfigErrorView {
    MalformedSegment(Seq<char>),
    NoEndpoint,
    NoSharedAccessKeyName,
    NoSharedAccessKey,
    NoEntityPath,
    NoFqdnArgument,
    NoEventHubArgument,
    NoSasKeyNameArgument,
    NoSasKeyArgument,
}

impl View for ConfigError {
    type V = ConfigErrorView;

    open spec fn view(&self) -> ConfigErrorView {
        match self {
            ConfigError::MalformedSegment(part) => ConfigErrorView::MalformedSegment(part@),
            ConfigError::NoEndpoint => ConfigErrorView::NoEndpoint,
            ConfigError::NoSharedAccessKeyName => ConfigErrorView::NoSharedAccessKeyName,
            ConfigError::NoSharedAccessKey => ConfigErrorView::NoSharedAccessKey,
            ConfigError::NoEntityPath => ConfigErrorView::NoEntityPath,
            ConfigError::NoFqdnArgument => ConfigErrorView::NoFqdnArgument,
            ConfigError::NoEventHubArgument => ConfigErrorView::NoEventHubArgument,
            ConfigError::NoSasKeyNameArgument => ConfigErrorView::NoSasKeyNameArgument,
            ConfigError::NoSasKeyArgument => ConfigErrorView::NoSasKeyArgument,
        }
    }
}

/// The views of what a function that makes a configuration returned.
pub open spec fn outcome(r: Result<EventHubConfig, ConfigError>) -> Result<
    ConfigView,
    ConfigErrorView,
> {
    match r {
        Ok(config) => Ok(config@),
        Err(error) => Err(error@),
    }
}

/// The configuration that arguments describe, or what is wrong with them.
///
/// A connection string counts alone, but for the event hub: an event hub among the arguments takes
/// the place of the entity path, and there must be a hub name in the end. Without a connection
/// string the four arguments that describe a hub must all be there.
pub open spec fn resolved(args: ArgsView) -> Result<ConfigView, ConfigErrorView> {
    match args.connection_string {
        Some(connection_string) => match parsed(connection_string) {
            Err(error) => Err(error),
            Ok(config) => {
                let event_hub = match args.event_hub {
                    Some(event_hub) => event_hub,
                    None => config.event_hub,
                };
                if event_hub.len() == 0 {
                    Err(ConfigErrorView::NoEntityPath)
                } else {
                    Ok(ConfigView { event_hub, ..config })
                }
            },
        },
        None => match (args.fqdn, args.event_hub, args.sas_key_name, args.sas_key) {
            (None, _, _, _) => Err(ConfigErrorView::NoFqdnArgument),
            (Some(_), None, _, _) => Err(ConfigErrorView::NoEventHubArgument),
            (Some(_), Some(_), None, _) => Err(ConfigErrorView::NoSasKeyNameArgument),
            (Some(_), Some(_), Some(_), None) => Err(ConfigErrorView::NoSasKeyArgument),
            (Some(fqdn), Some(event_hub), Some(sas_key_name), Some(sas_key)) => Ok(
                ConfigView { fqdn, event_hub, sas_key_name, sas_key },
            ),
        },
    }
}

impl ConfigView {
    /// The resource that a token is made for.
    pub open spec fn resource_uri(self) -> Seq<char> {
        "https://"@ + self.fqdn + "/"@ + self.event_hub
    }

    /// The address that events are posted to.
    pub open spec fn messages_url(self) -> Seq<char> {
        self.resource_uri() + "/messages?timeout=60&api-version=2014-01"@
    }
}

impl EventHubConfig {
    /// Resolve config from either a connection string or the discrete arguments.
    pub fn resolve(args: &Args) -> (r: Result<Self, ConfigError>)
        ensures
            outcome(r) == resolved(args@),
            args.connection_string is None && r is Ok ==> {
                &&& args.fqdn matches Some(fqdn) && r->Ok_0.fqdn@ == fqdn@
                &&& args.event_hub matches Some(event_hub) && r->Ok_0.event_hub@ == event_hub@
                &&& args.sas_key_name matches Some(key_name) && r->Ok_0.sas_key_name@ == key_name@
                &&& args.sas_key matches Some(key) && r->Ok_0.sas_key@ == key@
            },
            args.connection_string matches Some(text) ==> {
                &&& parsed(text@) matches Err(error) ==> r is Err && r->Err_0@ == error
                &&& parsed(text@) matches Ok(config) ==> {
                    let event_hub = match args.event_hub {
                        Some(event_hub) => event_hub@,
                        None => config.event_hub,
                    };
                    &&& event_hub.len() == 0 ==> r is Err && r->Err_0 is NoEntityPath
                    &&& event_hub.len() > 0 ==> {
                        &&& r is Ok
                        &&& r->Ok_0.fqdn@ == config.fqdn
                        &&& r->Ok_0.event_hub@ == event_hub
                        &&& r->Ok_0.sas_key_name@ == config.sas_key_name
                        &&& r->Ok_0.sas_key@ == config.sas_key
                    }
                }
            },
    {
        if let Some(cs) = &args.connection_string {
            let mut cfg = match parse_connection_string(cs.as_str()) {
                Ok(cfg) => cfg,
                Err(error) => {
                    return Err(error);
                },
            };
            // An event hub among the arguments overrides any EntityPath in the string.
            if let Some(event_hub) = &args.event_hub {
                cfg.event_hub = event_hub.clone();
            }
            if cfg.event_hub.as_str().is_empty() {
                return Err(ConfigError::NoEntityPath);
            }
            return Ok(cfg);
        }
        let fqdn = match &args.fqdn {
            Some(fqdn) => fqdn.clone(),
            None => {
                return Err(ConfigError::NoFqdnArgument);
            },
        };
        let event_hub = match &args.event_hub {
            Some(event_hub) => event_hub.clone(),
            None => {
                return Err(ConfigError::NoEventHubArgument);
            },
        };
        let sas_key_name = match &args.sas_key_name {
            Some(sas_key_name) => sas_key_name.clone(),
            None => {
                return Err(ConfigError::NoSasKeyNameArgument);
            },
        };
        let sas_key = match &args.sas_key {
            Some(sas_key) => sas_key.clone(),
            None => {
                return Err(ConfigError::NoSasKeyArgument);
            },
        };
        Ok(EventHubConfig { fqdn, event_hub, sas_key_name, sas_key })
    }

    /// The resource URI the SAS token is scoped to and that we POST against.
    pub fn resource_uri(&self) -> (r: String)
        ensures
            r@ == self@.resource_uri(),
            r@ == "https://"@ + self.fqdn@ + "/"@ + self.event_hub@,
    {
        let mut uri = String::new();
        uri.append("https://");
        uri.append(self.fqdn.as_str());
        uri.append("/");
        uri.append(self.event_hub.as_str());
        assert(uri@ =~= self@.resource_uri());
        uri
    }

    /// The send endpoint: `/messages`, not `/partitions/{id}/messages`.
    pub fn messages_url(&self) -> (r: String)
        ensures
            r@ == self@.messages_url(),
            r@ == "https://"@ + self.fqdn@ + "/"@ + self.event_hub@
                + "/messages?timeout=60&api-version=2014-01"@,
    {
        let mut url = self.resource_uri();
        url.append("/messages?timeout=60&api-version=2014-01");
        url
    }
}

/// How `{:?}` writes a text.
pub uninterp spec fn debug_text(text: Seq<char>) -> Seq<char>;

/// Calls the `Debug` implementation that std has for `str`: in quotes, with the characters escaped
/// that would not show. The claim is only that the result is a function of the text.
#[verifier::external_body]
fn debug_of(text: &str) -> (r: String)
    ensures
        r@ == debug_text(text@),
{
    format!("{:?}", text)
}

/// What is said of a malformed segment that `{:?}` writes as `quoted`.
pub fn malformed_segment_message(quoted: &str) -> (r: String)
    ensures
        r@ == "malformed connection string segment: "@ + quoted@,
{
    let mut message = String::new();
    message.append("malformed connection string segment: ");
    message.append(quoted);
    assert(message@ =~= "malformed connection string segment: "@ + quoted@);
    message
}

impl ConfigErrorView {
    /// What is said of the error.
    pub open spec fn message(self) -> Seq<char> {
        match self {
            ConfigErrorView::MalformedSegment(part) => "malformed connection string segment: "@
                + debug_text(part),
            ConfigErrorView::NoEndpoint => "connection string missing Endpoint="@,
            ConfigErrorView::NoSharedAccessKeyName =>
                "connection string missing SharedAccessKeyName="@,
            ConfigErrorView::NoSharedAccessKey => "connection string missing SharedAccessKey="@,
            ConfigErrorView::NoEntityPath =>
                "no event hub: the connection string has no EntityPath; pass --event-hub / EVENTHUB_NAME"@,
            ConfigErrorView::NoFqdnArgument =>
                "missing --fqdn / EVENTHUB_FQDN (or pass --connection-string)"@,
            ConfigErrorView::NoEventHubArgument => "missing --event-hub / EVENTHUB_NAME"@,
            ConfigErrorView::NoSasKeyNameArgument =>
                "missing --sas-key-name / EVENTHUB_SAS_KEY_NAME"@,
            ConfigErrorView::NoSasKeyArgument => "missing --sas-key / EVENTHUB_SAS_KEY"@,
        }
    }
}

impl ConfigError {
    /// What to tell the user.
    pub fn message(&self) -> (r: String)
        ensures
            r@ == self@.message(),
            r@ == match *self {
                ConfigError::MalformedSegment(part) => "malformed connection string segment: "@
                    + debug_text(part@),
                ConfigError::NoEndpoint => "connection string missing Endpoint="@,
                ConfigError::NoSharedAccessKeyName =>
                    "connection string missing SharedAccessKeyName="@,
                ConfigError::NoSharedAccessKey => "connection string missing SharedAccessKey="@,
                ConfigError::NoEntityPath =>
                    "no event hub: the connection string has no EntityPath; pass --event-hub / EVENTHUB_NAME"@,
                ConfigError::NoFqdnArgument =>
                    "missing --fqdn / EVENTHUB_FQDN (or pass --connection-string)"@,
                ConfigError::NoEventHubArgument => "missing --event-hub / EVENTHUB_NAME"@,
                ConfigError::NoSasKeyNameArgument =>
                    "missing --sas-key-name / EVENTHUB_SAS_KEY_NAME"@,
                ConfigError::NoSasKeyArgument => "missing --sas-key / EVENTHUB_SAS_KEY"@,
            },
    {
        match self {
            ConfigError::MalformedSegment(part) => malformed_segment_message(
                debug_of(part.as_str()).as_str(),
            ),
            ConfigError::NoEndpoint => "connection string missing Endpoint=".to_owned(),
            ConfigError::NoSharedAccessKeyName =>
                "connection string missing SharedAccessKeyName=".to_owned(),
            ConfigError::NoSharedAccessKey => "connection string missing SharedAccessKey=".to_owned(),
            ConfigError::NoEntityPath =>
                "no event hub: the connection string has no EntityPath; pass --event-hub / EVENTHUB_NAME".to_owned(),
            ConfigError::NoFqdnArgument =>
                "missing --fqdn / EVENTHUB_FQDN (or pass --connection-string)".to_owned(),
            ConfigError::NoEventHubArgument => "missing --event-hub / EVENTHUB_NAME".to_owned(),
            ConfigError::NoSasKeyNameArgument =>
                "missing --sas-key-name / EVENTHUB_SAS_KEY_NAME".to_owned(),
            ConfigError::NoSasKeyArgument => "missing --sas-key / EVENTHUB_SAS_KEY".to_owned(),
        }
    }
}

/// Where a connection string is given, the other arguments are ignored, but for the event hub.
pub proof fn law_connection_string_stands_alone(args1: ArgsView, args2: ArgsView)
    requires
        args1.connection_string is Some,
        args1.connection_string == args2.connection_string,
        args1.event_hub == args2.event_hub,
    ensures
        resolved(args1) == resolved(args2),
{
}

/// An event hub among the arguments is the one that events go to, whatever the connection string
/// says; and it changes nothing else of what the connection string says.
pub proof fn law_event_hub_argument_overrides(args: ArgsView, connection_string: Seq<char>)
    requires
        args.connection_string == Some(connection_string),
        args.event_hub is Some,
    ensures
        resolved(args) is Ok <==> parsed(connection_string) is Ok && args.event_hub->0.len() > 0,
        parsed(connection_string) matches Err(error) ==> resolved(args) == Err::<ConfigView, _>(error),
        parsed(connection_string) is Ok && args.event_hub->0.len() == 0 ==> resolved(args) == Err::<
            ConfigView,
            _,
        >(ConfigErrorView::NoEntityPath),
        resolved(args) matches Ok(config) ==> {
            &&& config.event_hub == args.event_hub->0
            &&& parsed(connection_string) matches Ok(described) && described.fqdn == config.fqdn
                && described.sas_key_name == config.sas_key_name && described.sas_key
                == config.sas_key
        },
{
}

/// A configuration that comes from a connection string names an event hub.
pub proof fn law_event_hub_is_named(args: ArgsView)
    requires
        args.connection_string is Some,
    ensures
        resolved(args) matches Ok(config) ==> config.event_hub.len() > 0,
{
}

/// Events are posted within the resource that the token is made for.
pub proof fn law_url_lies_in_resource(config: ConfigView)
    ensures
        config.resource_uri().is_prefix_of(config.messages_url()),
{
    let uri = config.resource_uri();
    assert(uri =~= config.messages_url().subrange(0, uri.len() as int));
}

/// The address names the host, the hub and its messages, and nothing between them: no partition.
pub proof fn law_url_names_no_partition(config: ConfigView)
    requires
        lacks(config.fqdn, '/'),
        lacks(config.event_hub, '/'),
    ensures
        split(config.messages_url(), '/') == seq![
            "https:"@,
            ""@,
            config.fqdn,
            config.event_hub,
            "messages?timeout=60&api-version=2014-01"@,
        ],
{
    reveal_strlit("https://");
    reveal_strlit("https:");
    reveal_strlit("");
    reveal_strlit("/");
    reveal_strlit("/messages?timeout=60&api-version=2014-01");
    reveal_strlit("messages?timeout=60&api-version=2014-01");
    let slash = seq!['/'];
    let scheme = "https:"@;
    let tail = "messages?timeout=60&api-version=2014-01"@;
    let from_hub = config.event_hub + slash + tail;
    let from_host = config.fqdn + slash + from_hub;
    let from_gap = ""@ + slash + from_host;
    assert("https://"@ =~= scheme + slash + slash);
    assert("/messages?timeout=60&api-version=2014-01"@ =~= slash + tail);
    assert(config.messages_url() =~= scheme + slash + from_gap);
    lemma_split_concat(scheme, '/', from_gap);
    lemma_split_concat(""@, '/', from_host);
    lemma_split_concat(config.fqdn, '/', from_hub);
    lemma_split_concat(config.event_hub, '/', tail);
    lemma_split_whole(scheme, '/');
    lemma_split_whole(""@, '/');
    lemma_split_whole(config.fqdn, '/');
    lemma_split_whole(config.event_hub, '/');
    lemma_split_whole(tail, '/');
    assert(split(config.messages_url(), '/') =~= seq![
        scheme,
        ""@,
        config.fqdn,
        config.event_hub,
        tail,
    ]);
}

/// Where a connection string is given and no event hub, the configuration is what the connection
/// string describes, in all four of its parts. It must name a hub, and it must be well formed: what is
/// wrong with it is what is reported.
pub proof fn law_connection_string_is_taken_whole(args: ArgsView, connection_string: Seq<char>)
    requires
        args.connection_string == Some(connection_string),
        args.event_hub is None,
    ensures
        parsed(connection_string) matches Err(error) ==> resolved(args) == Err::<ConfigView, _>(error),
        parsed(connection_string) matches Ok(config) ==> {
            &&& config.event_hub.len() == 0 ==> resolved(args) == Err::<ConfigView, _>(
                ConfigErrorView::NoEntityPath,
            )
            &&& config.event_hub.len() > 0 ==> {
                &&& resolved(args) is Ok
                &&& resolved(args)->Ok_0.fqdn == config.fqdn
                &&& resolved(args)->Ok_0.event_hub == config.event_hub
                &&& resolved(args)->Ok_0.sas_key_name == config.sas_key_name
                &&& resolved(args)->Ok_0.sas_key == config.sas_key
            }
        },
{
}

/// Without a connection string the four arguments that describe a hub are the configuration, each in
/// its own place. Of those that are missing, the first in the order host, hub, policy name and key is
/// reported.
pub proof fn law_discrete_arguments_are_taken_whole(args: ArgsView)
    requires
        args.connection_string is None,
    ensures
        resolved(args) is Ok <==> args.fqdn is Some && args.event_hub is Some
            && args.sas_key_name is Some && args.sas_key is Some,
        resolved(args) matches Ok(config) ==> {
            &&& args.fqdn == Some(config.fqdn)
            &&& args.event_hub == Some(config.event_hub)
            &&& args.sas_key_name == Some(config.sas_key_name)
            &&& args.sas_key == Some(config.sas_key)
        },
        resolved(args) matches Err(error) ==> {
            &&& error is NoFqdnArgument <==> args.fqdn is None
            &&& error is NoEventHubArgument <==> args.fqdn is Some && args.event_hub is None
            &&& error is NoSasKeyNameArgument <==> args.fqdn is Some && args.event_hub is Some
                && args.sas_key_name is None
            &&& error is NoSasKeyArgument <==> args.fqdn is Some && args.event_hub is Some
                && args.sas_key_name is Some && args.sas_key is None
        },
{
}

/// The connection string of a configuration resolves to that configuration, whatever the other
/// arguments say; and with a hub among the arguments, to one that differs in nothing but the hub.
pub proof fn law_resolving_undoes_writing(config: ConfigView, args: ArgsView)
    requires
        is_plain_host(config.fqdn),
        lacks(config.event_hub, ';') && is_bare(config.event_hub),
        lacks(config.sas_key_name, ';') && is_bare(config.sas_key_name),
        lacks(config.sas_key, ';') && is_bare(config.sas_key),
        args.connection_string == Some(connection_string_of(config)),
    ensures
        args.event_hub is None && config.event_hub.len() > 0 ==> resolved(args) == Ok::<
            _,
            ConfigErrorView,
        >(config),
        args.event_hub matches Some(event_hub) && event_hub.len() > 0 ==> resolved(args) == Ok::<
            _,
            ConfigErrorView,
        >(
            ConfigView {
                fqdn: config.fqdn,
                event_hub: args.event_hub->0,
                sas_key_name: config.sas_key_name,
                sas_key: config.sas_key,
            },
        ),
{
    law_connection_string_reads_back(config);
}

/// A configuration is seen as it is, and so is the error in its place.
pub proof fn law_configuration_is_seen_whole(r: Result<EventHubConfig, ConfigError>)
    ensures
        r matches Ok(config) ==> {
            &&& outcome(r) == Ok::<_, ConfigErrorView>(config@)
            &&& config@.fqdn == config.fqdn@
            &&& config@.event_hub == config.event_hub@
            &&& config@.sas_key_name == config.sas_key_name@
            &&& config@.sas_key == config.sas_key@
        },
        r matches Err(error) ==> {
            &&& outcome(r) == Err::<ConfigView, _>(error@)
            &&& error matches ConfigError::MalformedSegment(part) ==> error@
                == ConfigErrorView::MalformedSegment(part@)
            &&& error is MalformedSegment <==> error@ is MalformedSegment
            &&& error is NoEndpoint <==> error@ is NoEndpoint
            &&& error is NoSharedAccessKeyName <==> error@ is NoSharedAccessKeyName
            &&& error is NoSharedAccessKey <==> error@ is NoSharedAccessKey
            &&& error is NoEntityPath <==> error@ is NoEntityPath
            &&& error is NoFqdnArgument <==> error@ is NoFqdnArgument
            &&& error is NoEventHubArgument <==> error@ is NoEventHubArgument
            &&& error is NoSasKeyNameArgument <==> error@ is NoSasKeyNameArgument
            &&& error is NoSasKeyArgument <==> error@ is NoSasKeyArgument
        },
{
}

/// Arguments are seen as they are.
pub proof fn law_arguments_are_seen_whole(args: Args)
    ensures
        args.connection_string is None <==> args@.connection_string is None,
        args.connection_string matches Some(text) ==> args@.connection_string == Some(text@),
        args.fqdn is None <==> args@.fqdn is None,
        args.fqdn matches Some(text) ==> args@.fqdn == Some(text@),
        args.sas_key_name is None <==> args@.sas_key_name is None,
        args.sas_key_name matches Some(text) ==> args@.sas_key_name == Some(text@),
        args.sas_key is None <==> args@.sas_key is None,
        args.sas_key matches Some(text) ==> args@.sas_key == Some(text@),
        args.event_hub is None <==> args@.event_hub is None,
        args.event_hub matches Some(text) ==> args@.event_hub == Some(text@),
        args@.count == args.count,
        args@.interval_ms == args.interval_ms,
{
}

/// A caller who does not say gets events without end, four in a second.
pub proof fn law_defaults()
    ensures
        DEFAULT_COUNT == 0,
        4 * DEFAULT_INTERVAL_MS == 1000,
{
}

/// The resource begins with `https://`; behind it stands the host, in full, then a slash, and then the
/// hub to the end. The address of its messages goes on with their path and nothing else.
pub proof fn law_resource_is_host_and_hub(config: ConfigView)
    ensures
        ({
            let uri = config.resource_uri();
            let url = config.messages_url();
            let slash = 8 + config.fqdn.len() as int;
            &&& uri.len() == slash + 1 + config.event_hub.len()
            &&& uri.take(8) == "https://"@
            &&& uri.subrange(8, slash) == config.fqdn
            &&& uri[slash] == '/'
            &&& uri.skip(slash + 1) == config.event_hub
            &&& url.take(uri.len() as int) == uri
            &&& url.skip(uri.len() as int) == "/messages?timeout=60&api-version=2014-01"@
        }),
{
    reveal_strlit("https://");
    reveal_strlit("/");
    let uri = config.resource_uri();
    let url = config.messages_url();
    let slash = 8 + config.fqdn.len() as int;
    assert(uri.take(8) =~= "https://"@);
    assert(uri.subrange(8, slash) =~= config.fqdn);
    assert(uri.skip(slash + 1) =~= config.event_hub);
    assert(url.take(uri.len() as int) =~= uri);
    assert(url.skip(uri.len() as int) =~= "/messages?timeout=60&api-version=2014-01"@);
}

}
