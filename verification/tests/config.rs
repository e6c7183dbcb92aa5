use eventhub_http_roundrobin::config::{
    malformed_segment_message, Args, ConfigError, EventHubConfig, DEFAULT_COUNT,
    DEFAULT_INTERVAL_MS,
};

#[test]
fn resource_uri_and_messages_url_are_well_formed() {
    let cfg = EventHubConfig {
        fqdn: "demo.servicebus.windows.net".into(),
        event_hub: "myhub".into(),
        sas_key_name: "Send".into(),
        sas_key: "k".into(),
    };
    assert_eq!(
        cfg.resource_uri(),
        "https://demo.servicebus.windows.net/myhub"
    );
    assert_eq!(
        cfg.messages_url(),
        "https://demo.servicebus.windows.net/myhub/messages?timeout=60&api-version=2014-01"
    );
}

fn text(s: &str) -> Option<String> {
    Some(s.to_string())
}

fn no_args() -> Args {
    Args {
        connection_string: None,
        fqdn: None,
        sas_key_name: None,
        sas_key: None,
        event_hub: None,
        count: DEFAULT_COUNT,
        interval_ms: DEFAULT_INTERVAL_MS,
    }
}

fn policy() -> Option<String> {
    text("Endpoint=sb://ns/;SharedAccessKeyName=n;SharedAccessKey=k")
}

fn fields(cfg: EventHubConfig) -> [String; 4] {
    [cfg.fqdn, cfg.event_hub, cfg.sas_key_name, cfg.sas_key]
}

fn error_message(args: &Args) -> String {
    EventHubConfig::resolve(args).unwrap_err().message()
}

#[test]
fn resolves_discrete_arguments() {
    let mut args = no_args();
    assert_eq!(
        error_message(&args),
        "missing --fqdn / EVENTHUB_FQDN (or pass --connection-string)"
    );
    args.fqdn = text("ns");
    assert_eq!(error_message(&args), "missing --event-hub / EVENTHUB_NAME");
    args.event_hub = text("hub");
    assert_eq!(
        error_message(&args),
        "missing --sas-key-name / EVENTHUB_SAS_KEY_NAME"
    );
    args.sas_key_name = text("n");
    assert_eq!(error_message(&args), "missing --sas-key / EVENTHUB_SAS_KEY");
    args.sas_key = text("k");
    let cfg = EventHubConfig::resolve(&args).unwrap();
    assert_eq!(fields(cfg), ["ns", "hub", "n", "k"]);
}

#[test]
fn discrete_event_hub_may_be_empty() {
    let mut args = no_args();
    args.fqdn = text("ns");
    args.event_hub = text("");
    args.sas_key_name = text("n");
    args.sas_key = text("k");
    assert_eq!(EventHubConfig::resolve(&args).unwrap().event_hub, "");
}

#[test]
fn event_hub_argument_overrides_entity_path() {
    let mut args = no_args();
    args.connection_string =
        text("Endpoint=sb://ns/;SharedAccessKeyName=n;SharedAccessKey=k;EntityPath=path");
    assert_eq!(
        fields(EventHubConfig::resolve(&args).unwrap()),
        ["ns", "path", "n", "k"]
    );
    args.event_hub = text("flag");
    assert_eq!(
        fields(EventHubConfig::resolve(&args).unwrap()),
        ["ns", "flag", "n", "k"]
    );
    args.event_hub = text("");
    assert_eq!(
        error_message(&args),
        "no event hub: the connection string has no EntityPath; pass --event-hub / EVENTHUB_NAME"
    );
}

#[test]
fn connection_string_needs_an_event_hub() {
    let mut args = no_args();
    args.connection_string = policy();
    assert!(matches!(
        EventHubConfig::resolve(&args),
        Err(ConfigError::NoEntityPath)
    ));
    args.event_hub = text("hub");
    assert_eq!(
        fields(EventHubConfig::resolve(&args).unwrap()),
        ["ns", "hub", "n", "k"]
    );
}

#[test]
fn connection_string_stands_alone() {
    let mut args = no_args();
    args.connection_string = policy();
    args.fqdn = text("ignored");
    args.sas_key_name = text("ignored");
    args.sas_key = text("ignored");
    args.event_hub = text("hub");
    assert_eq!(
        fields(EventHubConfig::resolve(&args).unwrap()),
        ["ns", "hub", "n", "k"]
    );
    args.connection_string = text("Endpoint=sb://ns/");
    assert_eq!(
        error_message(&args),
        "connection string missing SharedAccessKeyName="
    );
}

#[test]
fn url_extends_the_resource_and_names_no_partition() {
    let cfg = EventHubConfig {
        fqdn: "ns".into(),
        event_hub: "hub".into(),
        sas_key_name: "n".into(),
        sas_key: "k".into(),
    };
    let url = cfg.messages_url();
    assert!(url.starts_with(&cfg.resource_uri()));
    let parts: Vec<&str> = url.split('/').collect();
    assert_eq!(
        parts,
        ["https:", "", "ns", "hub", "messages?timeout=60&api-version=2014-01"]
    );
}

#[test]
fn malformed_segment_message_quotes() {
    assert_eq!(
        malformed_segment_message("\"x\""),
        "malformed connection string segment: \"x\""
    );
}

#[test]
fn defaults() {
    assert_eq!(DEFAULT_COUNT, 0);
    assert_eq!(DEFAULT_INTERVAL_MS, 250);
}
