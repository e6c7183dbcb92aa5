use eventhub_http_roundrobin::connection::parse_connection_string;

#[test]
fn parses_connection_string_with_entity_path() {
    let cs = "Endpoint=sb://demo.servicebus.windows.net/;SharedAccessKeyName=Send;SharedAccessKey=abc==;EntityPath=myhub";
    let cfg = parse_connection_string(cs).unwrap();
    assert_eq!(cfg.fqdn, "demo.servicebus.windows.net");
    assert_eq!(cfg.event_hub, "myhub");
    assert_eq!(cfg.sas_key_name, "Send");
    // The '=' padding inside the key must survive: only the first '=' of a segment splits it.
    assert_eq!(cfg.sas_key, "abc==");
}

#[test]
fn parses_connection_string_without_entity_path() {
    let cs =
        "Endpoint=sb://demo.servicebus.windows.net/;SharedAccessKeyName=Root;SharedAccessKey=k";
    let cfg = parse_connection_string(cs).unwrap();
    assert_eq!(cfg.fqdn, "demo.servicebus.windows.net");
    assert!(cfg.event_hub.is_empty());
}

fn error_message(cs: &str) -> String {
    parse_connection_string(cs).unwrap_err().message()
}

#[test]
fn later_segments_unknown_keys_and_blank_segments() {
    let cs = " ; endpoint = sb://old/ ;TransportType=Amqp;;ENDPOINT=sb://new//;\
        SharedAccessKeyName=first;SHAREDACCESSKEYNAME=second;sharedAccessKey= a=b = ;";
    let cfg = parse_connection_string(cs).unwrap();
    assert_eq!(cfg.fqdn, "new");
    assert_eq!(cfg.sas_key_name, "second");
    assert_eq!(cfg.sas_key, "a=b =");
    assert_eq!(cfg.event_hub, "");
}

#[test]
fn values_may_be_empty() {
    let cfg = parse_connection_string("Endpoint=;SharedAccessKeyName=;SharedAccessKey=").unwrap();
    assert_eq!(cfg.fqdn, "");
    assert_eq!(cfg.sas_key_name, "");
    assert_eq!(cfg.sas_key, "");
}

#[test]
fn whitespace_of_any_script_is_trimmed() {
    let cs = "\u{3000}Endpoint\u{a0}=\u{2009}sb://h/\u{85};SharedAccessKeyName=\tn\r\n;SharedAccessKey=\u{200b}k";
    let cfg = parse_connection_string(cs).unwrap();
    assert_eq!(cfg.fqdn, "h");
    assert_eq!(cfg.sas_key_name, "n");
    // A zero width space has no White_Space property.
    assert_eq!(cfg.sas_key, "\u{200b}k");
}

#[test]
fn only_ascii_letters_of_keys_are_lowered() {
    // The Kelvin sign lowers to 'k' in Unicode, but not in ASCII.
    let cs = "Endpoint=e;SharedAccessKeyName=n;SharedAccess\u{212a}ey=k";
    assert_eq!(error_message(cs), "connection string missing SharedAccessKey=");
}

#[test]
fn schemes_are_stripped_as_often_as_they_stand_there() {
    let host = |endpoint: &str| {
        let cs = format!("Endpoint={endpoint};SharedAccessKeyName=n;SharedAccessKey=k");
        parse_connection_string(&cs).unwrap().fqdn
    };
    assert_eq!(host("https://ns.example/"), "ns.example");
    assert_eq!(host("sb://sb://https://https://ns///"), "ns");
    assert_eq!(host("https://sb://ns"), "sb://ns");
    assert_eq!(host("SB://ns"), "SB://ns");
    assert_eq!(host("ns/path/"), "ns/path");
    assert_eq!(host("sb://"), "");
    assert_eq!(host("sb:/"), "sb:");
}

#[test]
fn errors_in_order() {
    assert_eq!(error_message(""), "connection string missing Endpoint=");
    assert_eq!(error_message("SharedAccessKey=k"), "connection string missing Endpoint=");
    assert_eq!(error_message("Endpoint=e"), "connection string missing SharedAccessKeyName=");
    assert_eq!(
        error_message("Endpoint=e;SharedAccessKeyName=n"),
        "connection string missing SharedAccessKey="
    );
}

#[test]
fn first_malformed_segment_is_reported() {
    assert_eq!(
        error_message("Endpoint=e; no \"pair\"\there ;other"),
        "malformed connection string segment: \"no \\\"pair\\\"\\there\""
    );
    let error = parse_connection_string("x").unwrap_err();
    assert!(matches!(
        error,
        eventhub_http_roundrobin::config::ConfigError::MalformedSegment(part) if part == "x"
    ));
    // It counts before anything that is missing.
    assert_eq!(error_message("; ; x ;"), "malformed connection string segment: \"x\"");
}

#[test]
fn configuration_reads_back_from_its_connection_string() {
    let cs = "Endpoint=sb://ns.example/;SharedAccessKeyName=a=b;SharedAccessKey===k==;EntityPath=hub/x y";
    let cfg = parse_connection_string(cs).unwrap();
    let again = format!(
        "Endpoint=sb://{}/;SharedAccessKeyName={};SharedAccessKey={};EntityPath={}",
        cfg.fqdn, cfg.sas_key_name, cfg.sas_key, cfg.event_hub
    );
    assert_eq!(again, cs);
    assert_eq!(cfg.sas_key, "==k==");
}

#[test]
fn whitespace_is_the_unicode_property() {
    for c in '\0'..=char::MAX {
        assert_eq!(
            eventhub_http_roundrobin::text::is_whitespace(c),
            c.is_whitespace(),
            "{c:?}"
        );
    }
}

#[test]
fn segments_may_come_in_any_order() {
    let cs = "EntityPath=hub;SharedAccessKey=k;SharedAccessKeyName=n;Endpoint=sb://ns/";
    let cfg = parse_connection_string(cs).unwrap();
    assert_eq!(cfg.fqdn, "ns");
    assert_eq!(cfg.event_hub, "hub");
    assert_eq!(cfg.sas_key_name, "n");
    assert_eq!(cfg.sas_key, "k");
}
