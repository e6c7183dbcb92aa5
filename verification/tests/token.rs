use std::time::{Duration, SystemTime, SystemTimeError, UNIX_EPOCH};

use base64::Engine;
use eventhub_http_roundrobin::config::EventHubConfig;
use eventhub_http_roundrobin::token::{
    sas_token, sas_token_at, sas_token_with_expiry, string_to_sign, token_from_mac, TokenError,
    TOKEN_TTL_SECS,
};
use hmac::{Hmac, Mac};

#[test]
fn sas_token_has_required_fields_and_encoded_uri() {
    let token = sas_token(
        "https://demo.servicebus.windows.net/myhub",
        "Send",
        "secretkey",
        Duration::from_secs(3600).as_secs(),
    )
    .unwrap();
    assert!(token.starts_with("SharedAccessSignature "));
    // ':' and '/' in the resource URI must be percent-encoded in sr.
    assert!(token.contains("sr=https%3A%2F%2Fdemo.servicebus.windows.net%2Fmyhub"));
    assert!(token.contains("&sig="));
    assert!(token.contains("&se="));
    assert!(token.contains("&skn=Send"));
}

/// Golden test: byte-for-byte match against Microsoft's reference Python
/// algorithm (urlencode(uri)+"\n"+expiry -> HMAC-SHA256 -> base64 -> urlencode)
/// for fixed inputs. A drift here means a silent 401 against real Event Hubs.
#[test]
fn sas_token_matches_microsoft_reference() {
    let token = sas_token_with_expiry(
        "https://demo.servicebus.windows.net/myhub",
        "Send",
        "secretkey",
        1_700_000_000,
    )
    .unwrap();
    let expected = "SharedAccessSignature \
        sr=https%3A%2F%2Fdemo.servicebus.windows.net%2Fmyhub\
        &sig=XCxTTWaPVS%2B2w3EXdPdgpKom3eTQiaPgqKlSK3OmM0Y%3D\
        &se=1700000000&skn=Send";
    assert_eq!(token, expected);
}

/// The token as the outside crates make it, step by step.
fn reference_token(resource_uri: &str, key_name: &str, key: &str, expiry: u64) -> String {
    let encoded_uri = urlencoding::encode(resource_uri);
    let mut mac = Hmac::<sha2::Sha256>::new_from_slice(key.as_bytes()).unwrap();
    mac.update(format!("{encoded_uri}\n{expiry}").as_bytes());
    let signature = base64::engine::general_purpose::STANDARD.encode(mac.finalize().into_bytes());
    let encoded_sig = urlencoding::encode(&signature);
    format!("SharedAccessSignature sr={encoded_uri}&sig={encoded_sig}&se={expiry}&skn={key_name}")
}

#[test]
fn token_is_made_of_its_steps() {
    let long_key = "k".repeat(65);
    for key in ["", "k", "schl\u{fc}ssel", long_key.as_str()] {
        for uri in ["", "https://ns/hub", "sp ace/\u{e9}\u{4e16}\u{1f600}~_-."] {
            for expiry in [0, 9, 10, 1_700_000_000, u64::MAX] {
                assert_eq!(
                    sas_token_with_expiry(uri, "n", key, expiry).unwrap(),
                    reference_token(uri, "n", key, expiry)
                );
            }
        }
    }
}

#[test]
fn text_to_sign() {
    assert_eq!(string_to_sign("a/b", 0), "a%2Fb\n0");
    assert_eq!(
        string_to_sign("\u{e9} ~", u64::MAX),
        "%C3%A9%20~\n18446744073709551615"
    );
    assert_ne!(string_to_sign("a", 11), string_to_sign("a1", 1));
}

#[test]
fn token_from_given_code() {
    let sig = |mac: &[u8]| token_from_mac("u", "n", 7, mac);
    assert_eq!(sig(b""), "SharedAccessSignature sr=u&sig=&se=7&skn=n");
    assert_eq!(sig(b"M"), "SharedAccessSignature sr=u&sig=TQ%3D%3D&se=7&skn=n");
    assert_eq!(sig(b"Ma"), "SharedAccessSignature sr=u&sig=TWE%3D&se=7&skn=n");
    assert_eq!(sig(b"Man"), "SharedAccessSignature sr=u&sig=TWFu&se=7&skn=n");
    assert_eq!(
        sig(&[0xfb, 0xff, 0xbf]),
        "SharedAccessSignature sr=u&sig=%2B%2F%2B%2F&se=7&skn=n"
    );
}

/// The clock's error for a time one second before the epoch.
fn before_epoch() -> SystemTimeError {
    (UNIX_EPOCH - Duration::from_secs(1))
        .duration_since(UNIX_EPOCH)
        .unwrap_err()
}

#[test]
fn expiry_is_now_and_the_time_to_live() {
    let at = |now, ttl| sas_token_at("u", "n", "k", Ok(now), ttl);
    let with_expiry = |expiry| sas_token_with_expiry("u", "n", "k", expiry).unwrap();
    assert_eq!(at(1_000, 3_600).unwrap(), with_expiry(4_600));
    assert_eq!(at(u64::MAX - 1, 1).unwrap(), with_expiry(u64::MAX));
    assert!(matches!(at(u64::MAX, 1), Err(TokenError::ExpiryOutOfRange)));
}

#[test]
fn clock_error_is_kept_as_the_cause() {
    match sas_token_at("u", "n", "k", Err(before_epoch()), 1) {
        Err(TokenError::ClockBeforeEpoch(cause)) => {
            assert_eq!(cause.duration(), Duration::from_secs(1));
            assert_eq!(cause.to_string(), before_epoch().to_string());
        }
        other => panic!("{other:?}"),
    }
}

#[test]
fn signature_is_32_bytes_of_padded_base64() {
    let token = sas_token_with_expiry("a b~\u{e9}", "x y&z", "", 0).unwrap();
    assert!(token.starts_with("SharedAccessSignature sr=a%20b~%C3%A9&sig="));
    assert!(token.ends_with("%3D&se=0&skn=x y&z"));
    let (_, from_sig) = token.split_once("&sig=").unwrap();
    let (sig, _) = from_sig.split_once("&se=").unwrap();
    assert!(!sig.contains(|c| "+/=&".contains(c)));
    let signature = urlencoding::decode(sig).unwrap();
    assert_eq!(signature.len(), 44);
    let mac = base64::engine::general_purpose::STANDARD
        .decode(signature.as_bytes())
        .unwrap();
    assert_eq!(mac.len(), 32);
    assert_eq!(token, token_from_mac("a b~\u{e9}", "x y&z", 0, &mac));
}

#[test]
fn token_of_now_expires_later() {
    let now = || SystemTime::now().duration_since(UNIX_EPOCH).unwrap().as_secs();
    let before = now();
    let token = sas_token("u", "n", "k", 3_600).unwrap();
    let after = now();
    let (_, from_expiry) = token.split_once("&se=").unwrap();
    let (expiry, _) = from_expiry.split_once('&').unwrap();
    let expiry: u64 = expiry.parse().unwrap();
    assert!(before + 3_600 <= expiry && expiry <= after + 3_600);
    assert_eq!(token, sas_token_with_expiry("u", "n", "k", expiry).unwrap());
    assert!(matches!(
        sas_token("u", "n", "k", u64::MAX),
        Err(TokenError::ExpiryOutOfRange)
    ));
}

#[test]
fn configured_hub_is_authorized() {
    let cfg = EventHubConfig {
        fqdn: "ns".into(),
        event_hub: "hub".into(),
        sas_key_name: "n".into(),
        sas_key: "k".into(),
    };
    let now = || SystemTime::now().duration_since(UNIX_EPOCH).unwrap().as_secs();
    let before = now();
    let token = cfg.authorization().unwrap();
    let after = now();
    let (_, from_expiry) = token.split_once("&se=").unwrap();
    let (expiry, _) = from_expiry.split_once('&').unwrap();
    let expiry: u64 = expiry.parse().unwrap();
    assert!(before + 3_600 <= expiry && expiry <= after + 3_600);
    assert_eq!(
        token,
        sas_token_with_expiry("https://ns/hub", "n", "k", expiry).unwrap()
    );
    assert_eq!(TOKEN_TTL_SECS, 3_600);
    assert_eq!(
        cfg.authorization_at(Ok(1_000)).unwrap(),
        sas_token_with_expiry("https://ns/hub", "n", "k", 4_600).unwrap()
    );
    assert!(matches!(
        cfg.authorization_at(Err(before_epoch())),
        Err(TokenError::ClockBeforeEpoch(_))
    ));
    assert!(matches!(
        cfg.authorization_at(Ok(u64::MAX)),
        Err(TokenError::ExpiryOutOfRange)
    ));
}

#[test]
fn token_splits_into_its_fields() {
    let token = token_from_mac("https://ns/a&b=c", "n m", 5, b"Ma");
    let fields: Vec<&str> = token
        .strip_prefix("SharedAccessSignature ")
        .unwrap()
        .split('&')
        .collect();
    assert_eq!(
        fields,
        ["sr=https%3A%2F%2Fns%2Fa%26b%3Dc", "sig=TWE%3D", "se=5", "skn=n m"]
    );
}

#[test]
fn token_error_messages() {
    assert_eq!(TokenError::InvalidKey.message(), "invalid SAS key: Invalid Length");
    assert_eq!(
        TokenError::InvalidKey.message(),
        format!("invalid SAS key: {}", hmac::digest::InvalidLength)
    );
    assert_eq!(
        TokenError::ClockBeforeEpoch(before_epoch()).message(),
        "system clock before unix epoch"
    );
    assert_eq!(
        TokenError::ExpiryOutOfRange.message(),
        "token expiry out of range"
    );
}
