//! Shared Access Signature (SAS) tokens.
//!
//! ```text
//! string_to_sign = urlencode(resource_uri) + "\n" + expiry_epoch_seconds
//! signature      = urlencode(base64(HMAC_SHA256(key, string_to_sign)))
//! token          = "SharedAccessSignature sr={enc_uri}&sig={signature}&se={expiry}&skn={key_name}"
//! ```

use vstd::prelude::*;
use vstd::utf8::{
    encode_utf8, encode_utf8_decode_utf8, is_ascii_chars, is_ascii_chars_encode_utf8,
};

use base64::Engine;
use hmac::Mac;

use crate::config::EventHubConfig;
use crate::text::{append_decimal, decimal, first_index, is_numeral, lacks, split};
use crate::text_laws::law_decimal_is_the_numeral;
use crate::text_lemmas::{
    lemma_cut, lemma_cut_unique, lemma_decimal_digits, lemma_decimal_injective, lemma_split_concat,
    lemma_split_whole,
};

verus! {

/// How long the producer's token is valid, in seconds.
pub const TOKEN_TTL_SECS: u64 = 3600;

/// Why no token could be made.
#[derive(Debug)]
pub enum TokenError {
    /// The key cannot be used.
    InvalidKey,
    /// The system clock shows a time before the Unix epoch, as the clock's own error tells.
    ClockBeforeEpoch(std::time::SystemTimeError),
    /// The expiry is beyond the seconds that 64 bits can count.
    ExpiryOutOfRange,
}

/// The bytes that stand for themselves in a percent-encoded text.
pub open spec fn is_unreserved(byte: u8) -> bool {
    ||| '0' as u8 <= byte <= '9' as u8
    ||| 'A' as u8 <= byte <= 'Z' as u8
    ||| 'a' as u8 <= byte <= 'z' as u8
    ||| byte == '-' as u8
    ||| byte == '.' as u8
    ||| byte == '_' as u8
    ||| byte == '~' as u8
}

/// The upper-case hexadecimal digit for a value below sixteen.
pub open spec fn hex_digit(d: nat) -> char {
    if d < 10 {
        ('0' as u32 + d) as char
    } else {
        ('A' as u32 + (d - 10)) as char
    }
}

/// One byte, percent-encoded.
pub open spec fn percent_encoded_byte(byte: u8) -> Seq<char> {
    if is_unreserved(byte) {
        seq![byte as char]
    } else {
        seq!['%', hex_digit((byte / 16) as nat), hex_digit((byte % 16) as nat)]
    }
}

/// Bytes, percent-encoded one after the other.
pub open spec fn percent_encoded(bytes: Seq<u8>) -> Seq<char>
    decreases bytes.len(),
{
    if bytes.len() == 0 {
        seq![]
    } else {
        percent_encoded_byte(bytes.first()) + percent_encoded(bytes.drop_first())
    }
}

/// A text, percent-encoded in UTF-8.
pub open spec fn url_encoded(text: Seq<char>) -> Seq<char> {
    percent_encoded(encode_utf8(text))
}

/// The character for six bits in the standard base64 alphabet.
pub open spec fn base64_digit(d: nat) -> char {
    if d < 26 {
        ('A' as u32 + d) as char
    } else if d < 52 {
        ('a' as u32 + (d - 26)) as char
    } else if d < 62 {
        ('0' as u32 + (d - 52)) as char
    } else if d == 62 {
        '+'
    } else {
        '/'
    }
}

/// The `j`th group of six bits in `bytes`, which zero bits follow.
pub open spec fn base64_sextet(bytes: Seq<u8>, j: int) -> nat {
    let at = |i: int| if i < bytes.len() { bytes[i] as int } else { 0 };
    let i = j / 4 * 3;
    let three_bytes = at(i) * 65536 + at(i + 1) * 256 + at(i + 2);
    let below = if j % 4 == 0 {
        262144
    } else if j % 4 == 1 {
        4096
    } else if j % 4 == 2 {
        64
    } else {
        1int
    };
    (three_bytes / below % 64) as nat
}

/// Bytes in standard base64: one character for each six bits begun, and equals signs up to a
/// multiple of four.
pub open spec fn base64_encoded(bytes: Seq<u8>) -> Seq<char> {
    Seq::new(
        (bytes.len() + 2) / 3 * 4,
        |j: int|
            if 6 * j < 8 * bytes.len() {
                base64_digit(base64_sextet(bytes, j))
            } else {
                '='
            },
    )
}

/// HMAC with SHA-256 of a message under a key.
pub uninterp spec fn hmac_sha256(key: Seq<u8>, message: Seq<u8>) -> Seq<u8>;

/// The error of `hmac` for a key of a length that an algorithm does not take.
#[verifier::external_type_specification]
#[verifier::external_body]
pub struct ExInvalidLength(hmac::digest::InvalidLength);

/// The error of std's clock for a time that lies in the future.
#[verifier::external_type_specification]
#[verifier::external_body]
pub struct ExSystemTimeError(std::time::SystemTimeError);

/// Calls `urlencoding::encode`: every byte of the text in UTF-8 is percent-encoded with upper-case
/// digits, except letters, digits, `-`, `_`, `.` and `~`.
#[verifier::external_body]
fn url_encode(text: &str) -> (r: String)
    ensures
        r@ == url_encoded(text@),
{
    urlencoding::encode(text).into_owned()
}

/// Calls `encode` of base64's engine `STANDARD`: the standard alphabet, with padding. That engine
/// panics where the length of the result does not fit.
#[verifier::external_body]
fn base64_encode(bytes: &[u8]) -> (r: String)
    requires
        (bytes@.len() + 2) / 3 * 4 <= isize::MAX,
    ensures
        r@ == base64_encoded(bytes@),
{
    base64::engine::general_purpose::STANDARD.encode(bytes)
}

/// Runs `hmac::Hmac<sha2::Sha256>` over one message: `new_from_slice`, which takes a key of any
/// length, `update` and `finalize`. The code has the 32 bytes of a SHA-256 digest, and is a function
/// of the key and the message; which function is left unsaid.
#[verifier::external_body]
fn mac_of(key: &[u8], message: &[u8]) -> (r: Result<Vec<u8>, hmac::digest::InvalidLength>)
    ensures
        r is Ok,
        r->Ok_0@ == hmac_sha256(key@, message@),
        r->Ok_0@.len() == 32,
{
    let mut mac = hmac::Hmac::<sha2::Sha256>::new_from_slice(key)?;
    mac.update(message);
    Ok(mac.finalize().into_bytes().to_vec())
}

/// Reads the system clock with `std::time::SystemTime::elapsed` of the Unix epoch, in whole seconds.
/// It fails where the clock shows a time before the epoch. Nothing is claimed of what it shows.
#[verifier::external_body]
fn unix_time_secs() -> (r: Result<u64, std::time::SystemTimeError>) {
    Ok(std::time::UNIX_EPOCH.elapsed()?.as_secs())
}

/// What is signed: the percent-encoded resource, a line feed, and the expiry in decimal.
pub open spec fn signed_text(resource_uri: Seq<char>, expiry: u64) -> Seq<char> {
    url_encoded(resource_uri) + "\n"@ + decimal(expiry as nat)
}

/// The token for a resource, a policy name, an expiry and a code.
pub open spec fn token_with_mac(
    resource_uri: Seq<char>,
    key_name: Seq<char>,
    expiry: u64,
    mac: Seq<u8>,
) -> Seq<char> {
    "SharedAccessSignature sr="@ + url_encoded(resource_uri) + "&sig="@ + url_encoded(
        base64_encoded(mac),
    ) + "&se="@ + decimal(expiry as nat) + "&skn="@ + key_name
}

/// The code of a resource and an expiry under a key.
pub open spec fn mac_for(resource_uri: Seq<char>, key: Seq<char>, expiry: u64) -> Seq<u8> {
    hmac_sha256(encode_utf8(key), encode_utf8(signed_text(resource_uri, expiry)))
}

/// The token for a resource, signed with a key.
pub open spec fn signed_token(
    resource_uri: Seq<char>,
    key_name: Seq<char>,
    key: Seq<char>,
    expiry: u64,
) -> Seq<char> {
    token_with_mac(resource_uri, key_name, expiry, mac_for(resource_uri, key, expiry))
}

/// The token made when the clock shows `now` seconds after the Unix epoch, or fails because it shows
/// a time before. It expires `ttl_secs` later.
pub open spec fn token_at(
    resource_uri: Seq<char>,
    key_name: Seq<char>,
    key: Seq<char>,
    now: Result<u64, std::time::SystemTimeError>,
    ttl_secs: u64,
) -> Result<Seq<char>, TokenError> {
    match now {
        Err(cause) => Err(TokenError::ClockBeforeEpoch(cause)),
        Ok(now) => if now + ttl_secs > u64::MAX {
            Err(TokenError::ExpiryOutOfRange)
        } else {
            Ok(signed_token(resource_uri, key_name, key, (now + ttl_secs) as u64))
        },
    }
}

/// A token made when the clock shows `now` carries a code of 32 bytes, as SHA-256 gives.
pub open spec fn code_is_whole(
    resource_uri: Seq<char>,
    key: Seq<char>,
    now: Result<u64, std::time::SystemTimeError>,
    ttl_secs: u64,
) -> bool {
    match now {
        Ok(now) => now + ttl_secs <= u64::MAX ==> mac_for(
            resource_uri,
            key,
            (now + ttl_secs) as u64,
        ).len() == 32,
        Err(_) => true,
    }
}

/// What a function that makes a token returned, with the token as a sequence of characters.
pub open spec fn token_outcome(r: Result<String, TokenError>) -> Result<Seq<char>, TokenError> {
    match r {
        Ok(token) => Ok(token@),
        Err(error) => Err(error),
    }
}

/// The text to sign for a resource and an expiry (Unix seconds).
pub fn string_to_sign(resource_uri: &str, expiry: u64) -> (r: String)
    ensures
        r@ == signed_text(resource_uri@, expiry),
        r@ == url_encoded(resource_uri@) + "\n"@ + decimal(expiry as nat),
{
    let mut text = url_encode(resource_uri);
    text.append("\n");
    append_decimal(&mut text, expiry as u128);
    text
}

/// The token that carries `mac`, the code of the text to sign.
pub fn token_from_mac(resource_uri: &str, key_name: &str, expiry: u64, mac: &[u8]) -> (r: String)
    requires
        (mac@.len() + 2) / 3 * 4 <= isize::MAX,
    ensures
        r@ == token_with_mac(resource_uri@, key_name@, expiry, mac@),
        r@ == "SharedAccessSignature sr="@ + url_encoded(resource_uri@) + "&sig="@ + url_encoded(
            base64_encoded(mac@),
        ) + "&se="@ + decimal(expiry as nat) + "&skn="@ + key_name@,
{
    let signature = base64_encode(mac);
    let mut token = String::new();
    token.append("SharedAccessSignature sr=");
    token.append(url_encode(resource_uri).as_str());
    token.append("&sig=");
    token.append(url_encode(signature.as_str()).as_str());
    token.append("&se=");
    append_decimal(&mut token, expiry as u128);
    token.append("&skn=");
    token.append(key_name);
    assert(token@ =~= token_with_mac(resource_uri@, key_name@, expiry, mac@));
    token
}

/// Signing core with an explicit expiry (Unix seconds), so that the signature is deterministic. A key
/// of any length will do.
pub fn sas_token_with_expiry(resource_uri: &str, key_name: &str, key: &str, expiry: u64) -> (r:
    Result<String, TokenError>)
    ensures
        token_outcome(r) == Ok::<Seq<char>, TokenError>(
            signed_token(resource_uri@, key_name@, key@, expiry),
        ),
        mac_for(resource_uri@, key@, expiry).len() == 32,
        r is Ok,
        ({
            let code = hmac_sha256(
                encode_utf8(key@),
                encode_utf8(url_encoded(resource_uri@) + "\n"@ + decimal(expiry as nat)),
            );
            &&& code.len() == 32
            &&& r->Ok_0@ == "SharedAccessSignature sr="@ + url_encoded(resource_uri@) + "&sig="@
                + url_encoded(base64_encoded(code)) + "&se="@ + decimal(expiry as nat) + "&skn="@
                + key_name@
        }),
{
    let text = string_to_sign(resource_uri, expiry);
    match mac_of(key.as_bytes(), text.as_str().as_bytes()) {
        Ok(mac) => Ok(token_from_mac(resource_uri, key_name, expiry, mac.as_slice())),
        Err(_) => Err(TokenError::InvalidKey),
    }
}

/// Build a Shared Access Signature token that is valid for `ttl_secs` from `now`, the seconds since
/// the Unix epoch, or the clock's error where it shows a time before.
pub fn sas_token_at(
    resource_uri: &str,
    key_name: &str,
    key: &str,
    now: Result<u64, std::time::SystemTimeError>,
    ttl_secs: u64,
) -> (r: Result<String, TokenError>)
    ensures
        token_outcome(r) == token_at(resource_uri@, key_name@, key@, now, ttl_secs),
        code_is_whole(resource_uri@, key@, now, ttl_secs),
        now matches Err(cause) ==> r is Err && r->Err_0 == TokenError::ClockBeforeEpoch(cause),
        now matches Ok(now) ==> {
            &&& now + ttl_secs > u64::MAX ==> r is Err && r->Err_0 is ExpiryOutOfRange
            &&& now + ttl_secs <= u64::MAX ==> r is Ok && r->Ok_0@ == signed_token(
                resource_uri@,
                key_name@,
                key@,
                (now + ttl_secs) as u64,
            )
        },
{
    let now: u64 = match now {
        Ok(now) => now,
        Err(cause) => {
            return Err(TokenError::ClockBeforeEpoch(cause));
        },
    };
    match now.checked_add(ttl_secs) {
        Some(expiry) => sas_token_with_expiry(resource_uri, key_name, key, expiry),
        None => Err(TokenError::ExpiryOutOfRange),
    }
}

/// Build a Shared Access Signature token for the given resource URI that is valid for `ttl_secs`
/// from now on, by the system clock.
pub fn sas_token(resource_uri: &str, key_name: &str, key: &str, ttl_secs: u64) -> (r: Result<
    String,
    TokenError,
>)
    ensures
        exists|now: Result<u64, std::time::SystemTimeError>|
            {
                &&& token_outcome(r) == #[trigger] token_at(
                    resource_uri@,
                    key_name@,
                    key@,
                    now,
                    ttl_secs,
                )
                &&& code_is_whole(resource_uri@, key@, now, ttl_secs)
            },
{
    sas_token_at(resource_uri, key_name, key, unix_time_secs(), ttl_secs)
}

impl EventHubConfig {
    /// The token for the configured hub, signed with its key and valid for an hour from `now`, the
    /// seconds since the Unix epoch, or the clock's error where it shows a time before.
    pub fn authorization_at(&self, now: Result<u64, std::time::SystemTimeError>) -> (r: Result<
        String,
        TokenError,
    >)
        ensures
            token_outcome(r) == token_at(
                self@.resource_uri(),
                self@.sas_key_name,
                self@.sas_key,
                now,
                TOKEN_TTL_SECS,
            ),
            code_is_whole(self@.resource_uri(), self@.sas_key, now, TOKEN_TTL_SECS),
            now matches Err(cause) ==> r is Err && r->Err_0 == TokenError::ClockBeforeEpoch(cause),
            now matches Ok(now) ==> {
                &&& now + 3600 > u64::MAX ==> r is Err && r->Err_0 is ExpiryOutOfRange
                &&& now + 3600 <= u64::MAX ==> r is Ok && r->Ok_0@ == signed_token(
                    "https://"@ + self.fqdn@ + "/"@ + self.event_hub@,
                    self.sas_key_name@,
                    self.sas_key@,
                    (now + 3600) as u64,
                )
            },
    {
        let resource_uri = self.resource_uri();
        sas_token_at(
            resource_uri.as_str(),
            self.sas_key_name.as_str(),
            self.sas_key.as_str(),
            now,
            TOKEN_TTL_SECS,
        )
    }

    /// The token for the configured hub, signed with its key. One token is good for a whole run: it is
    /// valid for an hour, by the system clock.
    pub fn authorization(&self) -> (r: Result<String, TokenError>)
        ensures
            exists|now: Result<u64, std::time::SystemTimeError>|
                {
                    &&& token_outcome(r) == #[trigger] token_at(
                        self@.resource_uri(),
                        self@.sas_key_name,
                        self@.sas_key,
                        now,
                        TOKEN_TTL_SECS,
                    )
                    &&& code_is_whole(
                        self@.resource_uri(),
                        self@.sas_key,
                        now,
                        TOKEN_TTL_SECS,
                    )
                },
    {
        self.authorization_at(unix_time_secs())
    }
}

impl TokenError {
    /// What is said of the error.
    pub open spec fn message_text(self) -> Seq<char> {
        match self {
            TokenError::InvalidKey => "invalid SAS key: Invalid Length"@,
            TokenError::ClockBeforeEpoch(_) => "system clock before unix epoch"@,
            TokenError::ExpiryOutOfRange => "token expiry out of range"@,
        }
    }

    /// What to tell the user.
    pub fn message(&self) -> (r: String)
        ensures
            r@ == self.message_text(),
            r@ == match *self {
                TokenError::InvalidKey => "invalid SAS key: Invalid Length"@,
                TokenError::ClockBeforeEpoch(_) => "system clock before unix epoch"@,
                TokenError::ExpiryOutOfRange => "token expiry out of range"@,
            },
    {
        match self {
            TokenError::InvalidKey => "invalid SAS key: Invalid Length".to_owned(),
            TokenError::ClockBeforeEpoch(_) => "system clock before unix epoch".to_owned(),
            TokenError::ExpiryOutOfRange => "token expiry out of range".to_owned(),
        }
    }
}

/// The characters of a percent-encoded text.
pub open spec fn is_url_safe(c: char) -> bool {
    c == '%' || (c as u32 <= 0x7f && is_unreserved(c as u8))
}

/// Percent-encoding leaves nothing but letters, digits, `-`, `_`, `.`, `~` and `%`.
proof fn lemma_percent_encoded_is_url_safe(bytes: Seq<u8>)
    ensures
        forall|i: int|
            0 <= i < percent_encoded(bytes).len() ==> is_url_safe(
                #[trigger] percent_encoded(bytes)[i],
            ),
    decreases bytes.len(),
{
    if bytes.len() > 0 {
        let byte = bytes.first();
        lemma_percent_encoded_is_url_safe(bytes.drop_first());
        assert forall|i: int| 0 <= i < percent_encoded_byte(byte).len() implies is_url_safe(
            #[trigger] percent_encoded_byte(byte)[i],
        ) by {
            if is_unreserved(byte) {
                assert(byte as char as u8 == byte);
            }
        }
        let head = percent_encoded_byte(byte);
        let tail = percent_encoded(bytes.drop_first());
        assert forall|i: int| 0 <= i < percent_encoded(bytes).len() implies is_url_safe(
            #[trigger] percent_encoded(bytes)[i],
        ) by {
            if i < head.len() {
                assert(percent_encoded(bytes)[i] == head[i]);
            } else {
                assert(percent_encoded(bytes)[i] == tail[i - head.len()]);
            }
        }
    }
}

/// A percent-encoded text holds nothing that would end a field of a token: no `:`, `/`, `&`, `=`, no
/// whitespace, and nothing outside ASCII.
pub proof fn law_url_encoded_is_url_safe(text: Seq<char>)
    ensures
        forall|i: int|
            0 <= i < url_encoded(text).len() ==> is_url_safe(#[trigger] url_encoded(text)[i]),
        lacks(url_encoded(text), ':'),
        lacks(url_encoded(text), '/'),
        lacks(url_encoded(text), '&'),
        lacks(url_encoded(text), '='),
        lacks(url_encoded(text), '+'),
        lacks(url_encoded(text), ' '),
        lacks(url_encoded(text), '\n'),
{
    lemma_percent_encoded_is_url_safe(encode_utf8(text));
}

/// Bytes that are percent-encoded alike are the same.
proof fn lemma_percent_encoded_injective(a: Seq<u8>, b: Seq<u8>)
    requires
        percent_encoded(a) == percent_encoded(b),
    ensures
        a == b,
    decreases a.len(),
{
    if a.len() > 0 && b.len() > 0 {
        let encoded = percent_encoded(a);
        let head_a = percent_encoded_byte(a.first());
        let head_b = percent_encoded_byte(b.first());
        assert(encoded[0] == head_a[0] && encoded[0] == head_b[0]);
        if is_unreserved(a.first()) {
            assert(a.first() as char != '%');
        }
        if is_unreserved(b.first()) {
            assert(b.first() as char != '%');
        }
        assert(is_unreserved(a.first()) == is_unreserved(b.first()));
        if is_unreserved(a.first()) {
            assert(a.first() as char as u8 == a.first());
            assert(b.first() as char as u8 == b.first());
        } else {
            assert(encoded[1] == head_a[1] && encoded[1] == head_b[1]);
            assert(encoded[2] == head_a[2] && encoded[2] == head_b[2]);
        }
        assert(a.first() == b.first());
        assert(encoded.skip(head_a.len() as int) =~= percent_encoded(a.drop_first()));
        assert(encoded.skip(head_b.len() as int) =~= percent_encoded(b.drop_first()));
        lemma_percent_encoded_injective(a.drop_first(), b.drop_first());
        assert(a =~= seq![a.first()] + a.drop_first());
        assert(b =~= seq![b.first()] + b.drop_first());
    } else {
        assert(a.len() > 0 ==> percent_encoded(a).len() >= percent_encoded_byte(a.first()).len());
        assert(b.len() > 0 ==> percent_encoded(b).len() >= percent_encoded_byte(b.first()).len());
        assert(a =~= b);
    }
}

/// Texts that are percent-encoded alike are the same: the resource can be told from its encoding.
pub proof fn law_url_encoded_injective(a: Seq<char>, b: Seq<char>)
    requires
        url_encoded(a) == url_encoded(b),
    ensures
        a == b,
{
    lemma_percent_encoded_injective(encode_utf8(a), encode_utf8(b));
    encode_utf8_decode_utf8(a);
    encode_utf8_decode_utf8(b);
}

/// The text to sign tells the resource and the expiry: a signature covers both.
pub proof fn law_signed_text_covers_resource_and_expiry(
    resource_uri1: Seq<char>,
    expiry1: u64,
    resource_uri2: Seq<char>,
    expiry2: u64,
)
    requires
        signed_text(resource_uri1, expiry1) == signed_text(resource_uri2, expiry2),
    ensures
        resource_uri1 == resource_uri2,
        expiry1 == expiry2,
{
    reveal_strlit("\n");
    assert("\n"@ =~= seq!['\n']);
    law_url_encoded_is_url_safe(resource_uri1);
    law_url_encoded_is_url_safe(resource_uri2);
    lemma_cut_unique(
        url_encoded(resource_uri1),
        decimal(expiry1 as nat),
        url_encoded(resource_uri2),
        decimal(expiry2 as nat),
        '\n',
    );
    law_url_encoded_injective(resource_uri1, resource_uri2);
    lemma_decimal_injective(expiry1 as nat, expiry2 as nat);
}

/// A token is the scheme, a space, and the fields `sr`, `sig`, `se` and `skn` between ampersands: the
/// percent-encoded resource, the percent-encoded signature in base64, the expiry and the policy name.
pub proof fn law_token_fields(
    resource_uri: Seq<char>,
    key_name: Seq<char>,
    expiry: u64,
    mac: Seq<u8>,
)
    requires
        lacks(key_name, '&'),
    ensures
        ({
            let token = token_with_mac(resource_uri, key_name, expiry, mac);
            let scheme = "SharedAccessSignature "@;
            &&& scheme.is_prefix_of(token)
            &&& split(token.skip(scheme.len() as int), '&') == seq![
                "sr="@ + url_encoded(resource_uri),
                "sig="@ + url_encoded(base64_encoded(mac)),
                "se="@ + decimal(expiry as nat),
                "skn="@ + key_name,
            ]
        }),
{
    reveal_strlit("SharedAccessSignature ");
    reveal_strlit("SharedAccessSignature sr=");
    reveal_strlit("&sig=");
    reveal_strlit("&se=");
    reveal_strlit("&skn=");
    reveal_strlit("sr=");
    reveal_strlit("sig=");
    reveal_strlit("se=");
    reveal_strlit("skn=");
    let token = token_with_mac(resource_uri, key_name, expiry, mac);
    let scheme = "SharedAccessSignature "@;
    let ampersand = seq!['&'];
    let sr = "sr="@ + url_encoded(resource_uri);
    let sig = "sig="@ + url_encoded(base64_encoded(mac));
    let se = "se="@ + decimal(expiry as nat);
    let skn = "skn="@ + key_name;
    assert("SharedAccessSignature sr="@ =~= scheme + "sr="@);
    assert("&sig="@ =~= ampersand + "sig="@);
    assert("&se="@ =~= ampersand + "se="@);
    assert("&skn="@ =~= ampersand + "skn="@);
    let from_se = se + ampersand + skn;
    let from_sig = sig + ampersand + from_se;
    let from_sr = sr + ampersand + from_sig;
    assert(token =~= scheme + from_sr);
    assert(scheme =~= token.subrange(0, scheme.len() as int));
    assert(token.skip(scheme.len() as int) =~= from_sr);
    law_url_encoded_is_url_safe(resource_uri);
    law_url_encoded_is_url_safe(base64_encoded(mac));
    lemma_decimal_digits(expiry as nat);
    lemma_split_concat(sr, '&', from_sig);
    lemma_split_concat(sig, '&', from_se);
    lemma_split_concat(se, '&', skn);
    lemma_split_whole(sr, '&');
    lemma_split_whole(sig, '&');
    lemma_split_whole(se, '&');
    lemma_split_whole(skn, '&');
    assert(split(from_sr, '&') =~= seq![sr, sig, se, skn]);
}


/// Bytes are percent-encoded one by one.
proof fn lemma_percent_encoded_push(bytes: Seq<u8>, byte: u8)
    ensures
        percent_encoded(bytes.push(byte)) == percent_encoded(bytes) + percent_encoded_byte(byte),
    decreases bytes.len(),
{
    reveal_with_fuel(percent_encoded, 2);
    if bytes.len() == 0 {
        assert(bytes.push(byte).drop_first() =~= bytes);
        assert(percent_encoded(bytes.push(byte)) =~= percent_encoded_byte(byte));
        assert(percent_encoded(bytes) + percent_encoded_byte(byte) =~= percent_encoded_byte(byte));
    } else {
        assert(bytes.push(byte).drop_first() =~= bytes.drop_first().push(byte));
        lemma_percent_encoded_push(bytes.drop_first(), byte);
        assert(percent_encoded(bytes.push(byte)) =~= percent_encoded(bytes) + percent_encoded_byte(
            byte,
        ));
    }
}

/// A base64 text is made of ASCII characters; the equals signs are those behind the last bits.
proof fn lemma_base64_chars(bytes: Seq<u8>)
    ensures
        is_ascii_chars(base64_encoded(bytes)),
        forall|j: int|
            0 <= j < base64_encoded(bytes).len() ==> (#[trigger] base64_encoded(bytes)[j] == '='
                <==> 6 * j >= 8 * bytes.len()),
{
    assert forall|j: int| 0 <= j < base64_encoded(bytes).len() implies {
        let c = #[trigger] base64_encoded(bytes)[j];
        '\0' <= c <= '\u{7f}' && (c == '=' <==> 6 * j >= 8 * bytes.len())
    } by {
        assert(base64_sextet(bytes, j) < 64);
    }
}

/// Six bits have a character of their own.
proof fn lemma_base64_digit_injective(d1: nat, d2: nat)
    requires
        d1 < 64,
        d2 < 64,
        base64_digit(d1) == base64_digit(d2),
    ensures
        d1 == d2,
{
}

/// Texts of base64 that agree come from bytes of one length, and agree in every group of six bits.
proof fn lemma_base64_sextets_agree(a: Seq<u8>, b: Seq<u8>)
    requires
        base64_encoded(a) == base64_encoded(b),
    ensures
        a.len() == b.len(),
        forall|j: int|
            0 <= j < base64_encoded(a).len() ==> #[trigger] base64_sextet(a, j) == base64_sextet(
                b,
                j,
            ),
{
    let text = base64_encoded(a);
    lemma_base64_chars(a);
    lemma_base64_chars(b);
    assert(text.len() == (a.len() + 2) / 3 * 4 && text.len() == (b.len() + 2) / 3 * 4);
    if text.len() > 0 {
        let n = text.len() as int;
        assert(text[n - 1] == base64_encoded(b)[n - 1]);
        assert(text[n - 2] == base64_encoded(b)[n - 2]);
        assert(base64_encoded(a)[n - 1] == '=' <==> 6 * (n - 1) >= 8 * a.len());
        assert(base64_encoded(a)[n - 2] == '=' <==> 6 * (n - 2) >= 8 * a.len());
        assert(base64_encoded(b)[n - 1] == '=' <==> 6 * (n - 1) >= 8 * b.len());
        assert(base64_encoded(b)[n - 2] == '=' <==> 6 * (n - 2) >= 8 * b.len());
        let m = n / 4;
        assert(n == 4 * m);
        assert(3 * m - 2 <= a.len() <= 3 * m);
        assert(3 * m - 2 <= b.len() <= 3 * m);
    }
    assert(a.len() == b.len());
    assert forall|j: int| 0 <= j < text.len() implies #[trigger] base64_sextet(a, j)
        == base64_sextet(b, j) by {
        assert(text[j] == base64_encoded(b)[j]);
        if 6 * j < 8 * a.len() {
            assert(base64_encoded(a)[j] == base64_digit(base64_sextet(a, j)));
            assert(base64_encoded(b)[j] == base64_digit(base64_sextet(b, j)));
            lemma_base64_digit_injective(base64_sextet(a, j), base64_sextet(b, j));
        } else {
            lemma_base64_padding_is_zero(a, j);
            lemma_base64_padding_is_zero(b, j);
        }
    }
}

/// The bits behind the last byte are zero.
proof fn lemma_base64_padding_is_zero(bytes: Seq<u8>, j: int)
    requires
        0 <= j < base64_encoded(bytes).len(),
        6 * j >= 8 * bytes.len(),
    ensures
        base64_sextet(bytes, j) == 0,
{
    let i = j / 4 * 3;
    assert(i < bytes.len() <= i + 2);
    let first = bytes[i] as int;
    if bytes.len() == i + 2 {
        assert(j % 4 == 3);
        let second = bytes[i + 1] as int;
        assert((first * 65536 + second * 256) % 64 == 0);
    } else if j % 4 == 2 {
        assert((first * 65536) / 64 % 64 == 0);
    } else {
        assert(j % 4 == 3);
        assert((first * 65536) % 64 == 0);
    }
}

/// A number of 24 bits is the sum of its groups of six bits.
proof fn lemma_four_groups(v: int)
    requires
        0 <= v < 16777216,
    ensures
        v == v / 262144 % 64 * 262144 + v / 4096 % 64 * 4096 + v / 64 % 64 * 64 + v % 64,
{
    let v1 = v / 64;
    let v2 = v1 / 64;
    let v3 = v2 / 64;
    assert(v2 == v / 4096);
    assert(v3 == v / 262144);
    assert(v3 % 64 == v3);
    assert(v2 == 64 * v3 + v2 % 64);
    assert(v1 == 64 * v2 + v1 % 64);
    assert(v == 64 * v1 + v % 64);
}

/// The three bytes that four characters of base64 stand for, as a number; bytes behind the last are
/// zero.
spec fn three_bytes(bytes: Seq<u8>, i: int) -> int {
    let at = |i: int| if i < bytes.len() { bytes[i] as int } else { 0 };
    at(i) * 65536 + at(i + 1) * 256 + at(i + 2)
}

/// Four groups of six bits are those of three bytes.
proof fn lemma_sextets_of_three_bytes(bytes: Seq<u8>, q: int)
    requires
        0 <= q,
    ensures
        0 <= three_bytes(bytes, 3 * q) < 16777216,
        base64_sextet(bytes, 4 * q) == three_bytes(bytes, 3 * q) / 262144 % 64,
        base64_sextet(bytes, 4 * q + 1) == three_bytes(bytes, 3 * q) / 4096 % 64,
        base64_sextet(bytes, 4 * q + 2) == three_bytes(bytes, 3 * q) / 64 % 64,
        base64_sextet(bytes, 4 * q + 3) == three_bytes(bytes, 3 * q) % 64,
{
    assert(4 * q / 4 * 3 == 3 * q);
    assert((4 * q + 1) / 4 * 3 == 3 * q);
    assert((4 * q + 2) / 4 * 3 == 3 * q);
    assert((4 * q + 3) / 4 * 3 == 3 * q);
}

/// Bytes that agree in four groups of six bits agree in the three bytes that these make up.
proof fn lemma_three_bytes_agree(a: Seq<u8>, b: Seq<u8>, q: int)
    requires
        0 <= q,
        base64_sextet(a, 4 * q) == base64_sextet(b, 4 * q),
        base64_sextet(a, 4 * q + 1) == base64_sextet(b, 4 * q + 1),
        base64_sextet(a, 4 * q + 2) == base64_sextet(b, 4 * q + 2),
        base64_sextet(a, 4 * q + 3) == base64_sextet(b, 4 * q + 3),
    ensures
        three_bytes(a, 3 * q) == three_bytes(b, 3 * q),
{
    lemma_sextets_of_three_bytes(a, q);
    lemma_sextets_of_three_bytes(b, q);
    lemma_four_groups(three_bytes(a, 3 * q));
    lemma_four_groups(three_bytes(b, 3 * q));
}

/// Three bytes, as a number, tell each of them.
proof fn lemma_three_bytes_tell(a: Seq<u8>, b: Seq<u8>, i: int)
    requires
        0 <= i,
        a.len() == b.len(),
        three_bytes(a, i) == three_bytes(b, i),
    ensures
        i < a.len() ==> a[i] == b[i],
        i + 1 < a.len() ==> a[i + 1] == b[i + 1],
        i + 2 < a.len() ==> a[i + 2] == b[i + 2],
{
}

/// A text of base64 tells its bytes: it decodes to them and to no others.
pub proof fn law_base64_tells_bytes(a: Seq<u8>, b: Seq<u8>)
    requires
        base64_encoded(a) == base64_encoded(b),
    ensures
        a == b,
{
    lemma_base64_sextets_agree(a, b);
    let len = base64_encoded(a).len();
    assert(len == (a.len() + 2) / 3 * 4);
    assert forall|k: int| 0 <= k < a.len() implies a[k] == b[k] by {
        let q = k / 3;
        assert(4 * q + 3 < len);
        lemma_three_bytes_agree(a, b, q);
        lemma_three_bytes_tell(a, b, 3 * q);
        assert(k == 3 * q || k == 3 * q + 1 || k == 3 * q + 2);
    }
    assert(a =~= b);
}

/// The signature of a token: a code of 32 bytes is 44 characters of base64, the last of them the only
/// equals sign, and so the field ends with `%3D`.
pub proof fn law_signature_shape(mac: Seq<u8>)
    requires
        mac.len() == 32,
    ensures
        base64_encoded(mac).len() == 44,
        base64_encoded(mac).last() == '=',
        lacks(base64_encoded(mac).drop_last(), '='),
        "%3D"@.is_suffix_of(url_encoded(base64_encoded(mac))),
{
    let signature = base64_encoded(mac);
    lemma_base64_chars(mac);
    is_ascii_chars_encode_utf8(signature);
    let bytes = encode_utf8(signature);
    assert(bytes.last() == signature[43] as u8);
    lemma_percent_encoded_push(bytes.drop_last(), bytes.last());
    assert(bytes.drop_last().push(bytes.last()) =~= bytes);
    reveal_strlit("%3D");
    let encoded = url_encoded(signature);
    assert(percent_encoded_byte(bytes.last()) =~= "%3D"@);
    assert("%3D"@ =~= encoded.subrange(encoded.len() - 3, encoded.len() as int));
}

/// What an upper-case hexadecimal digit stands for.
pub open spec fn hex_value(c: char) -> int {
    if '0' <= c && c <= '9' {
        c as u32 - '0' as u32
    } else {
        c as u32 - 'A' as u32 + 10
    }
}

/// The bytes that a percent-encoded text stands for.
pub open spec fn percent_decoded(text: Seq<char>) -> Seq<u8>
    decreases text.len(),
{
    if text.len() == 0 {
        seq![]
    } else if text.len() >= 3 && text[0] == '%' {
        seq![(16 * hex_value(text[1]) + hex_value(text[2])) as u8] + percent_decoded(text.skip(3))
    } else {
        seq![text[0] as u8] + percent_decoded(text.skip(1))
    }
}

/// Decoding undoes percent-encoding.
proof fn lemma_percent_decoding(bytes: Seq<u8>)
    ensures
        percent_decoded(percent_encoded(bytes)) == bytes,
    decreases bytes.len(),
{
    if bytes.len() > 0 {
        let byte = bytes.first();
        let rest = bytes.drop_first();
        let text = percent_encoded(bytes);
        lemma_percent_decoding(rest);
        assert(bytes =~= seq![byte] + rest);
        if is_unreserved(byte) {
            assert(text[0] == byte as char && byte as char != '%' && byte as char as u8 == byte);
            assert(text.skip(1) =~= percent_encoded(rest));
        } else {
            assert(text[0] == '%');
            assert(text[1] == hex_digit((byte / 16) as nat));
            assert(text[2] == hex_digit((byte % 16) as nat));
            assert(hex_value(text[1]) == byte / 16 && hex_value(text[2]) == byte % 16);
            assert(text.skip(3) =~= percent_encoded(rest));
        }
    }
}

/// A percent-encoded text stands for the bytes of the text in UTF-8.
pub proof fn law_url_encoded_reads_back(text: Seq<char>)
    ensures
        percent_decoded(url_encoded(text)) == encode_utf8(text),
{
    lemma_percent_decoding(encode_utf8(text));
}

/// The encoding of bytes in a row.
proof fn lemma_percent_encoded_concat(a: Seq<u8>, b: Seq<u8>)
    ensures
        percent_encoded(a + b) == percent_encoded(a) + percent_encoded(b),
    decreases a.len(),
{
    if a.len() == 0 {
        assert(a + b =~= b);
        assert(percent_encoded(a) + percent_encoded(b) =~= percent_encoded(b));
    } else {
        lemma_percent_encoded_concat(a.drop_first(), b);
        assert((a + b).drop_first() =~= a.drop_first() + b);
        assert((a + b).first() == a.first());
        assert(percent_encoded(a + b) =~= percent_encoded(a) + percent_encoded(b));
    }
}

/// Bytes are percent-encoded one after the other: an ASCII letter, a digit, `-`, `.`, `_` and `~` stand
/// for themselves, and any other byte is a percent sign and its two digits in hexadecimal.
pub proof fn law_percent_encoding(a: Seq<u8>, byte: u8, b: Seq<u8>)
    ensures
        percent_encoded(Seq::empty()) == Seq::<char>::empty(),
        percent_encoded(a + b) == percent_encoded(a) + percent_encoded(b),
        percent_encoded(seq![byte])
            == if "ABCDEFGHIJKLMNOPQRSTUVWXYZabcdefghijklmnopqrstuvwxyz0123456789-._~"@.contains(
            byte as char,
        ) {
            seq![byte as char]
        } else {
            seq![
                '%',
                "0123456789ABCDEF"@[(byte / 16) as int],
                "0123456789ABCDEF"@[(byte % 16) as int],
            ]
        },
{
    let plain = "ABCDEFGHIJKLMNOPQRSTUVWXYZabcdefghijklmnopqrstuvwxyz0123456789-._~"@;
    reveal_strlit("ABCDEFGHIJKLMNOPQRSTUVWXYZabcdefghijklmnopqrstuvwxyz0123456789-._~");
    reveal_strlit("0123456789ABCDEF");
    lemma_percent_encoded_concat(a, b);
    reveal_with_fuel(percent_encoded, 2);
    assert(seq![byte].drop_first() =~= Seq::<u8>::empty());
    assert(percent_encoded(seq![byte]) =~= percent_encoded_byte(byte));
    assert forall|d: int| 0 <= d < 16 implies hex_digit(d as nat) == #[trigger]
        "0123456789ABCDEF"@[d] by {
    }
    if is_unreserved(byte) {
        let i: int = if 'A' as u8 <= byte <= 'Z' as u8 {
            byte - 'A' as u8
        } else if 'a' as u8 <= byte <= 'z' as u8 {
            26 + (byte - 'a' as u8)
        } else if '0' as u8 <= byte <= '9' as u8 {
            52 + (byte - '0' as u8)
        } else if byte == '-' as u8 {
            62
        } else if byte == '.' as u8 {
            63
        } else if byte == '_' as u8 {
            64
        } else {
            65
        };
        assert(plain[i] == byte as char);
    } else {
        assert forall|i: int| 0 <= i < plain.len() implies #[trigger] plain[i] != byte as char by {
            assert(plain[i] as u32 <= 0x7f && is_unreserved(plain[i] as u8));
        }
    }
}

/// The character of each six bits.
proof fn lemma_base64_alphabet(d: int)
    requires
        0 <= d < 64,
    ensures
        base64_digit(d as nat)
            == "ABCDEFGHIJKLMNOPQRSTUVWXYZabcdefghijklmnopqrstuvwxyz0123456789+/"@[d],
{
    reveal_strlit("ABCDEFGHIJKLMNOPQRSTUVWXYZabcdefghijklmnopqrstuvwxyz0123456789+/");
}

/// Bytes in base64 take four characters for each three of them begun. The characters stand for six
/// bits each, as their places in the alphabet tell, and four of them together for three bytes; bytes
/// that are missing at the end count as zero, and an equals sign stands for each.
pub proof fn law_base64_groups(bytes: Seq<u8>, q: int) -> (digits: (int, int, int, int))
    requires
        0 <= q,
        3 * q < bytes.len(),
    ensures
        ({
            let text = base64_encoded(bytes);
            let alphabet = "ABCDEFGHIJKLMNOPQRSTUVWXYZabcdefghijklmnopqrstuvwxyz0123456789+/"@;
            let left = bytes.len() - 3 * q;
            &&& text.len() % 4 == 0
            &&& 4 * bytes.len() <= 3 * text.len() < 4 * bytes.len() + 12
            &&& 0 <= digits.0 < 64 && 0 <= digits.1 < 64 && 0 <= digits.2 < 64 && 0 <= digits.3 < 64
            &&& text[4 * q] == alphabet[digits.0]
            &&& text[4 * q + 1] == alphabet[digits.1]
            &&& text[4 * q + 2] == if left > 1 {
                alphabet[digits.2]
            } else {
                '='
            }
            &&& text[4 * q + 3] == if left > 2 {
                alphabet[digits.3]
            } else {
                '='
            }
            &&& digits.0 * 262144 + digits.1 * 4096 + digits.2 * 64 + digits.3 == bytes[3 * q] * 65536
                + (if left > 1 {
                bytes[3 * q + 1] as int
            } else {
                0
            }) * 256 + (if left > 2 {
                bytes[3 * q + 2] as int
            } else {
                0
            })
        }),
{
    lemma_sextets_of_three_bytes(bytes, q);
    lemma_four_groups(three_bytes(bytes, 3 * q));
    let d0 = base64_sextet(bytes, 4 * q) as int;
    let d1 = base64_sextet(bytes, 4 * q + 1) as int;
    let d2 = base64_sextet(bytes, 4 * q + 2) as int;
    let d3 = base64_sextet(bytes, 4 * q + 3) as int;
    lemma_base64_alphabet(d0);
    lemma_base64_alphabet(d1);
    lemma_base64_alphabet(d2);
    lemma_base64_alphabet(d3);
    assert(4 * q + 3 < base64_encoded(bytes).len());
    (d0, d1, d2, d3)
}

/// The text to sign is two lines: the first stands for the resource, percent-encoded, and the second
/// is the expiry in decimal.
pub proof fn law_signed_text_reads_back(resource_uri: Seq<char>, expiry: u64)
    ensures
        ({
            let lines = split(signed_text(resource_uri, expiry), '\n');
            &&& lines.len() == 2
            &&& lines[0] == url_encoded(resource_uri)
            &&& percent_decoded(lines[0]) == encode_utf8(resource_uri)
            &&& is_numeral(lines[1], expiry as nat)
        }),
{
    reveal_strlit("\n");
    assert("\n"@ =~= seq!['\n']);
    let line = url_encoded(resource_uri);
    let number = decimal(expiry as nat);
    law_url_encoded_is_url_safe(resource_uri);
    law_url_encoded_reads_back(resource_uri);
    law_decimal_is_the_numeral(expiry as nat);
    lemma_split_concat(line, '\n', number);
    lemma_split_whole(line, '\n');
    lemma_split_whole(number, '\n');
    assert(split(signed_text(resource_uri, expiry), '\n') =~= seq![line, number]);
}

/// What stands in a text before its first `c`.
pub open spec fn up_to(text: Seq<char>, c: char) -> Seq<char> {
    text.take(first_index(text, c) as int)
}

/// What stands in a text behind its first `c`.
pub open spec fn behind(text: Seq<char>, c: char) -> Seq<char> {
    text.skip(first_index(text, c) as int + 1)
}

/// A token, read field by field, is the scheme, the resource, the code of the text to sign, the expiry
/// and the policy name. The code is that of the percent-encoded resource, a line feed and the expiry,
/// under a key that is the bytes of the key given, all of them and no others.
pub proof fn law_token_is_signed_with_the_key(
    resource_uri: Seq<char>,
    key_name: Seq<char>,
    key: Seq<char>,
    expiry: u64,
)
    ensures
        ({
            let token = signed_token(resource_uri, key_name, key, expiry);
            let code = hmac_sha256(
                encode_utf8(key),
                encode_utf8(url_encoded(resource_uri) + "\n"@ + decimal(expiry as nat)),
            );
            let fields = behind(token, ' ');
            let from_sig = behind(fields, '&');
            let from_se = behind(from_sig, '&');
            &&& up_to(token, ' ') == "SharedAccessSignature"@
            &&& up_to(fields, '&') == "sr="@ + url_encoded(resource_uri)
            &&& up_to(fields, '&').take(3) == "sr="@
            &&& percent_decoded(up_to(fields, '&').skip(3)) == encode_utf8(resource_uri)
            &&& up_to(from_sig, '&') == "sig="@ + url_encoded(base64_encoded(code))
            &&& up_to(from_sig, '&').take(4) == "sig="@
            &&& percent_decoded(up_to(from_sig, '&').skip(4)) == encode_utf8(base64_encoded(code))
            &&& up_to(from_se, '&').take(3) == "se="@
            &&& is_numeral(up_to(from_se, '&').skip(3), expiry as nat)
            &&& behind(from_se, '&') == "skn="@ + key_name
        }),
{
    reveal_strlit("SharedAccessSignature sr=");
    reveal_strlit("SharedAccessSignature");
    reveal_strlit("&sig=");
    reveal_strlit("&se=");
    reveal_strlit("&skn=");
    reveal_strlit("sr=");
    reveal_strlit("sig=");
    reveal_strlit("se=");
    reveal_strlit("skn=");
    let token = signed_token(resource_uri, key_name, key, expiry);
    let scheme = "SharedAccessSignature"@;
    let code = mac_for(resource_uri, key, expiry);
    let space = seq![' '];
    let ampersand = seq!['&'];
    let resource = url_encoded(resource_uri);
    let signature = url_encoded(base64_encoded(code));
    let number = decimal(expiry as nat);
    let sr = "sr="@ + resource;
    let sig = "sig="@ + signature;
    let se = "se="@ + number;
    let skn = "skn="@ + key_name;
    assert("SharedAccessSignature sr="@ =~= scheme + space + "sr="@);
    assert("&sig="@ =~= ampersand + "sig="@);
    assert("&se="@ =~= ampersand + "se="@);
    assert("&skn="@ =~= ampersand + "skn="@);
    let from_se = se + ampersand + skn;
    let from_sig = sig + ampersand + from_se;
    let fields = sr + ampersand + from_sig;
    assert(token =~= scheme + space + fields);
    law_url_encoded_is_url_safe(resource_uri);
    law_url_encoded_is_url_safe(base64_encoded(code));
    law_url_encoded_reads_back(resource_uri);
    law_url_encoded_reads_back(base64_encoded(code));
    law_decimal_is_the_numeral(expiry as nat);
    lemma_cut(scheme, ' ', fields);
    lemma_cut(sr, '&', from_sig);
    lemma_cut(sig, '&', from_se);
    lemma_cut(se, '&', skn);
    assert(sr.take(3) =~= "sr="@ && sr.skip(3) =~= resource);
    assert(sig.take(4) =~= "sig="@ && sig.skip(4) =~= signature);
    assert(se.take(3) =~= "se="@ && se.skip(3) =~= number);
}

/// A token that is made at some time expires when its time to live has passed, and it differs in
/// nothing from the token that is made for that expiry. None is made where the clock fails, or where
/// the expiry does not fit into 64 bits.
pub proof fn law_token_lives_as_long_as_asked(
    resource_uri: Seq<char>,
    key_name: Seq<char>,
    key: Seq<char>,
    now: Result<u64, std::time::SystemTimeError>,
    ttl_secs: u64,
    expiry: u64,
)
    ensures
        token_at(resource_uri, key_name, key, now, ttl_secs) matches Ok(token) ==> {
            &&& now is Ok
            &&& is_numeral(
                up_to(behind(behind(behind(token, ' '), '&'), '&'), '&').skip(3),
                (now->Ok_0 + ttl_secs) as nat,
            )
        },
        now matches Ok(start) && start + ttl_secs == expiry ==> token_at(
            resource_uri,
            key_name,
            key,
            now,
            ttl_secs,
        ) == Ok::<_, TokenError>(signed_token(resource_uri, key_name, key, expiry)),
        now matches Ok(start) && start + ttl_secs > u64::MAX ==> token_at(
            resource_uri,
            key_name,
            key,
            now,
            ttl_secs,
        ) == Err::<Seq<char>, _>(TokenError::ExpiryOutOfRange),
        now matches Err(cause) ==> token_at(resource_uri, key_name, key, now, ttl_secs) == Err::<
            Seq<char>,
            _,
        >(TokenError::ClockBeforeEpoch(cause)),
{
    if let Ok(start) = now {
        if start + ttl_secs <= u64::MAX {
            law_token_is_signed_with_the_key(resource_uri, key_name, key, (start + ttl_secs) as u64);
        }
    }
}

/// The code that a token carries has 32 bytes where it is whole.
pub proof fn law_whole_code_has_32_bytes(
    resource_uri: Seq<char>,
    key: Seq<char>,
    now: u64,
    ttl_secs: u64,
)
    requires
        now + ttl_secs <= u64::MAX,
    ensures
        code_is_whole(resource_uri, key, Ok(now), ttl_secs) <==> hmac_sha256(
            encode_utf8(key),
            encode_utf8(url_encoded(resource_uri) + "\n"@ + decimal((now + ttl_secs) as nat)),
        ).len() == 32,
{
}

/// The producer's token is valid for an hour.
pub proof fn law_token_lives_an_hour()
    ensures
        TOKEN_TTL_SECS == 60 * 60,
{
}

/// A token is seen as it is, and so is the error in its place.
pub proof fn law_token_is_seen_whole(r: Result<String, TokenError>)
    ensures
        r matches Ok(token) ==> token_outcome(r) == Ok::<_, TokenError>(token@),
        r matches Err(error) ==> token_outcome(r) == Err::<Seq<char>, _>(error),
{
}

}
