//! Event Hubs and Service Bus connection strings.
//!
//! Shape: `Endpoint=sb://NS.servicebus.windows.net/;SharedAccessKeyName=K;SharedAccessKey=V;EntityPath=hub`

use vstd::prelude::*;

use crate::config::{outcome, text_of, ConfigError, ConfigErrorView, ConfigView, EventHubConfig};
use crate::text::{
    ascii_lowered, chars_of, drop_trailing, find_char, first_index, is_bare, is_blank, is_white_space,
    lacks, lowers_to, repeated, skip_prefixes, split, strip_prefixes, strip_trailing, trim_end,
    trim_range, trim_start, trimmed,
};
use crate::text_laws::{
    law_stripping_prefixes, law_stripping_trailing, law_trimming, lemma_parts_of_trimming,
};
use crate::text_lemmas::{
    lemma_cut, lemma_first_index, lemma_first_index_bound, lemma_split_concat, lemma_split_whole,
    lemma_strip_prefixes, lemma_strip_trailing, lemma_trim_end_concat, lemma_trim_start_concat,
    lemma_trim_start_suffix, lemma_trimmed_lowered, lemma_trimmed_trim_end, lemma_trimmed_trim_start,
};

verus! {

/// What the text between two semicolons says.
#[verifier::ext_equal]
pub enum Segment {
    /// Nothing but whitespace.
    Blank,
    /// Text without an equals sign, here without the whitespace around it.
    Malformed(Seq<char>),
    /// A key in lower case, and its value, both without the whitespace around them.
    Pair(Seq<char>, Seq<char>),
}

/// Reads one segment. The first equals sign ends the key; the value may hold more of them.
pub open spec fn segment(raw: Seq<char>) -> Segment {
    let part = trimmed(raw);
    let equals = first_index(part, '=') as int;
    if part.len() == 0 {
        Segment::Blank
    } else if equals == part.len() {
        Segment::Malformed(part)
    } else {
        Segment::Pair(
            ascii_lowered(trimmed(part.take(equals))),
            trimmed(part.skip(equals + 1)),
        )
    }
}

/// The segments of a connection string, in order.
pub open spec fn segments(connection_string: Seq<char>) -> Seq<Segment> {
    split(connection_string, ';').map_values(|raw: Seq<char>| segment(raw))
}

/// The text of the first segment that is malformed.
pub open spec fn first_malformed(segments: Seq<Segment>) -> Option<Seq<char>>
    decreases segments.len(),
{
    if segments.len() == 0 {
        None
    } else {
        match segments.first() {
            Segment::Malformed(part) => Some(part),
            _ => first_malformed(segments.drop_first()),
        }
    }
}

/// The value that `key` has in the last segment that gives it one.
pub open spec fn last_value(segments: Seq<Segment>, key: Seq<char>) -> Option<Seq<char>>
    decreases segments.len(),
{
    if segments.len() == 0 {
        None
    } else {
        match segments.last() {
            Segment::Pair(k, value) if k == key => Some(value),
            _ => last_value(segments.drop_last(), key),
        }
    }
}

/// The host that an endpoint such as `sb://NS.servicebus.windows.net/` names.
pub open spec fn endpoint_host(endpoint: Seq<char>) -> Seq<char> {
    strip_trailing(
        strip_prefixes(strip_prefixes(trimmed(endpoint), "sb://"@), "https://"@),
        '/',
    )
}

/// The configuration that segments describe, or what is wrong with them. A malformed segment counts
/// before a missing one. Without an entity path the hub name is empty.
pub open spec fn config_of_segments(segments: Seq<Segment>) -> Result<ConfigView, ConfigErrorView> {
    match (
        first_malformed(segments),
        last_value(segments, "endpoint"@),
        last_value(segments, "sharedaccesskeyname"@),
        last_value(segments, "sharedaccesskey"@),
    ) {
        (Some(part), _, _, _) => Err(ConfigErrorView::MalformedSegment(part)),
        (None, None, _, _) => Err(ConfigErrorView::NoEndpoint),
        (None, Some(_), None, _) => Err(ConfigErrorView::NoSharedAccessKeyName),
        (None, Some(_), Some(_), None) => Err(ConfigErrorView::NoSharedAccessKey),
        (None, Some(endpoint), Some(key_name), Some(key)) => Ok(
            ConfigView {
                fqdn: endpoint_host(endpoint),
                event_hub: match last_value(segments, "entitypath"@) {
                    Some(entity) => entity,
                    None => Seq::empty(),
                },
                sas_key_name: key_name,
                sas_key: key,
            },
        ),
    }
}

/// The configuration that a connection string describes, or what is wrong with it.
pub open spec fn parsed(connection_string: Seq<char>) -> Result<ConfigView, ConfigErrorView> {
    config_of_segments(segments(connection_string))
}

/// Cutting a text at its first semicolon cuts its segments behind the first.
pub proof fn lemma_segments_step(s: Seq<char>)
    ensures
        ({
            let i = first_index(s, ';') as int;
            segments(s) == if i < s.len() {
                seq![segment(s.take(i))] + segments(s.skip(i + 1))
            } else {
                seq![segment(s)]
            }
        }),
{
    let i = first_index(s, ';') as int;
    if i < s.len() {
        assert(segments(s) =~= seq![segment(s.take(i))] + segments(s.skip(i + 1)));
    } else {
        assert(segments(s) =~= seq![segment(s)]);
    }
}

/// Of two runs of segments, the first decides which malformed segment comes first.
pub proof fn lemma_first_malformed_concat(a: Seq<Segment>, b: Seq<Segment>)
    ensures
        first_malformed(a + b) == match first_malformed(a) {
            Some(part) => Some(part),
            None => first_malformed(b),
        },
    decreases a.len(),
{
    if a.len() == 0 {
        assert(a + b =~= b);
    } else {
        assert((a + b).drop_first() =~= a.drop_first() + b);
        lemma_first_malformed_concat(a.drop_first(), b);
    }
}

/// Of two runs of segments, the second decides which value of a key comes last.
pub proof fn lemma_last_value_concat(a: Seq<Segment>, b: Seq<Segment>, key: Seq<char>)
    ensures
        last_value(a + b, key) == match last_value(b, key) {
            Some(value) => Some(value),
            None => last_value(a, key),
        },
    decreases b.len(),
{
    if b.len() == 0 {
        assert(a + b =~= a);
    } else {
        assert((a + b).drop_last() =~= a + b.drop_last());
        lemma_last_value_concat(a, b.drop_last(), key);
    }
}

/// Where the parts of a segment stand in the connection string.
enum Located {
    Blank,
    Malformed(usize, usize),
    Pair(usize, usize, usize, usize),
}

impl Located {
    spec fn within(self, len: nat) -> bool {
        match self {
            Located::Blank => true,
            Located::Malformed(from, to) => from <= to <= len,
            Located::Pair(key_from, key_to, from, to) => key_from <= key_to <= len && from <= to
                <= len,
        }
    }

    spec fn segment(self, chars: Seq<char>) -> Segment {
        match self {
            Located::Blank => Segment::Blank,
            Located::Malformed(from, to) => Segment::Malformed(
                chars.subrange(from as int, to as int),
            ),
            Located::Pair(key_from, key_to, from, to) => Segment::Pair(
                ascii_lowered(chars.subrange(key_from as int, key_to as int)),
                chars.subrange(from as int, to as int),
            ),
        }
    }
}

/// Finds the parts of the segment `chars[from..to]`.
fn locate(chars: &Vec<char>, from: usize, to: usize) -> (r: Located)
    requires
        from <= to <= chars@.len(),
    ensures
        r.within(chars@.len()),
        r.segment(chars@) == segment(chars@.subrange(from as int, to as int)),
{
    let (a, b) = trim_range(chars, from, to);
    if a == b {
        return Located::Blank;
    }
    let ghost part = chars@.subrange(a as int, b as int);
    let equals: usize = find_char(chars, a, b, '=');
    if equals == b {
        return Located::Malformed(a, b);
    }
    assert(part.take(equals - a) == chars@.subrange(a as int, equals as int));
    assert(part.skip(equals - a + 1) == chars@.subrange(equals + 1, b as int));
    let (key_from, key_to) = trim_range(chars, a, equals);
    let (value_from, value_to) = trim_range(chars, equals + 1, b);
    Located::Pair(key_from, key_to, value_from, value_to)
}

/// The host in the endpoint `endpoint`.
fn host_of(endpoint: &str) -> (r: String)
    ensures
        r@ == endpoint_host(endpoint@),
{
    let chars = chars_of(endpoint);
    let (a, b) = trim_range(&chars, 0, chars.len());
    assert(chars@.subrange(0, chars@.len() as int) == chars@);
    proof {
        reveal_strlit("sb://");
        reveal_strlit("https://");
    }
    let behind_sb: usize = skip_prefixes(&chars, a, b, &chars_of("sb://"));
    let behind_https: usize = skip_prefixes(&chars, behind_sb, b, &chars_of("https://"));
    let end: usize = drop_trailing(&chars, behind_https, b, '/');
    endpoint.substring_char(behind_https, end).to_owned()
}

/// Parse an Event Hubs/Service Bus connection string into [`EventHubConfig`].
///
/// Shape: `Endpoint=sb://NS.servicebus.windows.net/;SharedAccessKeyName=K;SharedAccessKey=V;EntityPath=hub`
/// EntityPath is optional: without it the hub name is empty.
pub fn parse_connection_string(cs: &str) -> (r: Result<EventHubConfig, ConfigError>)
    ensures
        outcome(r) == parsed(cs@),
{
    let chars = chars_of(cs);
    let len: usize = chars.len();
    let endpoint_word = chars_of("endpoint");
    let key_name_word = chars_of("sharedaccesskeyname");
    let key_word = chars_of("sharedaccesskey");
    let entity_word = chars_of("entitypath");
    proof {
        reveal_strlit("endpoint");
        reveal_strlit("sharedaccesskeyname");
        reveal_strlit("sharedaccesskey");
        reveal_strlit("entitypath");
    }

    let mut endpoint: Option<String> = None;
    let mut sas_key_name: Option<String> = None;
    let mut sas_key: Option<String> = None;
    let mut entity: Option<String> = None;
    let mut from: usize = 0;
    let mut more = true;
    let ghost mut read: Seq<Segment> = seq![];
    assert(cs@.skip(0) == cs@);
    assert(read + segments(cs@) =~= segments(cs@));
    while more
        invariant
            chars@ == cs@,
            len == chars@.len(),
            from <= len,
            endpoint_word@ == "endpoint"@,
            key_name_word@ == "sharedaccesskeyname"@,
            key_word@ == "sharedaccesskey"@,
            entity_word@ == "entitypath"@,
            "endpoint"@.len() == 8,
            "sharedaccesskeyname"@.len() == 19,
            "sharedaccesskey"@.len() == 15,
            "entitypath"@.len() == 10,
            segments(cs@) == if more {
                read + segments(cs@.skip(from as int))
            } else {
                read
            },
            first_malformed(read) is None,
            text_of(endpoint) == last_value(read, "endpoint"@),
            text_of(sas_key_name) == last_value(read, "sharedaccesskeyname"@),
            text_of(sas_key) == last_value(read, "sharedaccesskey"@),
            text_of(entity) == last_value(read, "entitypath"@),
        decreases len - from + (if more { 1int } else { 0 }),
    {
        let to: usize = find_char(&chars, from, len, ';');
        let located = locate(&chars, from, to);
        let ghost rest = cs@.skip(from as int);
        let ghost here = segment(chars@.subrange(from as int, to as int));
        proof {
            assert(chars@.subrange(from as int, len as int) == rest);
            lemma_segments_step(rest);
            if to < len {
                assert(rest.take(to - from) == chars@.subrange(from as int, to as int));
                assert(rest.skip(to - from + 1) == cs@.skip(to + 1));
                assert(segments(cs@) =~= read.push(here) + segments(cs@.skip(to + 1)));
            } else {
                assert(rest == chars@.subrange(from as int, to as int));
                assert(segments(cs@) =~= read.push(here));
            }
            assert(read.push(here).drop_last() == read);
            assert(read.push(here) =~= read + seq![here]);
            lemma_first_malformed_concat(read, seq![here]);
            reveal_with_fuel(first_malformed, 2);
            if to < len {
                lemma_first_malformed_concat(read.push(here), segments(cs@.skip(to + 1)));
            }
        }
        match located {
            Located::Blank => {},
            Located::Malformed(a, b) => {
                return Err(ConfigError::MalformedSegment(cs.substring_char(a, b).to_owned()));
            },
            Located::Pair(key_from, key_to, a, b) => {
                let value = cs.substring_char(a, b).to_owned();
                if lowers_to(&chars, key_from, key_to, &endpoint_word) {
                    endpoint = Some(value);
                } else if lowers_to(&chars, key_from, key_to, &key_name_word) {
                    sas_key_name = Some(value);
                } else if lowers_to(&chars, key_from, key_to, &key_word) {
                    sas_key = Some(value);
                } else if lowers_to(&chars, key_from, key_to, &entity_word) {
                    entity = Some(value);
                }
            },
        }
        proof {
            read = read.push(here);
        }
        if to < len {
            from = to + 1;
        } else {
            more = false;
        }
    }

    let endpoint = match endpoint {
        Some(endpoint) => endpoint,
        None => {
            return Err(ConfigError::NoEndpoint);
        },
    };
    let fqdn = host_of(endpoint.as_str());
    let sas_key_name = match sas_key_name {
        Some(sas_key_name) => sas_key_name,
        None => {
            return Err(ConfigError::NoSharedAccessKeyName);
        },
    };
    let sas_key = match sas_key {
        Some(sas_key) => sas_key,
        None => {
            return Err(ConfigError::NoSharedAccessKey);
        },
    };
    let event_hub = match entity {
        Some(entity) => entity,
        None => String::new(),
    };
    Ok(EventHubConfig { fqdn, event_hub, sas_key_name, sas_key })
}

/// Texts with a semicolon between them.
pub open spec fn joined(a: Seq<char>, b: Seq<char>) -> Seq<char> {
    a + seq![';'] + b
}

/// A segment that gives `key` the value `value`, as it is written.
pub open spec fn written_pair(key: Seq<char>, value: Seq<char>) -> Seq<char> {
    key + seq!['='] + value
}

/// Joining texts joins their segments.
pub proof fn lemma_segments_joined(a: Seq<char>, b: Seq<char>)
    ensures
        segments(joined(a, b)) == segments(a) + segments(b),
{
    lemma_split_concat(a, ';', b);
    assert(segments(joined(a, b)) =~= segments(a) + segments(b));
}

/// A text without a semicolon is one segment.
pub proof fn lemma_segments_single(raw: Seq<char>)
    requires
        lacks(raw, ';'),
    ensures
        segments(raw) == seq![segment(raw)],
{
    lemma_split_whole(raw, ';');
    assert(segments(raw) =~= seq![segment(raw)]);
}

/// The keys that a configuration is read from.
pub open spec fn is_known_key(key: Seq<char>) -> bool {
    ||| key == "endpoint"@
    ||| key == "sharedaccesskeyname"@
    ||| key == "sharedaccesskey"@
    ||| key == "entitypath"@
}

/// A pair is read as its key, in lower case, and its value, both without the whitespace around
/// them. The value may hold equals signs, such as base64 padding; they are kept.
pub proof fn law_pair_is_read(key: Seq<char>, value: Seq<char>)
    requires
        lacks(key, '='),
    ensures
        segment(written_pair(key, value)) == Segment::Pair(
            ascii_lowered(trimmed(key)),
            trimmed(value),
        ),
{
    let from_equals = seq!['='] + value;
    assert(written_pair(key, value) =~= key + from_equals);
    lemma_trim_start_concat(key, from_equals);
    let left = trim_start(key);
    lemma_trim_start_suffix(key);
    assert(left + from_equals =~= left.push('=') + value);
    lemma_trim_end_concat(left.push('='), value);
    let part = trimmed(written_pair(key, value));
    assert(part =~= left + seq!['='] + trim_end(value));
    assert(lacks(left, '=')) by {
        assert forall|i: int| 0 <= i < left.len() implies left[i] != '=' by {
            assert(left[i] == key[i + (key.len() - left.len())]);
        }
    }
    lemma_cut(left, '=', trim_end(value));
    lemma_trimmed_trim_start(key);
    lemma_trimmed_trim_end(value);
}

/// A pair without whitespace around its key and its value is read as it is, but for the case of the
/// key.
proof fn lemma_bare_pair(key: Seq<char>, value: Seq<char>)
    requires
        lacks(key, '='),
        is_bare(key),
        is_bare(value),
    ensures
        segment(written_pair(key, value)) == Segment::Pair(ascii_lowered(key), value),
{
    law_pair_is_read(key, value);
}

/// Between the same texts, segments that are read alike may stand for each other.
pub proof fn law_segment_stands_for_its_reading(
    before: Seq<char>,
    raw1: Seq<char>,
    raw2: Seq<char>,
    after: Seq<char>,
)
    requires
        lacks(raw1, ';'),
        lacks(raw2, ';'),
        segment(raw1) == segment(raw2),
    ensures
        parsed(joined(joined(before, raw1), after)) == parsed(joined(joined(before, raw2), after)),
{
    lemma_segments_single(raw1);
    lemma_segments_single(raw2);
    lemma_segments_joined(before, raw1);
    lemma_segments_joined(before, raw2);
    lemma_segments_joined(joined(before, raw1), after);
    lemma_segments_joined(joined(before, raw2), after);
}

/// A pair holds what its key and its value hold, and an equals sign.
proof fn lemma_written_pair_lacks(key: Seq<char>, value: Seq<char>, c: char)
    requires
        lacks(key, c),
        lacks(value, c),
        c != '=',
    ensures
        lacks(written_pair(key, value), c),
{
    let raw = written_pair(key, value);
    assert forall|i: int| 0 <= i < raw.len() implies raw[i] != c by {
        if i < key.len() {
            assert(raw[i] == key[i]);
        } else if i > key.len() {
            assert(raw[i] == value[i - key.len() - 1]);
        }
    }
}

/// Keys are read without regard to the case of their letters.
pub proof fn law_key_case_is_ignored(
    before: Seq<char>,
    key1: Seq<char>,
    key2: Seq<char>,
    value: Seq<char>,
    after: Seq<char>,
)
    requires
        lacks(key1, '=') && lacks(key1, ';'),
        lacks(key2, '=') && lacks(key2, ';'),
        lacks(value, ';'),
        ascii_lowered(key1) == ascii_lowered(key2),
    ensures
        segment(written_pair(key1, value)) == segment(written_pair(key2, value)),
        parsed(joined(joined(before, written_pair(key1, value)), after)) == parsed(
            joined(joined(before, written_pair(key2, value)), after),
        ),
{
    law_pair_is_read(key1, value);
    law_pair_is_read(key2, value);
    lemma_trimmed_lowered(key1);
    lemma_trimmed_lowered(key2);
    lemma_written_pair_lacks(key1, value, ';');
    lemma_written_pair_lacks(key2, value, ';');
    law_segment_stands_for_its_reading(
        before,
        written_pair(key1, value),
        written_pair(key2, value),
        after,
    );
}

/// A segment that is not malformed counts for nothing where no known key has its value in it.
proof fn lemma_idle_segment(before: Seq<Segment>, idle: Segment, after: Seq<Segment>)
    requires
        !(idle is Malformed),
        idle matches Segment::Pair(key, _) ==> !is_known_key(key) || last_value(after, key) is Some,
    ensures
        config_of_segments(before + seq![idle] + after) == config_of_segments(before + after),
{
    reveal_with_fuel(first_malformed, 2);
    lemma_first_malformed_concat(before + seq![idle], after);
    lemma_first_malformed_concat(before, seq![idle]);
    lemma_first_malformed_concat(before, after);
    assert forall|key: Seq<char>| is_known_key(key) implies last_value(
        before + seq![idle] + after,
        key,
    ) == #[trigger] last_value(before + after, key) by {
        reveal_with_fuel(last_value, 2);
        lemma_last_value_concat(before + seq![idle], after, key);
        lemma_last_value_concat(before, seq![idle], key);
        lemma_last_value_concat(before, after, key);
    }
}

/// Segments that hold only whitespace, and those with unknown keys, are ignored, between others and
/// at either end.
pub proof fn law_blank_and_unknown_segments_are_ignored(
    before: Seq<char>,
    raw: Seq<char>,
    after: Seq<char>,
)
    requires
        lacks(raw, ';'),
        segment(raw) is Blank || (segment(raw) matches Segment::Pair(key, _) && !is_known_key(key)),
    ensures
        parsed(joined(joined(before, raw), after)) == parsed(joined(before, after)),
        parsed(joined(before, raw)) == parsed(before),
        parsed(joined(raw, after)) == parsed(after),
{
    let none = Seq::<Segment>::empty();
    lemma_segments_single(raw);
    lemma_segments_joined(before, raw);
    lemma_segments_joined(joined(before, raw), after);
    lemma_segments_joined(before, after);
    lemma_segments_joined(raw, after);
    lemma_idle_segment(segments(before), segment(raw), segments(after));
    lemma_idle_segment(segments(before), segment(raw), none);
    lemma_idle_segment(none, segment(raw), segments(after));
    assert(segments(before) + seq![segment(raw)] + none =~= segments(before) + seq![segment(raw)]);
    assert(segments(before) + none =~= segments(before));
    assert(none + seq![segment(raw)] + segments(after) =~= seq![segment(raw)] + segments(after));
    assert(none + segments(after) =~= segments(after));
}

/// A key that has a value in a later segment is read from there: the earlier segment is ignored.
pub proof fn law_later_value_wins(before: Seq<char>, raw: Seq<char>, after: Seq<char>)
    requires
        lacks(raw, ';'),
        segment(raw) matches Segment::Pair(key, _) && last_value(segments(after), key) is Some,
    ensures
        parsed(joined(joined(before, raw), after)) == parsed(joined(before, after)),
{
    lemma_segments_single(raw);
    lemma_segments_joined(before, raw);
    lemma_segments_joined(joined(before, raw), after);
    lemma_segments_joined(before, after);
    lemma_idle_segment(segments(before), segment(raw), segments(after));
}

/// The order of neighbouring segments does not matter where neither is malformed and they do not give
/// values to the same key.
pub proof fn law_segment_order_is_ignored(
    before: Seq<char>,
    raw1: Seq<char>,
    raw2: Seq<char>,
    after: Seq<char>,
)
    requires
        lacks(raw1, ';') && !(segment(raw1) is Malformed),
        lacks(raw2, ';') && !(segment(raw2) is Malformed),
        segment(raw1) is Pair && segment(raw2) is Pair ==> segment(raw1)->Pair_0 != segment(
            raw2,
        )->Pair_0,
    ensures
        parsed(joined(joined(joined(before, raw1), raw2), after)) == parsed(
            joined(joined(joined(before, raw2), raw1), after),
        ),
{
    let one = seq![segment(raw1)];
    let two = seq![segment(raw2)];
    let front = segments(before);
    let back = segments(after);
    lemma_segments_single(raw1);
    lemma_segments_single(raw2);
    lemma_segments_joined(before, raw1);
    lemma_segments_joined(joined(before, raw1), raw2);
    lemma_segments_joined(joined(joined(before, raw1), raw2), after);
    lemma_segments_joined(before, raw2);
    lemma_segments_joined(joined(before, raw2), raw1);
    lemma_segments_joined(joined(joined(before, raw2), raw1), after);
    assert(first_malformed(one) is None && first_malformed(two) is None) by {
        reveal_with_fuel(first_malformed, 2);
    }
    lemma_first_malformed_concat(front + one + two, back);
    lemma_first_malformed_concat(front + one, two);
    lemma_first_malformed_concat(front, one);
    lemma_first_malformed_concat(front + two + one, back);
    lemma_first_malformed_concat(front + two, one);
    lemma_first_malformed_concat(front, two);
    assert forall|key: Seq<char>| #[trigger] last_value(front + one + two + back, key)
        == last_value(front + two + one + back, key) by {
        reveal_with_fuel(last_value, 2);
        lemma_last_value_concat(front + one + two, back, key);
        lemma_last_value_concat(front + one, two, key);
        lemma_last_value_concat(front, one, key);
        lemma_last_value_concat(front + two + one, back, key);
        lemma_last_value_concat(front + two, one, key);
        lemma_last_value_concat(front, two, key);
    }
}

/// The host of an endpoint has neither the scheme `https://` before it nor a slash behind it.
pub proof fn law_host_is_bare(endpoint: Seq<char>)
    ensures
        !"https://"@.is_prefix_of(endpoint_host(endpoint)),
        endpoint_host(endpoint).len() > 0 ==> endpoint_host(endpoint).last() != '/',
{
    reveal_strlit("https://");
    let without_sb = strip_prefixes(trimmed(endpoint), "sb://"@);
    let without_https = strip_prefixes(without_sb, "https://"@);
    lemma_strip_prefixes(without_sb, "https://"@);
    lemma_strip_trailing(without_https, '/');
    let host = endpoint_host(endpoint);
    if "https://"@.is_prefix_of(host) {
        assert("https://"@ =~= without_https.subrange(0, "https://"@.len() as int));
    }
}

/// The connection string of a configuration, as a shared access policy shows it. Without a hub name
/// it has no entity path.
pub open spec fn connection_string_of(config: ConfigView) -> Seq<char> {
    let policy = "Endpoint=sb://"@ + config.fqdn + "/;SharedAccessKeyName="@ + config.sas_key_name
        + ";SharedAccessKey="@ + config.sas_key;
    if config.event_hub.len() == 0 {
        policy
    } else {
        policy + ";EntityPath="@ + config.event_hub
    }
}

/// A host that can be read back from an endpoint.
pub open spec fn is_plain_host(host: Seq<char>) -> bool {
    &&& lacks(host, ';')
    &&& !"sb://"@.is_prefix_of(host)
    &&& !"https://"@.is_prefix_of(host)
    &&& host.len() > 0 ==> host.last() != '/'
}

/// A prefix that ends with two slashes does not come about by a slash behind a text that has none at
/// its end.
proof fn lemma_prefix_ends_before_slash(s: Seq<char>, prefix: Seq<char>)
    requires
        prefix.len() >= 2,
        prefix[prefix.len() - 2] == '/',
        !prefix.is_prefix_of(s),
        s.len() > 0 ==> s.last() != '/',
    ensures
        !prefix.is_prefix_of(s + "/"@),
{
    reveal_strlit("/");
    let longer = s + "/"@;
    let n = prefix.len() as int;
    if prefix.is_prefix_of(longer) {
        if n <= s.len() {
            assert(prefix =~= s.subrange(0, n));
        } else {
            assert(prefix[n - 2] == longer.subrange(0, n)[n - 2]);
        }
    }
}

/// The endpoint of a plain host names that host.
proof fn lemma_host_of_plain_endpoint(host: Seq<char>)
    requires
        is_plain_host(host),
    ensures
        endpoint_host("sb://"@ + host + "/"@) == host,
{
    reveal_strlit("sb://");
    reveal_strlit("https://");
    reveal_strlit("/");
    let endpoint = "sb://"@ + host + "/"@;
    assert(!is_white_space(endpoint.first()) && !is_white_space(endpoint.last()));
    let rest = host + "/"@;
    assert("sb://"@ =~= endpoint.subrange(0, 5));
    assert(endpoint.skip(5) =~= rest);
    lemma_prefix_ends_before_slash(host, "sb://"@);
    lemma_prefix_ends_before_slash(host, "https://"@);
    reveal_with_fuel(strip_prefixes, 2);
    assert(rest.drop_last() =~= host);
    reveal_with_fuel(strip_trailing, 2);
}

/// What three or four segments with the known keys say.
proof fn lemma_three_or_four(
    endpoint: Segment,
    key_name: Segment,
    key: Segment,
    entity: Segment,
)
    requires
        endpoint matches Segment::Pair(k, _) && k == "endpoint"@,
        key_name matches Segment::Pair(k, _) && k == "sharedaccesskeyname"@,
        key matches Segment::Pair(k, _) && k == "sharedaccesskey"@,
        entity matches Segment::Pair(k, _) && k == "entitypath"@,
    ensures
        config_of_segments(seq![endpoint, key_name, key]) == Ok::<ConfigView, ConfigErrorView>(
            ConfigView {
                fqdn: endpoint_host(endpoint->Pair_1),
                event_hub: Seq::empty(),
                sas_key_name: key_name->Pair_1,
                sas_key: key->Pair_1,
            },
        ),
        config_of_segments(seq![endpoint, key_name, key, entity]) == Ok::<
            ConfigView,
            ConfigErrorView,
        >(
            ConfigView {
                fqdn: endpoint_host(endpoint->Pair_1),
                event_hub: entity->Pair_1,
                sas_key_name: key_name->Pair_1,
                sas_key: key->Pair_1,
            },
        ),
{
    reveal_strlit("endpoint");
    reveal_strlit("sharedaccesskeyname");
    reveal_strlit("sharedaccesskey");
    reveal_strlit("entitypath");
    assert("endpoint"@.len() == 8 && "sharedaccesskeyname"@.len() == 19 && "sharedaccesskey"@.len()
        == 15 && "entitypath"@.len() == 10);
    let one = seq![endpoint];
    let two = seq![endpoint, key_name];
    let three = seq![endpoint, key_name, key];
    let four = seq![endpoint, key_name, key, entity];
    assert(four =~= three.push(entity));
    assert(three =~= two.push(key));
    assert(two =~= one.push(key_name));
    assert(one =~= Seq::<Segment>::empty().push(endpoint));
    assert forall|front: Seq<Segment>, k: Seq<char>, value: Seq<char>, asked: Seq<char>|
        #[trigger] last_value(front.push(Segment::Pair(k, value)), asked) == if k == asked {
            Some(value)
        } else {
            last_value(front, asked)
        } by {
        assert(front.push(Segment::Pair(k, value)).drop_last() =~= front);
    }
    assert forall|front: Seq<Segment>, k: Seq<char>, value: Seq<char>| first_malformed(
        front,
    ) is None implies #[trigger] first_malformed(front.push(Segment::Pair(k, value))) is None by {
        let pair = Segment::Pair(k, value);
        assert(front.push(pair) =~= front + seq![pair]);
        lemma_first_malformed_concat(front, seq![pair]);
        reveal_with_fuel(first_malformed, 2);
    }
}

/// A key as it is written in a connection string, and as it is known.
proof fn lemma_written_key(written: Seq<char>, key: Seq<char>)
    requires
        ({
            ||| written == "Endpoint"@ && key == "endpoint"@
            ||| written == "SharedAccessKeyName"@ && key == "sharedaccesskeyname"@
            ||| written == "SharedAccessKey"@ && key == "sharedaccesskey"@
            ||| written == "EntityPath"@ && key == "entitypath"@
        }),
    ensures
        ascii_lowered(written) == key,
        lacks(written, '='),
        lacks(written, ';'),
        is_bare(written),
{
    reveal_strlit("Endpoint");
    reveal_strlit("SharedAccessKeyName");
    reveal_strlit("SharedAccessKey");
    reveal_strlit("EntityPath");
    reveal_strlit("endpoint");
    reveal_strlit("sharedaccesskeyname");
    reveal_strlit("sharedaccesskey");
    reveal_strlit("entitypath");
    assert(ascii_lowered(written) =~= key);
}

/// A pair of a known key, written out, is one segment.
proof fn lemma_written_segment(written: Seq<char>, key: Seq<char>, value: Seq<char>)
    requires
        ({
            ||| written == "Endpoint"@ && key == "endpoint"@
            ||| written == "SharedAccessKeyName"@ && key == "sharedaccesskeyname"@
            ||| written == "SharedAccessKey"@ && key == "sharedaccesskey"@
            ||| written == "EntityPath"@ && key == "entitypath"@
        }),
        lacks(value, ';'),
        is_bare(value),
    ensures
        segments(written_pair(written, value)) == seq![Segment::Pair(key, value)],
{
    lemma_written_key(written, key);
    lemma_bare_pair(written, value);
    let raw = written_pair(written, value);
    lemma_written_pair_lacks(written, value, ';');
    lemma_segments_single(raw);
}

/// A connection string joins its pairs.
proof fn lemma_connection_string_joins_pairs(config: ConfigView)
    ensures
        ({
            let policy = joined(
                joined(
                    written_pair("Endpoint"@, "sb://"@ + config.fqdn + "/"@),
                    written_pair("SharedAccessKeyName"@, config.sas_key_name),
                ),
                written_pair("SharedAccessKey"@, config.sas_key),
            );
            connection_string_of(config) == if config.event_hub.len() == 0 {
                policy
            } else {
                joined(policy, written_pair("EntityPath"@, config.event_hub))
            }
        }),
{
    reveal_strlit("Endpoint=sb://");
    reveal_strlit("/;SharedAccessKeyName=");
    reveal_strlit(";SharedAccessKey=");
    reveal_strlit(";EntityPath=");
    reveal_strlit("Endpoint");
    reveal_strlit("SharedAccessKeyName");
    reveal_strlit("SharedAccessKey");
    reveal_strlit("EntityPath");
    reveal_strlit("sb://");
    reveal_strlit("/");
    assert("Endpoint=sb://"@ =~= "Endpoint"@ + seq!['='] + "sb://"@);
    assert("/;SharedAccessKeyName="@ =~= "/"@ + seq![';'] + "SharedAccessKeyName"@ + seq!['=']);
    assert(";SharedAccessKey="@ =~= seq![';'] + "SharedAccessKey"@ + seq!['=']);
    assert(";EntityPath="@ =~= seq![';'] + "EntityPath"@ + seq!['=']);
    let policy = joined(
        joined(
            written_pair("Endpoint"@, "sb://"@ + config.fqdn + "/"@),
            written_pair("SharedAccessKeyName"@, config.sas_key_name),
        ),
        written_pair("SharedAccessKey"@, config.sas_key),
    );
    let written = "Endpoint=sb://"@ + config.fqdn + "/;SharedAccessKeyName="@ + config.sas_key_name
        + ";SharedAccessKey="@ + config.sas_key;
    assert(policy =~= written);
    assert(joined(policy, written_pair("EntityPath"@, config.event_hub)) =~= written
        + ";EntityPath="@ + config.event_hub);
}

/// A configuration is read back from its connection string as it was: every value survives, equals
/// signs in it included.
pub proof fn law_connection_string_reads_back(config: ConfigView)
    requires
        is_plain_host(config.fqdn),
        lacks(config.event_hub, ';') && is_bare(config.event_hub),
        lacks(config.sas_key_name, ';') && is_bare(config.sas_key_name),
        lacks(config.sas_key, ';') && is_bare(config.sas_key),
    ensures
        parsed(connection_string_of(config)) == Ok::<ConfigView, ConfigErrorView>(config),
{
    let endpoint = "sb://"@ + config.fqdn + "/"@;
    let raw1 = written_pair("Endpoint"@, endpoint);
    let raw2 = written_pair("SharedAccessKeyName"@, config.sas_key_name);
    let raw3 = written_pair("SharedAccessKey"@, config.sas_key);
    let raw4 = written_pair("EntityPath"@, config.event_hub);
    let seg1 = Segment::Pair("endpoint"@, endpoint);
    let seg2 = Segment::Pair("sharedaccesskeyname"@, config.sas_key_name);
    let seg3 = Segment::Pair("sharedaccesskey"@, config.sas_key);
    let seg4 = Segment::Pair("entitypath"@, config.event_hub);
    assert(lacks(endpoint, ';') && is_bare(endpoint)) by {
        reveal_strlit("sb://");
        reveal_strlit("/");
    }
    lemma_written_segment("Endpoint"@, "endpoint"@, endpoint);
    lemma_written_segment("SharedAccessKeyName"@, "sharedaccesskeyname"@, config.sas_key_name);
    lemma_written_segment("SharedAccessKey"@, "sharedaccesskey"@, config.sas_key);
    lemma_written_segment("EntityPath"@, "entitypath"@, config.event_hub);
    let policy = joined(joined(raw1, raw2), raw3);
    lemma_segments_joined(raw1, raw2);
    lemma_segments_joined(joined(raw1, raw2), raw3);
    lemma_segments_joined(policy, raw4);
    assert(segments(policy) =~= seq![seg1, seg2, seg3]);
    assert(segments(joined(policy, raw4)) =~= seq![seg1, seg2, seg3, seg4]);
    lemma_three_or_four(seg1, seg2, seg3, seg4);
    lemma_host_of_plain_endpoint(config.fqdn);
    lemma_connection_string_joins_pairs(config);
    if config.event_hub.len() == 0 {
        assert(config.event_hub =~= Seq::<char>::empty());
    }
}

/// An endpoint names the host that stands in it behind any number of `sb://`, then any number of
/// `https://`, and before any number of slashes; whitespace around all that is ignored. Nothing is
/// taken from the host itself.
pub proof fn law_host_of_endpoint(
    front: Seq<char>,
    sb: nat,
    https: nat,
    host: Seq<char>,
    slashes: nat,
    back: Seq<char>,
)
    requires
        is_blank(front),
        is_blank(back),
        is_bare(
            repeated("sb://"@, sb) + repeated("https://"@, https) + host + repeated(
                seq!['/'],
                slashes,
            ),
        ),
        host.len() > 0 ==> host.last() != '/',
        !"https://"@.is_prefix_of(host + repeated(seq!['/'], slashes)),
        https == 0 ==> !"sb://"@.is_prefix_of(host + repeated(seq!['/'], slashes)),
    ensures
        endpoint_host(
            front + (repeated("sb://"@, sb) + repeated("https://"@, https) + host + repeated(
                seq!['/'],
                slashes,
            )) + back,
        ) == host,
{
    reveal_strlit("sb://");
    reveal_strlit("https://");
    let tail = host + repeated(seq!['/'], slashes);
    let behind_sb = repeated("https://"@, https) + tail;
    let whole = repeated("sb://"@, sb) + repeated("https://"@, https) + host + repeated(
        seq!['/'],
        slashes,
    );
    assert(whole =~= repeated("sb://"@, sb) + behind_sb);
    law_trimming(front, whole, back);
    if https == 0 {
        assert(behind_sb =~= tail);
    } else {
        assert(repeated("https://"@, https)[0] == "https://"@[0]);
        assert(behind_sb[0] == 'h');
        if "sb://"@.is_prefix_of(behind_sb) {
            assert("sb://"@[0] == behind_sb.subrange(0, 5)[0]);
        }
    }
    law_stripping_prefixes("sb://"@, sb, behind_sb);
    law_stripping_prefixes("https://"@, https, tail);
    law_stripping_trailing(host, '/', slashes);
}

/// A piece between semicolons that holds something, but no equals sign.
pub open spec fn is_malformed(piece: Seq<char>) -> bool {
    lacks(piece, '=') && !is_blank(piece)
}

/// A piece between semicolons gives `key` the value `value`: it is the key, in letters of any case,
/// its first equals sign and the value, with whitespace around either.
pub open spec fn gives(piece: Seq<char>, key: Seq<char>, value: Seq<char>) -> bool {
    exists|name: Seq<char>, text: Seq<char>|
        {
            &&& piece == #[trigger] written_pair(name, text)
            &&& lacks(name, '=')
            &&& ascii_lowered(trimmed(name)) == key
            &&& trimmed(text) == value
        }
}

/// `value` is what `key` is given by the last of the pieces that give it one.
pub open spec fn is_given(pieces: Seq<Seq<char>>, key: Seq<char>, value: Seq<char>) -> bool {
    exists|i: int|
        {
            &&& 0 <= i < pieces.len()
            &&& #[trigger] gives(pieces[i], key, value)
            &&& forall|j: int, other: Seq<char>|
                i < j < pieces.len() ==> !#[trigger] gives(pieces[j], key, other)
        }
}

/// None of the pieces gives `key` a value.
pub open spec fn is_never_given(pieces: Seq<Seq<char>>, key: Seq<char>) -> bool {
    forall|i: int, value: Seq<char>|
        0 <= i < pieces.len() ==> !#[trigger] gives(pieces[i], key, value)
}

/// How a piece is read.
proof fn lemma_piece_is_read(piece: Seq<char>)
    ensures
        is_malformed(piece) ==> segment(piece) == Segment::Malformed(trimmed(piece)),
        !is_malformed(piece) ==> !(segment(piece) is Malformed),
        forall|key: Seq<char>, value: Seq<char>| #[trigger]
            gives(piece, key, value) <==> segment(piece) == Segment::Pair(key, value),
{
    let i = first_index(piece, '=') as int;
    lemma_first_index_bound(piece, '=');
    lemma_first_index(piece, '=', i);
    if i < piece.len() {
        assert(piece[i] == '=');
        let name = piece.take(i);
        let text = piece.skip(i + 1);
        assert(lacks(name, '='));
        assert(piece =~= written_pair(name, text));
        law_pair_is_read(name, text);
        assert forall|key: Seq<char>, value: Seq<char>| #[trigger]
            gives(piece, key, value) <==> segment(piece) == Segment::Pair(key, value) by {
            if gives(piece, key, value) {
                lemma_giving_is_read(piece, key, value);
            }
        }
    } else {
        assert(lacks(piece, '='));
        let (front, back) = lemma_parts_of_trimming(piece);
        let part = trimmed(piece);
        assert forall|k: int| 0 <= k < part.len() implies part[k] != '=' by {
            assert(part[k] == piece[k + front.len()]);
        }
        lemma_first_index(part, '=', part.len() as int);
        if is_blank(piece) {
            law_trimming(piece, Seq::empty(), Seq::empty());
            assert(piece + Seq::<char>::empty() + Seq::empty() =~= piece);
        } else if part.len() == 0 {
            assert forall|k: int| 0 <= k < piece.len() implies is_white_space(
                #[trigger] piece[k],
            ) by {
                if k < front.len() {
                    assert(piece[k] == front[k]);
                } else {
                    assert(piece[k] == back[k - front.len()]);
                }
            }
        }
        assert forall|key: Seq<char>, value: Seq<char>| !#[trigger] gives(piece, key, value) by {
            if gives(piece, key, value) {
                let (name, text) = choose|name: Seq<char>, text: Seq<char>|
                    {
                        &&& piece == #[trigger] written_pair(name, text)
                        &&& lacks(name, '=')
                        &&& ascii_lowered(trimmed(name)) == key
                        &&& trimmed(text) == value
                    };
                assert(piece[name.len() as int] == '=');
            }
        }
    }
}

/// A piece that gives a key a value is read as that pair.
proof fn lemma_giving_is_read(piece: Seq<char>, key: Seq<char>, value: Seq<char>)
    requires
        gives(piece, key, value),
    ensures
        segment(piece) == Segment::Pair(key, value),
{
    let (name, text) = choose|name: Seq<char>, text: Seq<char>|
        {
            &&& piece == #[trigger] written_pair(name, text)
            &&& lacks(name, '=')
            &&& ascii_lowered(trimmed(name)) == key
            &&& trimmed(text) == value
        };
    law_pair_is_read(name, text);
}

/// The pieces, read.
spec fn read_pieces(pieces: Seq<Seq<char>>) -> Seq<Segment> {
    pieces.map_values(|raw: Seq<char>| segment(raw))
}

/// The last value of a key among the segments is the one that it is given.
proof fn lemma_last_value_is_given(pieces: Seq<Seq<char>>, key: Seq<char>)
    ensures
        match last_value(read_pieces(pieces), key) {
            Some(value) => is_given(pieces, key, value),
            None => is_never_given(pieces, key),
        },
    decreases pieces.len(),
{
    if pieces.len() > 0 {
        let front = pieces.drop_last();
        let n = pieces.len() - 1;
        lemma_last_value_is_given(front, key);
        lemma_piece_is_read(pieces.last());
        assert(read_pieces(pieces).drop_last() =~= read_pieces(front));
        assert(read_pieces(pieces).last() == segment(pieces.last()));
        assert(pieces[n] == pieces.last());
        assert(forall|i: int| 0 <= i < n ==> pieces[i] == front[i]);
        match segment(pieces.last()) {
            Segment::Pair(k, value) if k == key => {
                assert(gives(pieces[n], key, value));
            },
            _ => {
                assert forall|other: Seq<char>| !#[trigger] gives(pieces[n], key, other) by {
                }
                if let Some(value) = last_value(read_pieces(front), key) {
                    let i = choose|i: int|
                        {
                            &&& 0 <= i < front.len()
                            &&& #[trigger] gives(front[i], key, value)
                            &&& forall|j: int, other: Seq<char>|
                                i < j < front.len() ==> !#[trigger] gives(front[j], key, other)
                        };
                    assert(gives(pieces[i], key, value));
                    assert forall|j: int, other: Seq<char>| i < j < pieces.len() implies
                        !#[trigger] gives(pieces[j], key, other) by {
                        if j < n {
                            assert(pieces[j] == front[j]);
                        }
                    }
                } else {
                    assert forall|i: int, other: Seq<char>| 0 <= i < pieces.len() implies
                        !#[trigger] gives(pieces[i], key, other) by {
                        if i < n {
                            assert(pieces[i] == front[i]);
                        }
                    }
                }
            },
        }
    }
}

/// The first malformed segment is read from the first malformed piece.
proof fn lemma_first_malformed_piece(pieces: Seq<Seq<char>>)
    ensures
        match first_malformed(read_pieces(pieces)) {
            Some(part) => exists|i: int|
                {
                    &&& 0 <= i < pieces.len()
                    &&& is_malformed(#[trigger] pieces[i])
                    &&& part == trimmed(pieces[i])
                    &&& forall|j: int| 0 <= j < i ==> !is_malformed(#[trigger] pieces[j])
                },
            None => forall|i: int| 0 <= i < pieces.len() ==> !is_malformed(#[trigger] pieces[i]),
        },
    decreases pieces.len(),
{
    if pieces.len() > 0 {
        let rest = pieces.drop_first();
        lemma_first_malformed_piece(rest);
        lemma_piece_is_read(pieces[0]);
        assert(read_pieces(pieces).drop_first() =~= read_pieces(rest));
        assert(read_pieces(pieces).first() == segment(pieces[0]));
        assert(forall|i: int| 0 < i < pieces.len() ==> #[trigger] pieces[i] == rest[i - 1]);
        if is_malformed(pieces[0]) {
            assert(trimmed(pieces[0]) == trimmed(pieces[0]));
        } else if let Some(part) = first_malformed(read_pieces(rest)) {
            let i = choose|i: int|
                {
                    &&& 0 <= i < rest.len()
                    &&& is_malformed(#[trigger] rest[i])
                    &&& part == trimmed(rest[i])
                    &&& forall|j: int| 0 <= j < i ==> !is_malformed(#[trigger] rest[j])
                };
            assert(pieces[i + 1] == rest[i]);
            assert forall|j: int| 0 <= j < i + 1 implies !is_malformed(#[trigger] pieces[j]) by {
                if j > 0 {
                    assert(pieces[j] == rest[j - 1]);
                }
            }
        }
    }
}

/// Of the malformed pieces of a connection string the first is reported, without the whitespace
/// around it; where there is none, no piece is.
pub proof fn law_first_malformed_piece_is_reported(connection_string: Seq<char>)
    ensures
        ({
            let pieces = split(connection_string, ';');
            match parsed(connection_string) {
                Err(ConfigErrorView::MalformedSegment(part)) => exists|i: int|
                    {
                        &&& 0 <= i < pieces.len()
                        &&& is_malformed(#[trigger] pieces[i])
                        &&& part == trimmed(pieces[i])
                        &&& forall|j: int| 0 <= j < i ==> !is_malformed(#[trigger] pieces[j])
                    },
                _ => forall|i: int| 0 <= i < pieces.len() ==> !is_malformed(#[trigger] pieces[i]),
            }
        }),
{
    lemma_first_malformed_piece(split(connection_string, ';'));
}

/// A connection string without a malformed piece is read from the values that its pieces give last:
/// the endpoint, which names the host, the policy name and the key must be there, and the first that
/// is not is reported; the entity path is the hub, which is empty where there is none.
pub proof fn law_connection_string_is_what_its_pieces_give(connection_string: Seq<char>)
    requires
        forall|i: int|
            0 <= i < split(connection_string, ';').len() ==> !is_malformed(
                #[trigger] split(connection_string, ';')[i],
            ),
    ensures
        ({
            let pieces = split(connection_string, ';');
            match parsed(connection_string) {
                Ok(config) => {
                    &&& exists|endpoint: Seq<char>| #[trigger]
                        is_given(pieces, "endpoint"@, endpoint) && config.fqdn == endpoint_host(
                            endpoint,
                        )
                    &&& is_given(pieces, "sharedaccesskeyname"@, config.sas_key_name)
                    &&& is_given(pieces, "sharedaccesskey"@, config.sas_key)
                    &&& is_given(pieces, "entitypath"@, config.event_hub) || (is_never_given(
                        pieces,
                        "entitypath"@,
                    ) && config.event_hub.len() == 0)
                },
                Err(error) => {
                    ||| error is NoEndpoint && is_never_given(pieces, "endpoint"@)
                    ||| error is NoSharedAccessKeyName && is_never_given(
                        pieces,
                        "sharedaccesskeyname"@,
                    ) && !is_never_given(pieces, "endpoint"@)
                    ||| error is NoSharedAccessKey && is_never_given(pieces, "sharedaccesskey"@)
                        && !is_never_given(pieces, "endpoint"@) && !is_never_given(
                        pieces,
                        "sharedaccesskeyname"@,
                    )
                },
            }
        }),
{
    let pieces = split(connection_string, ';');
    assert(segments(connection_string) == read_pieces(pieces));
    lemma_first_malformed_piece(pieces);
    lemma_last_value_is_given(pieces, "endpoint"@);
    lemma_last_value_is_given(pieces, "sharedaccesskeyname"@);
    lemma_last_value_is_given(pieces, "sharedaccesskey"@);
    lemma_last_value_is_given(pieces, "entitypath"@);
}

}
