//! Text as a sequence of characters: whitespace, splitting, stripping, and decimal numbers.

use vstd::prelude::*;

use crate::text_lemmas::lemma_first_index;

verus! {

/// The characters with the Unicode property `White_Space`.
pub open spec fn is_white_space(c: char) -> bool {
    let u = c as u32;
    ||| 0x9 <= u <= 0xd
    ||| u == 0x20
    ||| u == 0x85
    ||| u == 0xa0
    ||| u == 0x1680
    ||| 0x2000 <= u <= 0x200a
    ||| u == 0x2028
    ||| u == 0x2029
    ||| u == 0x202f
    ||| u == 0x205f
    ||| u == 0x3000
}

/// `s` without the whitespace it begins with.
pub open spec fn trim_start(s: Seq<char>) -> Seq<char>
    decreases s.len(),
{
    if s.len() > 0 && is_white_space(s.first()) {
        trim_start(s.drop_first())
    } else {
        s
    }
}

/// `s` without the whitespace it ends with.
pub open spec fn trim_end(s: Seq<char>) -> Seq<char>
    decreases s.len(),
{
    if s.len() > 0 && is_white_space(s.last()) {
        trim_end(s.drop_last())
    } else {
        s
    }
}

/// `s` without the whitespace at either end.
pub open spec fn trimmed(s: Seq<char>) -> Seq<char> {
    trim_end(trim_start(s))
}

/// The least index at which `s` holds `c`; the length of `s` where it holds none.
pub open spec fn first_index(s: Seq<char>, c: char) -> nat
    decreases s.len(),
{
    if s.len() == 0 || s.first() == c {
        0
    } else {
        1 + first_index(s.drop_first(), c)
    }
}

/// The pieces of `s` between the separators, in order; one more than there are separators.
pub open spec fn split(s: Seq<char>, separator: char) -> Seq<Seq<char>>
    decreases s.len(),
{
    let i = first_index(s, separator) as int;
    if i < s.len() {
        seq![s.take(i)] + split(s.skip(i + 1), separator)
    } else {
        seq![s]
    }
}

/// The letters `A` to `Z` become `a` to `z`; every other character stays.
pub open spec fn ascii_lower(c: char) -> char {
    if 'A' <= c && c <= 'Z' {
        (c as u32 + 32) as char
    } else {
        c
    }
}

/// Every character of `s` lowered by [`ascii_lower`].
pub open spec fn ascii_lowered(s: Seq<char>) -> Seq<char> {
    s.map_values(|c: char| ascii_lower(c))
}

/// `s` with `prefix` taken off its front as often as it stands there.
pub open spec fn strip_prefixes(s: Seq<char>, prefix: Seq<char>) -> Seq<char>
    decreases s.len(),
{
    if 0 < prefix.len() && prefix.is_prefix_of(s) {
        strip_prefixes(s.skip(prefix.len() as int), prefix)
    } else {
        s
    }
}

/// `s` without the `c`s it ends with.
pub open spec fn strip_trailing(s: Seq<char>, c: char) -> Seq<char>
    decreases s.len(),
{
    if s.len() > 0 && s.last() == c {
        strip_trailing(s.drop_last(), c)
    } else {
        s
    }
}

/// The character for a digit below ten.
pub open spec fn digit(d: nat) -> char {
    ('0' as u32 + d) as char
}

/// `n` in decimal, without leading zeros.
pub open spec fn decimal(n: nat) -> Seq<char>
    decreases n,
{
    if n < 10 {
        seq![digit(n)]
    } else {
        decimal(n / 10).push(digit(n % 10))
    }
}

/// `s` with spaces before it, so that it is at least `width` characters long.
pub open spec fn right_aligned(s: Seq<char>, width: nat) -> Seq<char> {
    if s.len() < width {
        Seq::new((width - s.len()) as nat, |i: int| ' ') + s
    } else {
        s
    }
}

/// A text that does not hold `c`.
pub open spec fn lacks(s: Seq<char>, c: char) -> bool {
    forall|i: int| 0 <= i < s.len() ==> s[i] != c
}

/// A text of nothing but whitespace.
pub open spec fn is_blank(s: Seq<char>) -> bool {
    forall|i: int| 0 <= i < s.len() ==> is_white_space(#[trigger] s[i])
}

/// The number that digits stand for.
pub open spec fn number_of(digits: Seq<char>) -> int
    decreases digits.len(),
{
    if digits.len() == 0 {
        0
    } else {
        10 * number_of(digits.drop_last()) + (digits.last() as u32 - '0' as u32)
    }
}

/// `s` is the numeral of `n`: digits that stand for it, with no zero in front of another digit.
pub open spec fn is_numeral(s: Seq<char>, n: nat) -> bool {
    &&& s.len() > 0
    &&& forall|i: int| 0 <= i < s.len() ==> '0' <= #[trigger] s[i] <= '9'
    &&& s.len() > 1 ==> s[0] != '0'
    &&& number_of(s) == n
}

/// `s`, written `times` times in a row.
pub open spec fn repeated(s: Seq<char>, times: nat) -> Seq<char>
    decreases times,
{
    if times == 0 {
        seq![]
    } else {
        s + repeated(s, (times - 1) as nat)
    }
}

/// Pieces with a separator between any two of them.
pub open spec fn join(pieces: Seq<Seq<char>>, separator: char) -> Seq<char>
    decreases pieces.len(),
{
    if pieces.len() == 0 {
        seq![]
    } else if pieces.len() == 1 {
        pieces[0]
    } else {
        pieces[0] + seq![separator] + join(pieces.drop_first(), separator)
    }
}

/// A text that neither begins nor ends with whitespace.
pub open spec fn is_bare(s: Seq<char>) -> bool {
    s.len() > 0 ==> !is_white_space(s.first()) && !is_white_space(s.last())
}

/// Whether `c` has the Unicode property `White_Space`.
pub fn is_whitespace(c: char) -> (r: bool)
    ensures
        r == is_white_space(c),
{
    let u: u32 = c as u32;
    (0x9 <= u && u <= 0xd) || u == 0x20 || u == 0x85 || u == 0xa0 || u == 0x1680 || (0x2000 <= u
        && u <= 0x200a) || u == 0x2028 || u == 0x2029 || u == 0x202f || u == 0x205f || u == 0x3000
}

/// `c`, as a lower-case letter where it is one of `A` to `Z`.
fn to_ascii_lower(c: char) -> (r: char)
    ensures
        r == ascii_lower(c),
{
    if 'A' <= c && c <= 'Z' {
        (c as u8 + 32) as char
    } else {
        c
    }
}

/// The characters of `s`, in order.
pub(crate) fn chars_of(s: &str) -> (r: Vec<char>)
    ensures
        r@ == s@,
{
    let mut chars: Vec<char> = Vec::new();
    for c in it: s.chars()
        invariant
            it.seq() == s@,
            chars@ == s@.take(it.index() as int),
    {
        chars.push(c);
    }
    assert(s@.take(s@.len() as int) == s@);
    chars
}

/// The index of the first `c` in `chars[from..to]`, counted in `chars`; `to` where there is none.
pub(crate) fn find_char(chars: &Vec<char>, from: usize, to: usize, c: char) -> (r: usize)
    requires
        from <= to <= chars@.len(),
    ensures
        from <= r <= to,
        r - from == first_index(chars@.subrange(from as int, to as int), c),
{
    let ghost s = chars@.subrange(from as int, to as int);
    let mut i: usize = from;
    while i < to && chars[i] != c
        invariant
            from <= i <= to <= chars@.len(),
            s == chars@.subrange(from as int, to as int),
            forall|j: int| 0 <= j < i - from ==> s[j] != c,
        decreases to - i,
    {
        assert(s[i - from] == chars@[i as int]);
        i = i + 1;
    }
    proof {
        lemma_first_index(s, c, i - from);
    }
    i
}

/// The bounds of `chars[from..to]` without the whitespace at either end.
pub(crate) fn trim_range(chars: &Vec<char>, from: usize, to: usize) -> (r: (usize, usize))
    requires
        from <= to <= chars@.len(),
    ensures
        from <= r.0 <= r.1 <= to,
        chars@.subrange(r.0 as int, r.1 as int) == trimmed(chars@.subrange(from as int, to as int)),
{
    let mut a: usize = from;
    while a < to && is_whitespace(chars[a])
        invariant
            from <= a <= to <= chars@.len(),
            trim_start(chars@.subrange(a as int, to as int)) == trim_start(
                chars@.subrange(from as int, to as int),
            ),
        decreases to - a,
    {
        assert(chars@.subrange(a as int, to as int).drop_first() == chars@.subrange(
            a + 1,
            to as int,
        ));
        a = a + 1;
    }
    let mut b: usize = to;
    while a < b && is_whitespace(chars[b - 1])
        invariant
            from <= a <= b <= to <= chars@.len(),
            trim_end(chars@.subrange(a as int, b as int)) == trim_end(
                chars@.subrange(a as int, to as int),
            ),
        decreases b - a,
    {
        assert(chars@.subrange(a as int, b as int).drop_last() == chars@.subrange(
            a as int,
            b - 1,
        ));
        b = b - 1;
    }
    (a, b)
}

/// Whether `pattern` stands in `chars[from..to]` at its front.
fn starts_with(chars: &Vec<char>, from: usize, to: usize, pattern: &Vec<char>) -> (r: bool)
    requires
        from <= to <= chars@.len(),
    ensures
        r == pattern@.is_prefix_of(chars@.subrange(from as int, to as int)),
{
    let ghost s = chars@.subrange(from as int, to as int);
    if pattern.len() > to - from {
        return false;
    }
    let mut i: usize = 0;
    while i < pattern.len()
        invariant
            from <= to <= chars@.len(),
            i <= pattern@.len() <= to - from,
            s == chars@.subrange(from as int, to as int),
            forall|j: int| 0 <= j < i ==> pattern@[j] == s[j],
        decreases pattern@.len() - i,
    {
        if chars[from + i] != pattern[i] {
            assert(s[i as int] != s.subrange(0, pattern@.len() as int)[i as int]
                || pattern@ != s.subrange(0, pattern@.len() as int));
            return false;
        }
        i = i + 1;
    }
    assert(pattern@ =~= s.subrange(0, pattern@.len() as int));
    true
}

/// The bound from which `chars[from..to]` no longer begins with `prefix`, once the prefixes at its
/// front are left out.
pub(crate) fn skip_prefixes(
    chars: &Vec<char>,
    from: usize,
    to: usize,
    prefix: &Vec<char>,
) -> (r: usize)
    requires
        from <= to <= chars@.len(),
        prefix@.len() > 0,
    ensures
        from <= r <= to,
        chars@.subrange(r as int, to as int) == strip_prefixes(
            chars@.subrange(from as int, to as int),
            prefix@,
        ),
{
    let mut i: usize = from;
    while starts_with(chars, i, to, prefix)
        invariant
            from <= i <= to <= chars@.len(),
            prefix@.len() > 0,
            strip_prefixes(chars@.subrange(i as int, to as int), prefix@) == strip_prefixes(
                chars@.subrange(from as int, to as int),
                prefix@,
            ),
        decreases to - i,
    {
        assert(chars@.subrange(i as int, to as int).skip(prefix@.len() as int) == chars@.subrange(
            i + prefix@.len(),
            to as int,
        ));
        i = i + prefix.len();
    }
    i
}

/// The bound up to which `chars[from..to]` does not end with `c`, once the `c`s at its end are left
/// out.
pub(crate) fn drop_trailing(chars: &Vec<char>, from: usize, to: usize, c: char) -> (r: usize)
    requires
        from <= to <= chars@.len(),
    ensures
        from <= r <= to,
        chars@.subrange(from as int, r as int) == strip_trailing(
            chars@.subrange(from as int, to as int),
            c,
        ),
{
    let mut i: usize = to;
    while from < i && chars[i - 1] == c
        invariant
            from <= i <= to <= chars@.len(),
            strip_trailing(chars@.subrange(from as int, i as int), c) == strip_trailing(
                chars@.subrange(from as int, to as int),
                c,
            ),
        decreases i - from,
    {
        assert(chars@.subrange(from as int, i as int).drop_last() == chars@.subrange(
            from as int,
            i - 1,
        ));
        i = i - 1;
    }
    i
}

/// Whether `chars[from..to]`, lowered, is `name`.
pub(crate) fn lowers_to(chars: &Vec<char>, from: usize, to: usize, name: &Vec<char>) -> (r: bool)
    requires
        from <= to <= chars@.len(),
    ensures
        r == (ascii_lowered(chars@.subrange(from as int, to as int)) == name@),
{
    let ghost lowered = ascii_lowered(chars@.subrange(from as int, to as int));
    if name.len() != to - from {
        return false;
    }
    let mut i: usize = 0;
    while i < name.len()
        invariant
            from <= to <= chars@.len(),
            i <= name@.len() == to - from,
            lowered == ascii_lowered(chars@.subrange(from as int, to as int)),
            forall|j: int| 0 <= j < i ==> lowered[j] == name@[j],
        decreases name@.len() - i,
    {
        if to_ascii_lower(chars[from + i]) != name[i] {
            assert(lowered[i as int] != name@[i as int]);
            return false;
        }
        i = i + 1;
    }
    assert(lowered =~= name@);
    true
}

/// The text of a digit.
fn digit_text(d: u128) -> (r: &'static str)
    requires
        d < 10,
    ensures
        r@ == seq![digit(d as nat)],
{
    proof {
        reveal_strlit("0");
        reveal_strlit("1");
        reveal_strlit("2");
        reveal_strlit("3");
        reveal_strlit("4");
        reveal_strlit("5");
        reveal_strlit("6");
        reveal_strlit("7");
        reveal_strlit("8");
        reveal_strlit("9");
    }
    let r = match d {
        0 => "0",
        1 => "1",
        2 => "2",
        3 => "3",
        4 => "4",
        5 => "5",
        6 => "6",
        7 => "7",
        8 => "8",
        _ => "9",
    };
    assert(r@ =~= seq![digit(d as nat)]);
    r
}

/// Writes `n` in decimal at the end of `out`.
pub(crate) fn append_decimal(out: &mut String, n: u128)
    ensures
        final(out)@ == old(out)@ + decimal(n as nat),
    decreases n,
{
    if n >= 10 {
        append_decimal(out, n / 10);
    }
    out.append(digit_text(n % 10));
    assert(out@ =~= old(out)@ + decimal(n as nat));
}

/// Writes `n` in decimal at the end of `out`, with spaces before it to fill `width`.
pub(crate) fn append_right_aligned(out: &mut String, n: u128, width: usize)
    ensures
        final(out)@ == old(out)@ + right_aligned(decimal(n as nat), width as nat),
{
    let mut number = String::new();
    append_decimal(&mut number, n);
    assert(number@ =~= decimal(n as nat));
    let mut len: usize = number.as_str().unicode_len();
    while len < width
        invariant
            number@ == decimal(n as nat),
            number@.len() <= len,
            len <= width || len == number@.len(),
            out@ == old(out)@ + Seq::new((len - number@.len()) as nat, |i: int| ' '),
        decreases width - len,
    {
        proof {
            reveal_strlit(" ");
        }
        out.append(" ");
        len = len + 1;
        assert(out@ =~= old(out)@ + Seq::new((len - number@.len()) as nat, |i: int| ' '));
    }
    out.append(number.as_str());
    assert(out@ =~= old(out)@ + right_aligned(decimal(n as nat), width as nat));
}

}
