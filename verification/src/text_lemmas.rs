//! Facts about texts that the contracts of the other modules rest on.

use vstd::arithmetic::power::pow;
use vstd::prelude::*;

use crate::text::{
    ascii_lowered, decimal, digit, first_index, is_white_space, lacks, split, strip_prefixes,
    strip_trailing, trim_end, trim_start, trimmed,
};

verus! {

/// [`first_index`] is the index before which there is no `c`, and at which there is one unless the
/// text ends there.
pub proof fn lemma_first_index(s: Seq<char>, c: char, i: int)
    requires
        0 <= i <= s.len(),
    ensures
        first_index(s, c) == i <==> ((forall|j: int| 0 <= j < i ==> s[j] != c) && (i < s.len()
            ==> s[i] == c)),
    decreases s.len(),
{
    if s.len() > 0 && s.first() != c {
        let rest = s.drop_first();
        if i > 0 {
            lemma_first_index(rest, c, i - 1);
            assert(forall|j: int| 0 < j < i ==> #[trigger] s[j] == rest[j - 1]);
            assert(forall|k: int| 0 <= k < i - 1 ==> rest[k] == s[k + 1]);
        }
    }
    if s.len() > 0 && s.first() == c && i > 0 {
        assert(s[0] == c);
    }
}

/// [`first_index`] stays within the text.
pub proof fn lemma_first_index_bound(s: Seq<char>, c: char)
    ensures
        first_index(s, c) <= s.len(),
    decreases s.len(),
{
    if s.len() > 0 && s.first() != c {
        lemma_first_index_bound(s.drop_first(), c);
    }
}

/// A text cut at its first `c` has one front and one back.
pub proof fn lemma_cut(front: Seq<char>, c: char, back: Seq<char>)
    requires
        lacks(front, c),
    ensures
        first_index(front + seq![c] + back, c) == front.len(),
        (front + seq![c] + back).take(front.len() as int) == front,
        (front + seq![c] + back).skip(front.len() as int + 1) == back,
{
    let s = front + seq![c] + back;
    assert(forall|j: int| 0 <= j < front.len() ==> s[j] == front[j]);
    lemma_first_index(s, c, front.len() as int);
    assert(s.take(front.len() as int) =~= front);
    assert(s.skip(front.len() as int + 1) =~= back);
}

/// Two texts that agree behind fronts without a `c`, each ended by one, agree in both halves.
pub proof fn lemma_cut_unique(
    front1: Seq<char>,
    back1: Seq<char>,
    front2: Seq<char>,
    back2: Seq<char>,
    c: char,
)
    requires
        lacks(front1, c),
        lacks(front2, c),
        front1 + seq![c] + back1 == front2 + seq![c] + back2,
    ensures
        front1 == front2,
        back1 == back2,
{
    lemma_cut(front1, c, back1);
    lemma_cut(front2, c, back2);
}

/// A decimal number is made of digits.
pub proof fn lemma_decimal_digits(n: nat)
    ensures
        decimal(n).len() > 0,
        forall|i: int| 0 <= i < decimal(n).len() ==> '0' <= #[trigger] decimal(n)[i] <= '9',
    decreases n,
{
    if n >= 10 {
        lemma_decimal_digits(n / 10);
    }
}

/// Two numbers that are written alike are the same.
pub proof fn lemma_decimal_injective(m: nat, n: nat)
    requires
        decimal(m) == decimal(n),
    ensures
        m == n,
    decreases m,
{
    lemma_decimal_digits(m / 10);
    lemma_decimal_digits(n / 10);
    assert(decimal(m).last() == digit(m % 10));
    assert(decimal(n).last() == digit(n % 10));
    if m >= 10 && n >= 10 {
        assert(decimal(m).drop_last() =~= decimal(m / 10));
        assert(decimal(n).drop_last() =~= decimal(n / 10));
        lemma_decimal_injective(m / 10, n / 10);
    }
}

/// A number below the `k`th power of ten has at most `k` digits.
pub proof fn lemma_decimal_len(n: nat, k: nat)
    requires
        0 < k,
        n < pow(10, k),
    ensures
        decimal(n).len() <= k,
    decreases k,
{
    reveal(pow);
    if n >= 10 {
        if k == 1 {
            assert(pow(10, 0) == 1);
        } else {
            assert(pow(10, k) == 10 * pow(10, (k - 1) as nat));
            lemma_decimal_len(n / 10, (k - 1) as nat);
        }
    }
}

/// Splitting two texts with a separator between them splits each.
pub proof fn lemma_split_concat(a: Seq<char>, separator: char, b: Seq<char>)
    ensures
        split(a + seq![separator] + b, separator) == split(a, separator) + split(b, separator),
    decreases a.len(),
{
    let i = first_index(a, separator) as int;
    lemma_first_index_bound(a, separator);
    lemma_first_index(a, separator, i);
    let front = a.take(i);
    assert(lacks(front, separator));
    if i == a.len() {
        assert(front =~= a);
        lemma_cut(a, separator, b);
    } else {
        let rest = a.skip(i + 1) + seq![separator] + b;
        assert(a + seq![separator] + b =~= front + seq![separator] + rest);
        lemma_cut(front, separator, rest);
        lemma_split_concat(a.skip(i + 1), separator, b);
        assert(split(a + seq![separator] + b, separator) =~= split(a, separator) + split(
            b,
            separator,
        ));
    }
}

/// A text without the separator is one piece.
pub proof fn lemma_split_whole(s: Seq<char>, separator: char)
    requires
        lacks(s, separator),
    ensures
        split(s, separator) == seq![s],
{
    lemma_first_index(s, separator, s.len() as int);
}

/// Whitespace at the front of a text is trimmed up to a character that is none.
pub proof fn lemma_trim_start_concat(a: Seq<char>, b: Seq<char>)
    requires
        b.len() > 0,
        !is_white_space(b.first()),
    ensures
        trim_start(a + b) == trim_start(a) + b,
    decreases a.len(),
{
    if a.len() == 0 {
        assert(a + b =~= b);
    } else if is_white_space(a.first()) {
        assert((a + b).drop_first() =~= a.drop_first() + b);
        lemma_trim_start_concat(a.drop_first(), b);
    }
}

/// Whitespace at the end of a text is trimmed down to a character that is none.
pub proof fn lemma_trim_end_concat(a: Seq<char>, b: Seq<char>)
    requires
        a.len() > 0,
        !is_white_space(a.last()),
    ensures
        trim_end(a + b) == a + trim_end(b),
    decreases b.len(),
{
    if b.len() == 0 {
        assert(a + b =~= a);
    } else if is_white_space(b.last()) {
        assert((a + b).drop_last() =~= a + b.drop_last());
        lemma_trim_end_concat(a, b.drop_last());
    }
}

/// Trimming the front of a text leaves an end of it, which begins with no whitespace.
pub proof fn lemma_trim_start_suffix(s: Seq<char>)
    ensures
        trim_start(s).len() <= s.len(),
        trim_start(s) == s.skip(s.len() - trim_start(s).len()),
        trim_start(s).len() > 0 ==> !is_white_space(trim_start(s).first()),
    decreases s.len(),
{
    if s.len() > 0 && is_white_space(s.first()) {
        lemma_trim_start_suffix(s.drop_first());
        assert(trim_start(s) =~= s.skip(s.len() - trim_start(s).len()));
    } else {
        assert(s.skip(0) =~= s);
    }
}

/// A text with one more character behind it, trimmed at its front.
proof fn lemma_trim_start_push(s: Seq<char>, c: char)
    ensures
        trim_start(s.push(c)) == if trim_start(s).len() == 0 {
            trim_start(seq![c])
        } else {
            trim_start(s).push(c)
        },
    decreases s.len(),
{
    if s.len() == 0 {
        assert(s.push(c) =~= seq![c]);
    } else if is_white_space(s.first()) {
        assert(s.push(c).drop_first() =~= s.drop_first().push(c));
        lemma_trim_start_push(s.drop_first(), c);
    }
}

/// Trimming the end of a text first changes nothing of what trimming leaves.
pub proof fn lemma_trimmed_trim_end(s: Seq<char>)
    ensures
        trimmed(trim_end(s)) == trimmed(s),
    decreases s.len(),
{
    if s.len() > 0 && is_white_space(s.last()) {
        let front = s.drop_last();
        lemma_trimmed_trim_end(front);
        lemma_trim_start_push(front, s.last());
        assert(front.push(s.last()) =~= s);
        if trim_start(front).len() == 0 {
            reveal_with_fuel(trim_start, 2);
        } else {
            assert(trim_start(front).push(s.last()).drop_last() =~= trim_start(front));
        }
    }
}

/// Trimming the front of a text first changes nothing of what trimming leaves.
pub proof fn lemma_trimmed_trim_start(s: Seq<char>)
    ensures
        trimmed(trim_start(s)) == trimmed(s),
{
    lemma_trim_start_suffix(s);
}

/// Lowering changes no whitespace, so it may come before or after trimming.
pub proof fn lemma_trimmed_lowered(s: Seq<char>)
    ensures
        trimmed(ascii_lowered(s)) == ascii_lowered(trimmed(s)),
{
    lemma_trim_start_lowered(s);
    lemma_trim_end_lowered(trim_start(s));
}

proof fn lemma_trim_start_lowered(s: Seq<char>)
    ensures
        trim_start(ascii_lowered(s)) == ascii_lowered(trim_start(s)),
    decreases s.len(),
{
    if s.len() > 0 && is_white_space(s.first()) {
        assert(ascii_lowered(s).drop_first() =~= ascii_lowered(s.drop_first()));
        lemma_trim_start_lowered(s.drop_first());
    }
}

proof fn lemma_trim_end_lowered(s: Seq<char>)
    ensures
        trim_end(ascii_lowered(s)) == ascii_lowered(trim_end(s)),
    decreases s.len(),
{
    if s.len() > 0 && is_white_space(s.last()) {
        assert(ascii_lowered(s).drop_last() =~= ascii_lowered(s.drop_last()));
        lemma_trim_end_lowered(s.drop_last());
    }
}

/// What is left of a text whose front was stripped does not begin with the prefix.
pub proof fn lemma_strip_prefixes(s: Seq<char>, prefix: Seq<char>)
    requires
        prefix.len() > 0,
    ensures
        !prefix.is_prefix_of(strip_prefixes(s, prefix)),
    decreases s.len(),
{
    if prefix.is_prefix_of(s) {
        lemma_strip_prefixes(s.skip(prefix.len() as int), prefix);
    }
}

/// What is left of a text whose end was stripped is a front of it, which does not end with the
/// character.
pub proof fn lemma_strip_trailing(s: Seq<char>, c: char)
    ensures
        strip_trailing(s, c).is_prefix_of(s),
        strip_trailing(s, c).len() > 0 ==> strip_trailing(s, c).last() != c,
    decreases s.len(),
{
    if s.len() > 0 && s.last() == c {
        lemma_strip_trailing(s.drop_last(), c);
        let left = strip_trailing(s, c);
        assert(left =~= s.subrange(0, left.len() as int));
    } else {
        assert(s =~= s.subrange(0, s.len() as int));
    }
}

}
