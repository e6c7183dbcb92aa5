//! What the texts that the library cuts and writes are, told by how they are put together and read
//! back.

use vstd::prelude::*;

use crate::text::{
    ascii_lower, ascii_lowered, decimal, digit, first_index, is_bare, is_blank, is_numeral,
    is_white_space, join, lacks, number_of, repeated, right_aligned, split, strip_prefixes,
    strip_trailing, trim_end, trim_start, trimmed,
};
use crate::text_lemmas::{
    lemma_cut, lemma_decimal_digits, lemma_first_index, lemma_first_index_bound, lemma_split_concat,
    lemma_split_whole, lemma_trim_end_concat, lemma_trim_start_concat, lemma_trim_start_suffix,
};

verus! {

/// Whitespace is the 25 characters that Unicode lists under `White_Space`.
pub proof fn law_white_space(c: char)
    ensures
        is_white_space(c) <==> {
            ||| c == '\t'
            ||| c == '\n'
            ||| c == '\u{b}'
            ||| c == '\u{c}'
            ||| c == '\r'
            ||| c == ' '
            ||| c == '\u{85}'
            ||| c == '\u{a0}'
            ||| c == '\u{1680}'
            ||| c == '\u{2000}'
            ||| c == '\u{2001}'
            ||| c == '\u{2002}'
            ||| c == '\u{2003}'
            ||| c == '\u{2004}'
            ||| c == '\u{2005}'
            ||| c == '\u{2006}'
            ||| c == '\u{2007}'
            ||| c == '\u{2008}'
            ||| c == '\u{2009}'
            ||| c == '\u{200a}'
            ||| c == '\u{2028}'
            ||| c == '\u{2029}'
            ||| c == '\u{202f}'
            ||| c == '\u{205f}'
            ||| c == '\u{3000}'
        },
{
}

/// The first index of a character is where a front that lacks it ends; in a text that lacks it, the
/// end of the text.
pub proof fn law_first_index(front: Seq<char>, c: char, back: Seq<char>)
    requires
        lacks(front, c),
    ensures
        first_index(front + seq![c] + back, c) == front.len(),
        first_index(front, c) == front.len(),
{
    lemma_cut(front, c, back);
    lemma_first_index(front, c, front.len() as int);
}

/// A blank text is trimmed to nothing at either end.
proof fn lemma_blank_is_trimmed_away(s: Seq<char>)
    requires
        is_blank(s),
    ensures
        trim_start(s).len() == 0,
        trim_end(s).len() == 0,
    decreases s.len(),
{
    if s.len() > 0 {
        assert(is_white_space(s[0]) && is_white_space(s[s.len() - 1]));
        lemma_blank_is_trimmed_away(s.drop_first());
        lemma_blank_is_trimmed_away(s.drop_last());
    }
}

/// Trimming takes the whitespace at both ends, all of it and nothing else.
pub proof fn law_trimming(front: Seq<char>, text: Seq<char>, back: Seq<char>)
    requires
        is_blank(front),
        is_blank(back),
        text.len() > 0 ==> !is_white_space(text.first()) && !is_white_space(text.last()),
    ensures
        trimmed(front + text + back) == text,
{
    if text.len() > 0 {
        lemma_blank_is_trimmed_away(front);
        lemma_blank_is_trimmed_away(back);
        assert(front + text + back =~= front + (text + back));
        lemma_trim_start_concat(front, text + back);
        assert(trim_start(front) + (text + back) =~= text + back);
        lemma_trim_end_concat(text, back);
        assert(text + trim_end(back) =~= text);
    } else {
        let whole = front + text + back;
        assert forall|i: int| 0 <= i < whole.len() implies is_white_space(#[trigger] whole[i]) by {
            if i < front.len() {
                assert(whole[i] == front[i]);
            } else {
                assert(whole[i] == back[i - front.len()]);
            }
        }
        lemma_blank_is_trimmed_away(whole);
        assert(trim_start(whole) =~= text);
    }
}

/// What trimming takes off the front is blank.
proof fn lemma_trim_start_takes_blanks(s: Seq<char>)
    ensures
        trim_start(s).len() <= s.len(),
        is_blank(s.take(s.len() - trim_start(s).len())),
    decreases s.len(),
{
    if s.len() > 0 && is_white_space(s.first()) {
        let rest = s.drop_first();
        lemma_trim_start_takes_blanks(rest);
        let taken = s.take(s.len() - trim_start(s).len());
        let taken_from_rest = rest.take(rest.len() - trim_start(rest).len());
        assert forall|i: int| 0 <= i < taken.len() implies is_white_space(#[trigger] taken[i]) by {
            if i > 0 {
                assert(taken[i] == taken_from_rest[i - 1]);
            }
        }
    }
}

/// What trimming takes off the end is blank, and what it leaves is a front.
proof fn lemma_trim_end_takes_blanks(s: Seq<char>)
    ensures
        trim_end(s).len() <= s.len(),
        trim_end(s) == s.take(trim_end(s).len() as int),
        is_blank(s.skip(trim_end(s).len() as int)),
        trim_end(s).len() > 0 ==> !is_white_space(trim_end(s).last()),
    decreases s.len(),
{
    if s.len() > 0 && is_white_space(s.last()) {
        let rest = s.drop_last();
        lemma_trim_end_takes_blanks(rest);
        let n = trim_end(s).len() as int;
        assert(trim_end(s) =~= s.take(n));
        assert forall|i: int| 0 <= i < s.skip(n).len() implies is_white_space(
            #[trigger] s.skip(n)[i],
        ) by {
            if i < rest.len() - n {
                assert(s.skip(n)[i] == rest.skip(n)[i]);
            }
        }
    } else {
        assert(s.take(s.len() as int) =~= s);
    }
}

/// Every text is a blank front, what trimming leaves of it, and a blank back.
pub proof fn lemma_parts_of_trimming(s: Seq<char>) -> (parts: (Seq<char>, Seq<char>))
    ensures
        is_blank(parts.0),
        is_blank(parts.1),
        s == parts.0 + trimmed(s) + parts.1,
        is_bare(trimmed(s)),
{
    lemma_trim_start_takes_blanks(s);
    lemma_trim_start_suffix(s);
    let left = trim_start(s);
    lemma_trim_end_takes_blanks(left);
    let front = s.take(s.len() - left.len());
    let back = left.skip(trimmed(s).len() as int);
    assert(s =~= front + trimmed(s) + back);
    if trimmed(s).len() > 0 {
        assert(trimmed(s).first() == left.first());
    }
    (front, back)
}

/// The pieces of a text lack the separator, and with it between them they are the text.
pub proof fn law_split_pieces(s: Seq<char>, separator: char)
    ensures
        split(s, separator).len() > 0,
        join(split(s, separator), separator) == s,
        forall|i: int|
            0 <= i < split(s, separator).len() ==> lacks(
                #[trigger] split(s, separator)[i],
                separator,
            ),
    decreases s.len(),
{
    let i = first_index(s, separator) as int;
    lemma_first_index_bound(s, separator);
    lemma_first_index(s, separator, i);
    if i < s.len() {
        let rest = split(s.skip(i + 1), separator);
        law_split_pieces(s.skip(i + 1), separator);
        assert(split(s, separator).drop_first() =~= rest);
        assert(s =~= s.take(i) + seq![separator] + s.skip(i + 1));
        assert forall|k: int| 0 <= k < split(s, separator).len() implies lacks(
            #[trigger] split(s, separator)[k],
            separator,
        ) by {
            if k > 0 {
                assert(split(s, separator)[k] == rest[k - 1]);
            }
        }
    }
}

/// Pieces that lack the separator are what a text of them is split into.
pub proof fn law_joined_pieces_split(pieces: Seq<Seq<char>>, separator: char)
    requires
        pieces.len() > 0,
        forall|i: int| 0 <= i < pieces.len() ==> lacks(#[trigger] pieces[i], separator),
    ensures
        split(join(pieces, separator), separator) == pieces,
    decreases pieces.len(),
{
    lemma_split_whole(pieces[0], separator);
    if pieces.len() > 1 {
        let rest = pieces.drop_first();
        assert forall|i: int| 0 <= i < rest.len() implies lacks(
            #[trigger] rest[i],
            separator,
        ) by {
            assert(rest[i] == pieces[i + 1]);
        }
        law_joined_pieces_split(rest, separator);
        lemma_split_concat(pieces[0], separator, join(rest, separator));
        assert(seq![pieces[0]] + rest =~= pieces);
    } else {
        assert(seq![pieces[0]] =~= pieces);
    }
}

/// Lowering takes each letter of the upper-case alphabet to its like, and leaves everything else.
pub proof fn law_lowering(c: char)
    ensures
        forall|i: int|
            0 <= i < 26 ==> ascii_lower(#[trigger] "ABCDEFGHIJKLMNOPQRSTUVWXYZ"@[i])
                == "abcdefghijklmnopqrstuvwxyz"@[i],
        !"ABCDEFGHIJKLMNOPQRSTUVWXYZ"@.contains(c) ==> ascii_lower(c) == c,
{
    reveal_strlit("ABCDEFGHIJKLMNOPQRSTUVWXYZ");
    reveal_strlit("abcdefghijklmnopqrstuvwxyz");
    let upper = "ABCDEFGHIJKLMNOPQRSTUVWXYZ"@;
    if 'A' <= c && c <= 'Z' {
        assert(upper[c as u32 - 'A' as u32] == c);
    }
}

/// A text is lowered character by character.
pub proof fn law_lowering_of_texts(s: Seq<char>)
    ensures
        ascii_lowered(s).len() == s.len(),
        forall|i: int| 0 <= i < s.len() ==> #[trigger] ascii_lowered(s)[i] == ascii_lower(s[i]),
{
}

/// Stripping takes a prefix off as often as it stands at the front, and nothing else.
pub proof fn law_stripping_prefixes(prefix: Seq<char>, times: nat, rest: Seq<char>)
    requires
        prefix.len() > 0,
        !prefix.is_prefix_of(rest),
    ensures
        strip_prefixes(repeated(prefix, times) + rest, prefix) == rest,
    decreases times,
{
    let whole = repeated(prefix, times) + rest;
    if times == 0 {
        assert(whole =~= rest);
    } else {
        let once_less = repeated(prefix, (times - 1) as nat) + rest;
        assert(whole =~= prefix + once_less);
        assert(prefix =~= whole.subrange(0, prefix.len() as int));
        assert(whole.skip(prefix.len() as int) =~= once_less);
        law_stripping_prefixes(prefix, (times - 1) as nat, rest);
    }
}

/// A character, repeated, ends with it.
proof fn lemma_repeated_last(c: char, times: nat)
    requires
        times > 0,
    ensures
        repeated(seq![c], times) == repeated(seq![c], (times - 1) as nat).push(c),
    decreases times,
{
    reveal_with_fuel(repeated, 2);
    if times > 1 {
        lemma_repeated_last(c, (times - 1) as nat);
    }
    assert(repeated(seq![c], times) =~= repeated(seq![c], (times - 1) as nat).push(c));
}

/// Stripping takes a character off the end as often as it stands there, and nothing else.
pub proof fn law_stripping_trailing(rest: Seq<char>, c: char, times: nat)
    requires
        rest.len() > 0 ==> rest.last() != c,
    ensures
        strip_trailing(rest + repeated(seq![c], times), c) == rest,
    decreases times,
{
    let whole = rest + repeated(seq![c], times);
    if times == 0 {
        assert(whole =~= rest);
    } else {
        lemma_repeated_last(c, times);
        assert(whole.last() == c);
        assert(whole.drop_last() =~= rest + repeated(seq![c], (times - 1) as nat));
        law_stripping_trailing(rest, c, (times - 1) as nat);
    }
}

/// Digits stand for no negative number, and for a positive one where the first is no zero.
proof fn lemma_number_bound(digits: Seq<char>)
    requires
        forall|i: int| 0 <= i < digits.len() ==> '0' <= #[trigger] digits[i] <= '9',
    ensures
        number_of(digits) >= 0,
        digits.len() > 0 && digits[0] != '0' ==> number_of(digits) > 0,
    decreases digits.len(),
{
    if digits.len() > 0 {
        let front = digits.drop_last();
        assert(digits.last() == digits[digits.len() - 1]);
        assert(forall|i: int| 0 <= i < front.len() ==> front[i] == digits[i]);
        lemma_number_bound(front);
        if digits.len() == 1 {
            assert(digits[0] == digits.last());
        }
    }
}

/// No number above zero is written with a zero in front.
proof fn lemma_decimal_first(n: nat)
    requires
        n > 0,
    ensures
        decimal(n).len() > 0,
        decimal(n)[0] != '0',
    decreases n,
{
    if n >= 10 {
        lemma_decimal_first(n / 10);
    }
}

/// A number is written as its numeral: read back as digits, it is the number.
pub proof fn law_decimal_is_the_numeral(n: nat)
    ensures
        is_numeral(decimal(n), n),
    decreases n,
{
    reveal_with_fuel(number_of, 2);
    lemma_decimal_digits(n);
    if n >= 10 {
        law_decimal_is_the_numeral(n / 10);
        lemma_decimal_first(n / 10);
        assert(decimal(n).drop_last() =~= decimal(n / 10));
        assert(decimal(n).last() == digit(n % 10));
    } else {
        assert(decimal(n).drop_last() =~= Seq::<char>::empty());
    }
}

/// A number has one numeral.
pub proof fn law_numeral_is_unique(s: Seq<char>, n: nat)
    requires
        is_numeral(s, n),
    ensures
        s == decimal(n),
    decreases s.len(),
{
    reveal_with_fuel(number_of, 2);
    let front = s.drop_last();
    assert(s.last() == s[s.len() - 1]);
    assert(s =~= front.push(s.last()));
    assert(forall|i: int| 0 <= i < front.len() ==> front[i] == s[i]);
    lemma_number_bound(front);
    if s.len() > 1 {
        let m = number_of(front) as nat;
        assert(n / 10 == m && n % 10 == s.last() as u32 - '0' as u32);
        law_numeral_is_unique(front, m);
    } else {
        assert(front =~= Seq::<char>::empty());
        assert(s =~= decimal(n));
    }
}

/// An aligned text has spaces before it, no more than fill the width.
pub proof fn law_right_alignment(s: Seq<char>, width: nat)
    ensures
        ({
            let aligned = right_aligned(s, width);
            let spaces = aligned.len() - s.len();
            &&& aligned.len() == if s.len() < width {
                width
            } else {
                s.len()
            }
            &&& aligned.skip(spaces) == s
            &&& forall|i: int| 0 <= i < spaces ==> #[trigger] aligned[i] == ' '
        }),
{
    let aligned = right_aligned(s, width);
    assert(aligned.skip(aligned.len() - s.len()) =~= s);
}

}
