//! What holds of texts and of the numbers written in them.

use crate::text;
use vstd::prelude::*;

verus! {

/// The digit of a number below ten stands that far behind the digit zero, and
/// another digit behind a number's text makes it ten times as large and adds
/// the digit.
pub proof fn digits_count_by_tens(n: nat, d: nat)
    requires
        d < 10,
    ensures
        text::decimal(d).len() == 1,
        text::decimal(d)[0] as u32 == 48 + d,
        n > 0 ==> text::decimal(10 * n + d) == text::decimal(n) + text::decimal(d),
{
    if n > 0 {
        assert((10 * n + d) / 10 == n);
        assert((10 * n + d) % 10 == d);
        assert(text::decimal(n).push(text::digit_char(d)) =~= text::decimal(n) + text::decimal(d));
    }
}

proof fn lemma_digits_read(n: nat, max: int)
    requires
        0 <= max,
    ensures
        text::digits_up(text::decimal(n), max) == (if n <= max {
            Ok::<int, text::IntFault>(n as int)
        } else {
            Err(text::IntFault::TooLarge)
        }),
        text::digits_down(text::decimal(n), -max) == (if n <= max {
            Ok::<int, text::IntFault>(-n)
        } else {
            Err(text::IntFault::TooSmall)
        }),
    decreases n,
{
    reveal_with_fuel(text::digits_up, 2);
    reveal_with_fuel(text::digits_down, 2);
    if n < 10 {
        assert(text::decimal(n).drop_last() =~= Seq::<char>::empty());
        assert(text::decimal(n).last() as u32 == 48 + n);
    } else {
        lemma_digits_read(n / 10, max);
        assert(text::decimal(n).drop_last() =~= text::decimal(n / 10));
        assert(text::decimal(n).last() as u32 == 48 + n % 10);
    }
}

/// A number's text reads back as the number where it is no larger than what is
/// asked for, and as too large otherwise; a plus sign in front changes
/// nothing.
pub proof fn a_number_reads_back(n: nat, max: int)
    requires
        0 <= max,
    ensures
        ({
            let read = if n <= max {
                Ok::<int, text::IntFault>(n as int)
            } else {
                Err(text::IntFault::TooLarge)
            };
            &&& text::parsed_unsigned(text::decimal(n), max) == read
            &&& text::parsed_unsigned(seq!['+'] + text::decimal(n), max) == read
        }),
{
    text::lemma_decimal_digits(n);
    assert(text::is_digit(text::decimal(n)[0]));
    lemma_digits_read(n, max);
    let signed = seq!['+'] + text::decimal(n);
    assert(signed.subrange(1, signed.len() as int) =~= text::decimal(n));
}

/// A signed number's text reads back as the number where it lies between the
/// two bounds, and otherwise as too small or too large.
pub proof fn a_signed_number_reads_back(n: int, min: int, max: int)
    requires
        min <= 0 <= max,
    ensures
        text::parsed_signed(text::signed_decimal(n), min, max) == (if n < min {
            Err::<int, text::IntFault>(text::IntFault::TooSmall)
        } else if n > max {
            Err(text::IntFault::TooLarge)
        } else {
            Ok(n)
        }),
{
    if n >= 0 {
        text::lemma_decimal_digits(n as nat);
        assert(text::is_digit(text::decimal(n as nat)[0]));
        lemma_digits_read(n as nat, max);
    } else {
        let size = (-n) as nat;
        text::lemma_decimal_digits(size);
        lemma_digits_read(size, -min);
        let signed = seq!['-'] + text::decimal(size);
        assert(signed.subrange(1, signed.len() as int) =~= text::decimal(size));
    }
}

/// One character more behind a text that reads as a number makes it ten times
/// as large and adds its digit; where that is too large, or where the
/// character is no digit, the text no longer reads.
pub proof fn a_further_character_reads_on(s: Seq<char>, c: char, max: int)
    requires
        text::parsed_unsigned(s, max) is Ok,
    ensures
        ({
            let value = text::parsed_unsigned(s, max)->Ok_0;
            let digit = c as int - 48;
            text::parsed_unsigned(s.push(c), max) == (if digit < 0 || digit > 9 {
                Err::<int, text::IntFault>(text::IntFault::InvalidDigit)
            } else if 10 * value + digit > max {
                Err(text::IntFault::TooLarge)
            } else {
                Ok(10 * value + digit)
            })
        }),
{
    let whole = s.push(c);
    assert(whole.drop_last() =~= s);
    if s[0] == '+' {
        let rest = whole.subrange(1, whole.len() as int);
        assert(rest.drop_last() =~= s.subrange(1, s.len() as int));
        assert(rest.last() == c);
    }
}

/// No text at all, a sign alone and a text that starts with anything else than
/// a digit or a plus sign are no numbers.
pub proof fn what_is_no_number(s: Seq<char>, max: int)
    requires
        max >= 9,
    ensures
        s.len() == 0 ==> text::parsed_unsigned(s, max) == Err::<int, text::IntFault>(
            text::IntFault::Empty,
        ),
        s.len() > 0 && s[0] != '+' && !(48 <= s[0] as u32 && s[0] as u32 <= 57) ==> text::parsed_unsigned(s, max)
            == Err::<int, text::IntFault>(text::IntFault::InvalidDigit),
        s == seq!['+'] || s == seq!['-'] ==> text::parsed_unsigned(s, max) == Err::<
            int,
            text::IntFault,
        >(text::IntFault::InvalidDigit),
{
    if s.len() > 0 && s[0] != '+' && !(48 <= s[0] as u32 && s[0] as u32 <= 57) {
        lemma_first_digit(s, max);
    }
}

proof fn lemma_first_digit(s: Seq<char>, max: int)
    requires
        s.len() > 0,
        !text::is_digit(s[0]),
    ensures
        text::digits_up(s, max) == Err::<int, text::IntFault>(text::IntFault::InvalidDigit),
    decreases s.len(),
{
    reveal_with_fuel(text::digits_up, 2);
    if s.len() > 1 {
        lemma_first_digit(s.drop_last(), max);
    } else {
        assert(s.drop_last() =~= Seq::<char>::empty());
    }
}

proof fn lemma_trim_start(s: Seq<char>) -> (i: int)
    ensures
        0 <= i <= s.len(),
        text::trim_start(s) == s.subrange(i, s.len() as int),
        forall|k: int| 0 <= k < i ==> text::is_white(#[trigger] s[k]),
        i < s.len() ==> !text::is_white(s[i]),
    decreases s.len(),
{
    if s.len() > 0 && text::is_white(s[0]) {
        let rest = s.subrange(1, s.len() as int);
        let j = lemma_trim_start(rest);
        assert(rest.subrange(j, rest.len() as int) =~= s.subrange(j + 1, s.len() as int));
        assert forall|k: int| 0 <= k < j + 1 implies text::is_white(#[trigger] s[k]) by {
            if k > 0 {
                assert(rest[k - 1] == s[k]);
            }
        }
        if j + 1 < s.len() {
            assert(rest[j] == s[j + 1]);
        }
        j + 1
    } else {
        assert(s.subrange(0, s.len() as int) =~= s);
        0
    }
}

proof fn lemma_trim_end(s: Seq<char>) -> (j: int)
    ensures
        0 <= j <= s.len(),
        text::trim_end(s) == s.subrange(0, j),
        forall|k: int| j <= k < s.len() ==> text::is_white(#[trigger] s[k]),
        j > 0 ==> !text::is_white(s[j - 1]),
    decreases s.len(),
{
    if s.len() > 0 && text::is_white(s.last()) {
        let rest = s.drop_last();
        let j = lemma_trim_end(rest);
        assert(rest.subrange(0, j) =~= s.subrange(0, j));
        assert forall|k: int| j <= k < s.len() implies text::is_white(#[trigger] s[k]) by {
            if k < s.len() - 1 {
                assert(rest[k] == s[k]);
            }
        }
        j
    } else {
        assert(s.subrange(0, s.len() as int) =~= s);
        s.len() as int
    }
}

/// White space at either end of a text.
pub open spec fn all_white(s: Seq<char>) -> bool {
    forall|k: int| 0 <= k < s.len() ==> text::is_white(#[trigger] s[k])
}

/// Trimming takes off white space at both ends and nothing else, and leaves
/// none there.
pub proof fn trimming_takes_the_white_off_both_ends(s: Seq<char>) -> (ends: (Seq<char>, Seq<char>))
    ensures
        s == ends.0 + text::trim(s) + ends.1,
        all_white(ends.0),
        all_white(ends.1),
        text::trim(s).len() > 0 ==> !text::is_white(text::trim(s)[0]) && !text::is_white(
            text::trim(s).last(),
        ),
{
    let i = lemma_trim_start(s);
    let rest = text::trim_start(s);
    let j = lemma_trim_end(rest);
    let before = s.subrange(0, i);
    let after = rest.subrange(j, rest.len() as int);
    assert(s =~= before + rest.subrange(0, j) + after);
    (before, after)
}

/// Of the plain characters the white ones are the blank and the five from the
/// tabulator to the carriage return.
pub proof fn plain_white_characters(c: char)
    requires
        (c as u32) < 128,
    ensures
        text::is_white(c) <==> c == ' ' || (9 <= c as u32 && c as u32 <= 13),
{
}

/// The pieces with the separator between each two.
pub open spec fn joined(pieces: Seq<Seq<char>>, sep: char) -> Seq<char>
    decreases pieces.len(),
{
    if pieces.len() == 0 {
        Seq::empty()
    } else if pieces.len() == 1 {
        pieces[0]
    } else {
        joined(pieces.drop_last(), sep) + seq![sep] + pieces.last()
    }
}

proof fn lemma_joined_push(pieces: Seq<Seq<char>>, piece: Seq<char>, sep: char)
    requires
        pieces.len() > 0,
    ensures
        joined(pieces.push(piece), sep) == joined(pieces, sep) + seq![sep] + piece,
{
    assert(pieces.push(piece).drop_last() =~= pieces);
}

proof fn lemma_joined_longer(pieces: Seq<Seq<char>>, c: char, sep: char)
    requires
        pieces.len() > 0,
    ensures
        joined(pieces.update(pieces.len() - 1, pieces.last().push(c)), sep) == joined(pieces, sep).push(
            c,
        ),
{
    let longer = pieces.update(pieces.len() - 1, pieces.last().push(c));
    assert(longer.drop_last() =~= pieces.drop_last());
    assert(joined(longer, sep) =~= joined(pieces, sep).push(c));
}

/// The pieces of a text hold no separator, and with a separator between each
/// two they are the text.
pub proof fn the_pieces_make_up_the_text(s: Seq<char>, sep: char)
    ensures
        joined(text::split_on(s, sep), sep) == s,
        forall|i: int|
            0 <= i < text::split_on(s, sep).len() ==> !(#[trigger] text::split_on(
                s,
                sep,
            )[i]).contains(sep),
    decreases s.len(),
{
    let pieces = text::split_on(s, sep);
    if s.len() == 0 {
        assert(joined(pieces, sep) =~= s);
    } else {
        let shorter = s.drop_last();
        let before = text::split_on(shorter, sep);
        the_pieces_make_up_the_text(shorter, sep);
        text::lemma_split_nonempty(shorter, sep);
        assert(s =~= shorter.push(s.last()));
        if s.last() == sep {
            lemma_joined_push(before, Seq::empty(), sep);
            assert(joined(pieces, sep) =~= s);
            assert forall|i: int| 0 <= i < pieces.len() implies !(#[trigger] pieces[i]).contains(
                sep,
            ) by {
                if i < before.len() {
                    assert(pieces[i] == before[i]);
                }
            }
        } else {
            lemma_joined_longer(before, s.last(), sep);
            assert forall|i: int| 0 <= i < pieces.len() implies !(#[trigger] pieces[i]).contains(
                sep,
            ) by {
                if i < before.len() - 1 {
                    assert(pieces[i] == before[i]);
                } else {
                    let piece = before.last();
                    assert(pieces[i] == piece.push(s.last()));
                    assert(!piece.contains(sep));
                    if piece.push(s.last()).contains(sep) {
                        let k = choose|k: int|
                            0 <= k < piece.len() + 1 && piece.push(s.last())[k] == sep;
                        assert(k < piece.len());
                        assert(piece[k] == sep);
                    }
                }
            }
        }
    }
}

/// A text is cut at its first separator, and only where it has one.
pub proof fn a_text_is_cut_at_its_first_separator(s: Seq<char>, sep: char)
    ensures
        text::split_once(s, sep) is Some <==> s.contains(sep),
        text::split_once(s, sep) is Some ==> ({
            let cut = text::split_once(s, sep)->0;
            s == cut.0 + seq![sep] + cut.1 && !cut.0.contains(sep)
        }),
{
    if s.contains(sep) {
        s.index_of_first_ensures(sep);
        let at = s.index_of_first(sep)->0;
        assert(s =~= s.subrange(0, at) + seq![sep] + s.subrange(at + 1, s.len() as int));
    }
}

/// A piece and a separator in front of a text add that piece in front.
pub proof fn lemma_split_front(a: Seq<char>, rest: Seq<char>, sep: char)
    requires
        !a.contains(sep),
    ensures
        text::split_on(a + seq![sep] + rest, sep) == seq![a] + text::split_on(rest, sep),
    decreases rest.len(),
{
    let whole = a + seq![sep] + rest;
    if rest.len() == 0 {
        assert(whole.drop_last() =~= a);
        text::lemma_split_one(a, sep);
        assert(text::split_on(whole, sep) =~= seq![a] + text::split_on(rest, sep));
    } else {
        assert(whole.drop_last() =~= a + seq![sep] + rest.drop_last());
        lemma_split_front(a, rest.drop_last(), sep);
        text::lemma_split_nonempty(rest.drop_last(), sep);
        assert(text::split_on(whole, sep) =~= seq![a] + text::split_on(rest, sep));
    }
}

/// A text without a line end is one line; where one stands behind it, with or
/// without a carriage return, the lines of the rest follow it.
pub proof fn a_line_ends_at_its_line_end(line: Seq<char>, rest: Seq<char>)
    requires
        !line.contains('\n'),
        line.len() > 0 ==> line.last() != '\r',
    ensures
        text::lines_of(Seq::empty()) == Seq::<Seq<char>>::empty(),
        line.len() > 0 ==> text::lines_of(line) == seq![line],
        text::lines_of(line + seq!['\n'] + rest) == seq![line] + text::lines_of(rest),
        text::lines_of(line + seq!['\r', '\n'] + rest) == seq![line] + text::lines_of(rest),
{
    text::lemma_split_one(Seq::empty(), '\n');
    text::lemma_split_one(line, '\n');
    assert(text::lines_of(Seq::empty()) =~= Seq::<Seq<char>>::empty());
    if line.len() > 0 {
        assert(text::lines_of(line) =~= seq![line]);
    }
    lemma_split_front(line, rest, '\n');
    text::lemma_split_nonempty(rest, '\n');
    assert(text::lines_of(line + seq!['\n'] + rest) =~= seq![line] + text::lines_of(rest));
    let returned = line.push('\r');
    assert(!returned.contains('\n')) by {
        if returned.contains('\n') {
            let k = choose|k: int| 0 <= k < returned.len() && returned[k] == '\n';
            assert(k < line.len());
            assert(line[k] == '\n');
        }
    }
    assert(line + seq!['\r', '\n'] + rest =~= returned + seq!['\n'] + rest);
    lemma_split_front(returned, rest, '\n');
    assert(returned.drop_last() =~= line);
    assert(text::lines_of(returned + seq!['\n'] + rest) =~= seq![line] + text::lines_of(rest));
}

/// A capital letter becomes the letter thirty-two places on; every other
/// character stays as it is.
pub proof fn capitals_become_small(s: Seq<char>, i: int)
    requires
        0 <= i < s.len(),
    ensures
        text::ascii_lower(s).len() == s.len(),
        ({
            let lower = text::ascii_lower(s)[i];
            if 65 <= s[i] as u32 && s[i] as u32 <= 90 {
                lower as u32 == s[i] as u32 + 32
            } else {
                lower == s[i]
            }
        }),
{
}

/// What stands behind a prefix is what is left without it; a text that does
/// not start with the prefix stays whole.
pub proof fn a_prefix_comes_off(prefix: Seq<char>, rest: Seq<char>, other: Seq<char>)
    ensures
        text::starts_with(prefix + rest, prefix),
        text::without_prefix(prefix + rest, prefix) == rest,
        text::starts_with(other, prefix) ==> other == prefix + text::without_prefix(other, prefix),
        !text::starts_with(other, prefix) ==> text::without_prefix(other, prefix) == other,
{
    let whole = prefix + rest;
    assert(whole.subrange(0, prefix.len() as int) =~= prefix);
    assert(whole.subrange(prefix.len() as int, whole.len() as int) =~= rest);
    if text::starts_with(other, prefix) {
        assert(other =~= prefix + text::without_prefix(other, prefix));
    }
}

/// A part occurs in whatever is written around it.
pub proof fn a_part_occurs_in_what_surrounds_it(
    before: Seq<char>,
    part: Seq<char>,
    after: Seq<char>,
)
    ensures
        text::occurs(before + part + after, part),
{
    let whole = before + part + after;
    assert(whole.subrange(before.len() as int, (before.len() + part.len()) as int) =~= part);
    assert(text::occurs_at(whole, part, before.len() as int));
}

/// Where a part occurs, the text is that part with something around it.
pub proof fn what_occurs_is_surrounded(s: Seq<char>, part: Seq<char>) -> (around: (
    Seq<char>,
    Seq<char>,
))
    requires
        text::occurs(s, part),
    ensures
        s == around.0 + part + around.1,
{
    let at = choose|at: int| #[trigger] text::occurs_at(s, part, at);
    let before = s.subrange(0, at);
    let after = s.subrange(at + part.len(), s.len() as int);
    assert(s =~= before + part + after);
    (before, after)
}

} // verus!
