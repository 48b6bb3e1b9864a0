//! Text as sequences of characters.

use vstd::prelude::*;

verus! {

/// The upper-case form that `str::to_uppercase` gives a text.
pub uninterp spec fn uppercase(s: Seq<char>) -> Seq<char>;

/// `str::to_uppercase`: the result is the named upper-case form of the text,
/// a function of the text alone.
pub assume_specification[ str::to_uppercase ](s: &str) -> (r: String)
    ensures
        r@ == uppercase(s@),
;

/// The texts held by a list of strings.
pub open spec fn texts(names: Seq<String>) -> Seq<Seq<char>> {
    Seq::new(names.len(), |i: int| names[i]@)
}

/// `s` starts with `prefix`.
pub open spec fn starts_with(s: Seq<char>, prefix: Seq<char>) -> bool {
    prefix.len() <= s.len() && s.subrange(0, prefix.len() as int) == prefix
}

/// `s` without its leading `prefix`; all of `s` where it has none.
pub open spec fn without_prefix(s: Seq<char>, prefix: Seq<char>) -> Seq<char> {
    if starts_with(s, prefix) {
        s.subrange(prefix.len() as int, s.len() as int)
    } else {
        s
    }
}

/// Whether two texts hold the same characters.
pub fn same_text(a: &str, b: &str) -> (r: bool)
    ensures
        r == (a@ == b@),
{
    a.to_owned() == b.to_owned()
}

/// The characters of a text.
pub fn chars_of(s: &str) -> (r: Vec<char>)
    ensures
        r@ == s@,
{
    let n: usize = s.unicode_len();
    let mut out: Vec<char> = Vec::with_capacity(n);
    for c in it: s.chars()
        invariant
            it.seq() == s@,
            out@ == s@.subrange(0, it.index()),
    {
        out.push(c);
    }
    assert(s@.subrange(0, s@.len() as int) == s@);
    out
}

/// Whether `s` starts with `prefix`.
pub fn has_prefix(s: &str, prefix: &str) -> (r: bool)
    ensures
        r == starts_with(s@, prefix@),
{
    let n: usize = s.unicode_len();
    let p: usize = prefix.unicode_len();
    p <= n && same_text(s.substring_char(0, p), prefix)
}

/// `s` without its leading `prefix`; all of `s` where it has none.
pub fn strip_prefix_or_all(s: &str, prefix: &str) -> (r: String)
    ensures
        r@ == without_prefix(s@, prefix@),
{
    let n: usize = s.unicode_len();
    let p: usize = prefix.unicode_len();
    if p <= n && same_text(s.substring_char(0, p), prefix) {
        s.substring_char(p, n).to_owned()
    } else {
        s.to_owned()
    }
}

// ---------------------------------------------------------------------------
// Building
// ---------------------------------------------------------------------------
/// `String::push`: the character is appended to the text.
pub assume_specification[ String::push ](s: &mut String, c: char)
    ensures
        final(s)@ == old(s)@.push(c),
;

/// What the debug formatting of a string gives: the text in double quotes,
/// with the escapes that `str`'s `Debug` implementation puts in.
pub uninterp spec fn quoted(s: Seq<char>) -> Seq<char>;

/// Formats a text with `{:?}`: the `Debug` implementation of `str`, whose
/// result is a function of the text alone.
#[verifier::external_body]
pub(crate) fn quote(s: &str) -> (r: String)
    ensures
        r@ == quoted(s@),
{
    format!("{s:?}")
}

/// The decimal digit of a value below ten.
pub open spec fn digit_char(d: nat) -> char {
    ('0' as u32 + d) as char
}

/// A number in decimal.
pub open spec fn decimal(n: nat) -> Seq<char>
    decreases n,
{
    if n < 10 {
        seq![digit_char(n)]
    } else {
        decimal(n / 10).push(digit_char(n % 10))
    }
}

/// A signed number in decimal.
pub open spec fn signed_decimal(n: int) -> Seq<char> {
    if n >= 0 {
        decimal(n as nat)
    } else {
        seq!['-'] + decimal((-n) as nat)
    }
}

fn digit_of(d: u64) -> (c: char)
    requires
        d < 10,
    ensures
        c == digit_char(d as nat),
{
    match d {
        0 => '0',
        1 => '1',
        2 => '2',
        3 => '3',
        4 => '4',
        5 => '5',
        6 => '6',
        7 => '7',
        8 => '8',
        _ => '9',
    }
}

/// A number in decimal.
pub fn decimal_text(n: u64) -> (r: String)
    ensures
        r@ == decimal(n as nat),
    decreases n,
{
    if n < 10 {
        let mut r = String::new();
        r.push(digit_of(n));
        assert(r@ == decimal(n as nat));
        r
    } else {
        let mut r = decimal_text(n / 10);
        r.push(digit_of(n % 10));
        r
    }
}

/// Appends a number in decimal.
pub fn push_decimal(out: &mut String, n: u64)
    ensures
        final(out)@ == old(out)@ + decimal(n as nat),
{
    let digits = decimal_text(n);
    out.append(digits.as_str());
}

/// Appends a signed number in decimal.
pub fn push_signed(out: &mut String, n: i64)
    requires
        n > i64::MIN,
    ensures
        final(out)@ == old(out)@ + signed_decimal(n as int),
{
    if n >= 0 {
        push_decimal(out, n as u64);
    } else {
        out.push('-');
        push_decimal(out, (-n) as u64);
        assert(out@ == old(out)@ + signed_decimal(n as int));
    }
}

// ---------------------------------------------------------------------------
// White space
// ---------------------------------------------------------------------------
/// The characters with the Unicode property `White_Space`.
pub open spec fn is_white(c: char) -> bool {
    let u = c as u32;
    ||| 9 <= u <= 13
    ||| u == 0x20
    ||| u == 0x85
    ||| u == 0xa0
    ||| u == 0x1680
    ||| 0x2000 <= u <= 0x200a
    ||| u == 0x2028
    ||| u == 0x2029
    ||| u == 0x202f
    ||| u == 0x205f
    ||| u == 0x3000
}

/// Whether a character is white space.
pub fn is_whitespace(c: char) -> (r: bool)
    ensures
        r == is_white(c),
{
    let u: u32 = c as u32;
    (9 <= u && u <= 13) || u == 0x20 || u == 0x85 || u == 0xa0 || u == 0x1680 || (0x2000 <= u && u
        <= 0x200a) || u == 0x2028 || u == 0x2029 || u == 0x202f || u == 0x205f || u == 0x3000
}

/// A text without its leading white space.
pub open spec fn trim_start(s: Seq<char>) -> Seq<char>
    decreases s.len(),
{
    if s.len() > 0 && is_white(s[0]) {
        trim_start(s.subrange(1, s.len() as int))
    } else {
        s
    }
}

/// A text without its trailing white space.
pub open spec fn trim_end(s: Seq<char>) -> Seq<char>
    decreases s.len(),
{
    if s.len() > 0 && is_white(s.last()) {
        trim_end(s.drop_last())
    } else {
        s
    }
}

/// A text without white space at either end.
pub open spec fn trim(s: Seq<char>) -> Seq<char> {
    trim_end(trim_start(s))
}

/// The text of some characters.
pub fn text_of(chars: &Vec<char>, start: usize, end: usize) -> (r: String)
    requires
        start <= end <= chars@.len(),
    ensures
        r@ == chars@.subrange(start as int, end as int),
{
    let mut out = String::new();
    let mut i: usize = start;
    while i < end
        invariant
            start <= i <= end <= chars@.len(),
            out@ == chars@.subrange(start as int, i as int),
        decreases end - i,
    {
        out.push(chars[i]);
        i += 1;
        assert(out@ == chars@.subrange(start as int, i as int));
    }
    out
}

/// A text without white space at either end.
pub fn trimmed(s: &str) -> (r: String)
    ensures
        r@ == trim(s@),
{
    let chars = chars_of(s);
    let n: usize = chars.len();
    let mut start: usize = 0;
    assert(chars@.subrange(0, n as int) == chars@);
    while start < n && is_whitespace(chars[start])
        invariant
            start <= n,
            n == chars@.len(),
            chars@ == s@,
            trim_start(s@) == trim_start(chars@.subrange(start as int, n as int)),
        decreases n - start,
    {
        assert(chars@.subrange(start as int, n as int).subrange(1, n - start) == chars@.subrange(
            start + 1,
            n as int,
        ));
        start += 1;
    }
    let mut end: usize = n;
    assert(trim_start(s@) == chars@.subrange(start as int, n as int));
    while end > start && is_whitespace(chars[end - 1])
        invariant
            start <= end <= n,
            n == chars@.len(),
            trim(s@) == trim_end(chars@.subrange(start as int, end as int)),
        decreases end,
    {
        assert(chars@.subrange(start as int, end as int).drop_last() == chars@.subrange(
            start as int,
            end - 1,
        ));
        end -= 1;
    }
    assert(trim(s@) == chars@.subrange(start as int, end as int));
    text_of(&chars, start, end)
}

/// A character with the letters `A` to `Z` in lower case.
pub open spec fn lower_char(c: char) -> char {
    if 'A' as u32 <= c as u32 <= 'Z' as u32 {
        (c as u32 + 32) as char
    } else {
        c
    }
}

/// A text with the letters `A` to `Z` in lower case.
pub open spec fn ascii_lower(s: Seq<char>) -> Seq<char> {
    Seq::new(s.len(), |i: int| lower_char(s[i]))
}

/// A text with the letters `A` to `Z` in lower case.
pub fn ascii_lowercase(s: &str) -> (r: String)
    ensures
        r@ == ascii_lower(s@),
{
    let chars = chars_of(s);
    let mut out = String::new();
    let mut i: usize = 0;
    while i < chars.len()
        invariant
            i <= chars@.len(),
            chars@ == s@,
            out@.len() == i,
            forall|k: int| 0 <= k < i ==> out@[k] == lower_char(s@[k]),
        decreases chars@.len() - i,
    {
        let c = chars[i];
        let code: u32 = c as u32;
        if 'A' as u32 <= code && code <= 'Z' as u32 {
            out.push((code as u8 + 32) as char);
        } else {
            out.push(c);
        }
        i += 1;
    }
    assert(out@ =~= ascii_lower(s@));
    out
}

// ---------------------------------------------------------------------------
// Splitting
// ---------------------------------------------------------------------------
/// The pieces of a text between the separators, at least one.
pub open spec fn split_on(s: Seq<char>, sep: char) -> Seq<Seq<char>>
    decreases s.len(),
{
    if s.len() == 0 {
        seq![Seq::empty()]
    } else {
        let before = split_on(s.drop_last(), sep);
        if s.last() == sep {
            before.push(Seq::empty())
        } else {
            before.update(before.len() - 1, before.last().push(s.last()))
        }
    }
}

pub proof fn lemma_split_nonempty(s: Seq<char>, sep: char)
    ensures
        split_on(s, sep).len() > 0,
    decreases s.len(),
{
    if s.len() > 0 {
        lemma_split_nonempty(s.drop_last(), sep);
    }
}

/// The pieces of a text between the separators, at least one.
pub fn split_text(s: &str, sep: char) -> (r: Vec<String>)
    ensures
        texts(r@) == split_on(s@, sep),
        r@.len() > 0,
{
    let chars = chars_of(s);
    let mut done: Vec<String> = Vec::new();
    let mut piece = String::new();
    let mut i: usize = 0;
    assert(s@.subrange(0, 0) == Seq::<char>::empty());
    assert(texts(done@).push(piece@) == seq![Seq::<char>::empty()]);
    while i < chars.len()
        invariant
            i <= chars@.len(),
            chars@ == s@,
            texts(done@).push(piece@) == split_on(s@.subrange(0, i as int), sep),
        decreases chars@.len() - i,
    {
        let c = chars[i];
        let ghost before = texts(done@);
        let ghost old_piece = piece@;
        proof {
            let longer = s@.subrange(0, i + 1);
            assert(longer.drop_last() == s@.subrange(0, i as int));
            assert(longer.last() == c);
        }
        if c == sep {
            done.push(piece);
            piece = String::new();
            assert(texts(done@) == before.push(old_piece));
            assert(texts(done@).push(piece@) == before.push(old_piece).push(Seq::empty()));
        } else {
            piece.push(c);
            assert(before.push(old_piece).update(before.len() as int, old_piece.push(c))
                == before.push(piece@));
        }
        i += 1;
    }
    let ghost before = texts(done@);
    let ghost last = piece@;
    done.push(piece);
    assert(texts(done@) == before.push(last));
    assert(s@.subrange(0, chars@.len() as int) == s@);
    done
}

/// The text before the first separator and the text after it.
pub open spec fn split_once(s: Seq<char>, sep: char) -> Option<(Seq<char>, Seq<char>)> {
    if s.contains(sep) {
        let at = s.index_of_first(sep)->0;
        Some((s.subrange(0, at), s.subrange(at + 1, s.len() as int)))
    } else {
        None
    }
}

/// Splits a text at the first separator.
pub fn split_text_once(s: &str, sep: char) -> (r: Option<(String, String)>)
    ensures
        match r {
            None => split_once(s@, sep) is None,
            Some(p) => split_once(s@, sep) == Some((p.0@, p.1@)),
        },
{
    let chars = chars_of(s);
    let mut i: usize = 0;
    while i < chars.len()
        invariant
            i <= chars@.len(),
            chars@ == s@,
            forall|k: int| 0 <= k < i ==> s@[k] != sep,
        decreases chars@.len() - i,
    {
        if chars[i] == sep {
            proof {
                s@.index_of_first_ensures(sep);
                assert(s@[i as int] == sep);
                assert(s@.index_of_first(sep) == Some(i as int));
            }
            return Some((text_of(&chars, 0, i), text_of(&chars, i + 1, chars.len())));
        }
        i += 1;
    }
    None
}

/// A line without the carriage return before its line feed.
pub open spec fn without_return(line: Seq<char>) -> Seq<char> {
    if line.len() > 0 && line.last() == '\r' {
        line.drop_last()
    } else {
        line
    }
}

/// The lines of a text: ended by a line feed or a carriage return and line
/// feed, the last one optionally by nothing.
pub open spec fn lines_of(s: Seq<char>) -> Seq<Seq<char>> {
    let pieces = split_on(s, '\n');
    let ended = Seq::new((pieces.len() - 1) as nat, |i: int| without_return(pieces[i]));
    if pieces.last().len() == 0 {
        ended
    } else {
        ended.push(pieces.last())
    }
}

/// The lines of a text.
pub fn text_lines(s: &str) -> (r: Vec<String>)
    ensures
        texts(r@) == lines_of(s@),
{
    let pieces = split_text(s, '\n');
    let ghost all = split_on(s@, '\n');
    let last: usize = pieces.len() - 1;
    let mut out: Vec<String> = Vec::new();
    let mut i: usize = 0;
    while i < last
        invariant
            i <= last,
            last == pieces@.len() - 1,
            texts(pieces@) == all,
            out@.len() == i,
            forall|j: int| 0 <= j < i ==> (#[trigger] out@[j])@ == without_return(all[j]),
        decreases last - i,
    {
        let chars = chars_of(pieces[i].as_str());
        assert(chars@ == all[i as int]);
        let n: usize = chars.len();
        if n > 0 && chars[n - 1] == '\r' {
            out.push(text_of(&chars, 0, n - 1));
            assert(chars@.subrange(0, n - 1) == chars@.drop_last());
        } else {
            out.push(text_of(&chars, 0, n));
            assert(chars@.subrange(0, n as int) == chars@);
        }
        i += 1;
    }
    assert(all.last() == pieces@[last as int]@);
    if pieces[last].as_str().unicode_len() > 0 {
        out.push(pieces[last].clone());
    }
    assert(texts(out@) == lines_of(s@));
    out
}

// ---------------------------------------------------------------------------
// Numbers
// ---------------------------------------------------------------------------
/// Why a text is no integer.
#[derive(Clone, Copy, Debug, PartialEq, Eq, Structural)]
pub enum IntFault {
    Empty,
    InvalidDigit,
    TooLarge,
    TooSmall,
}

/// The words for a fault.
pub open spec fn fault_words(fault: IntFault) -> Seq<char> {
    match fault {
        IntFault::Empty => "cannot parse integer from empty string"@,
        IntFault::InvalidDigit => "invalid digit found in string"@,
        IntFault::TooLarge => "number too large to fit in target type"@,
        IntFault::TooSmall => "number too small to fit in target type"@,
    }
}

impl IntFault {
    /// The words for the fault.
    pub fn words(&self) -> (r: &'static str)
        ensures
            r@ == fault_words(*self),
    {
        match self {
            IntFault::Empty => "cannot parse integer from empty string",
            IntFault::InvalidDigit => "invalid digit found in string",
            IntFault::TooLarge => "number too large to fit in target type",
            IntFault::TooSmall => "number too small to fit in target type",
        }
    }
}

pub open spec fn is_digit(c: char) -> bool {
    '0' as u32 <= c as u32 <= '9' as u32
}

pub open spec fn digit_value(c: char) -> int {
    c as u32 - '0' as u32
}

/// The value of decimal digits read from the left, as long as it stays within
/// `max`; the first fault met decides.
pub open spec fn digits_up(s: Seq<char>, max: int) -> Result<int, IntFault>
    decreases s.len(),
{
    if s.len() == 0 {
        Ok(0)
    } else {
        match digits_up(s.drop_last(), max) {
            Err(fault) => Err(fault),
            Ok(value) => if !is_digit(s.last()) {
                Err(IntFault::InvalidDigit)
            } else if value * 10 + digit_value(s.last()) > max {
                Err(IntFault::TooLarge)
            } else {
                Ok(value * 10 + digit_value(s.last()))
            },
        }
    }
}

/// The same for the digits of a negative number, down to `min`.
pub open spec fn digits_down(s: Seq<char>, min: int) -> Result<int, IntFault>
    decreases s.len(),
{
    if s.len() == 0 {
        Ok(0)
    } else {
        match digits_down(s.drop_last(), min) {
            Err(fault) => Err(fault),
            Ok(value) => if !is_digit(s.last()) {
                Err(IntFault::InvalidDigit)
            } else if value * 10 - digit_value(s.last()) < min {
                Err(IntFault::TooSmall)
            } else {
                Ok(value * 10 - digit_value(s.last()))
            },
        }
    }
}

/// An unsigned integer of at most `max`: decimal digits, after a plus sign if
/// there is one.
pub open spec fn parsed_unsigned(s: Seq<char>, max: int) -> Result<int, IntFault> {
    if s.len() == 0 {
        Err(IntFault::Empty)
    } else if s.len() == 1 && (s[0] == '+' || s[0] == '-') {
        Err(IntFault::InvalidDigit)
    } else if s[0] == '+' {
        digits_up(s.subrange(1, s.len() as int), max)
    } else {
        digits_up(s, max)
    }
}

/// A signed integer from `min` to `max`: decimal digits, after a sign if there
/// is one.
pub open spec fn parsed_signed(s: Seq<char>, min: int, max: int) -> Result<int, IntFault> {
    if s.len() == 0 {
        Err(IntFault::Empty)
    } else if s.len() == 1 && (s[0] == '+' || s[0] == '-') {
        Err(IntFault::InvalidDigit)
    } else if s[0] == '+' {
        digits_up(s.subrange(1, s.len() as int), max)
    } else if s[0] == '-' {
        digits_down(s.subrange(1, s.len() as int), min)
    } else {
        digits_up(s, max)
    }
}

proof fn lemma_up_fault(s: Seq<char>, max: int, k: int)
    requires
        0 <= k <= s.len(),
        digits_up(s.subrange(0, k), max) is Err,
    ensures
        digits_up(s, max) == digits_up(s.subrange(0, k), max),
    decreases s.len() - k,
{
    if k == s.len() {
        assert(s.subrange(0, k) == s);
    } else {
        let longer = s.subrange(0, k + 1);
        assert(longer.drop_last() == s.subrange(0, k));
        lemma_up_fault(s, max, k + 1);
    }
}

proof fn lemma_down_fault(s: Seq<char>, min: int, k: int)
    requires
        0 <= k <= s.len(),
        digits_down(s.subrange(0, k), min) is Err,
    ensures
        digits_down(s, min) == digits_down(s.subrange(0, k), min),
    decreases s.len() - k,
{
    if k == s.len() {
        assert(s.subrange(0, k) == s);
    } else {
        let longer = s.subrange(0, k + 1);
        assert(longer.drop_last() == s.subrange(0, k));
        lemma_down_fault(s, min, k + 1);
    }
}

fn read_up(chars: &Vec<char>, start: usize, max: u64) -> (r: Result<u64, IntFault>)
    requires
        start <= chars@.len(),
        max >= 9,
    ensures
        match r {
            Ok(v) => digits_up(chars@.subrange(start as int, chars@.len() as int), max as int)
                == Ok::<int, IntFault>(v as int),
            Err(f) => digits_up(chars@.subrange(start as int, chars@.len() as int), max as int)
                == Err::<int, IntFault>(f),
        },
{
    let ghost s = chars@.subrange(start as int, chars@.len() as int);
    let mut value: u64 = 0;
    let mut i: usize = start;
    assert(s.subrange(0, 0) == Seq::<char>::empty());
    while i < chars.len()
        invariant
            start <= i <= chars@.len(),
            max >= 9,
            s == chars@.subrange(start as int, chars@.len() as int),
            value <= max,
            digits_up(s.subrange(0, i - start), max as int) == Ok::<int, IntFault>(value as int),
        decreases chars@.len() - i,
    {
        let c = chars[i];
        let ghost longer = s.subrange(0, i + 1 - start);
        proof {
            assert(longer.drop_last() == s.subrange(0, i - start));
            assert(longer.last() == c);
        }
        let u: u32 = c as u32;
        if u < 48 || u > 57 {
            proof {
                lemma_up_fault(s, max as int, i + 1 - start);
            }
            return Err(IntFault::InvalidDigit);
        }
        let digit: u64 = (u - 48) as u64;
        if value > max / 10 || value * 10 > max - digit {
            proof {
                assert(value * 10 + digit > max);
                lemma_up_fault(s, max as int, i + 1 - start);
            }
            return Err(IntFault::TooLarge);
        }
        value = value * 10 + digit;
        i += 1;
    }
    assert(s.subrange(0, s.len() as int) == s);
    Ok(value)
}

fn read_down(chars: &Vec<char>, start: usize, min: i64) -> (r: Result<i64, IntFault>)
    requires
        start <= chars@.len(),
        -0x1_0000_0000_0000 <= min <= -9,
    ensures
        match r {
            Ok(v) => digits_down(chars@.subrange(start as int, chars@.len() as int), min as int)
                == Ok::<int, IntFault>(v as int),
            Err(f) => digits_down(chars@.subrange(start as int, chars@.len() as int), min as int)
                == Err::<int, IntFault>(f),
        },
{
    let ghost s = chars@.subrange(start as int, chars@.len() as int);
    let mut value: i64 = 0;
    let mut i: usize = start;
    assert(s.subrange(0, 0) == Seq::<char>::empty());
    while i < chars.len()
        invariant
            start <= i <= chars@.len(),
            -0x1_0000_0000_0000 <= min <= -9,
            s == chars@.subrange(start as int, chars@.len() as int),
            min <= value <= 0,
            digits_down(s.subrange(0, i - start), min as int) == Ok::<int, IntFault>(value as int),
        decreases chars@.len() - i,
    {
        let c = chars[i];
        let ghost longer = s.subrange(0, i + 1 - start);
        proof {
            assert(longer.drop_last() == s.subrange(0, i - start));
            assert(longer.last() == c);
        }
        let u: u32 = c as u32;
        if u < 48 || u > 57 {
            proof {
                lemma_down_fault(s, min as int, i + 1 - start);
            }
            return Err(IntFault::InvalidDigit);
        }
        let digit: i64 = (u - 48) as i64;
        if value * 10 - digit < min {
            proof {
                lemma_down_fault(s, min as int, i + 1 - start);
            }
            return Err(IntFault::TooSmall);
        }
        value = value * 10 - digit;
        i += 1;
    }
    assert(s.subrange(0, s.len() as int) == s);
    Ok(value)
}

/// Reads an unsigned integer of at most `max`.
pub fn parse_unsigned(s: &str, max: u64) -> (r: Result<u64, IntFault>)
    requires
        max >= 9,
    ensures
        match r {
            Ok(v) => parsed_unsigned(s@, max as int) == Ok::<int, IntFault>(v as int) && v <= max,
            Err(f) => parsed_unsigned(s@, max as int) == Err::<int, IntFault>(f),
        },
{
    let chars = chars_of(s);
    if chars.len() == 0 {
        return Err(IntFault::Empty);
    }
    if chars.len() == 1 && (chars[0] == '+' || chars[0] == '-') {
        return Err(IntFault::InvalidDigit);
    }
    let start: usize = if chars[0] == '+' {
        1
    } else {
        0
    };
    assert(s@.subrange(0, s@.len() as int) == s@);
    let r = read_up(&chars, start, max);
    proof {
        lemma_up_range(chars@.subrange(start as int, chars@.len() as int), max as int);
    }
    r
}

proof fn lemma_up_range(s: Seq<char>, max: int)
    requires
        max >= 0,
    ensures
        digits_up(s, max) is Ok ==> 0 <= digits_up(s, max)->Ok_0 <= max,
    decreases s.len(),
{
    if s.len() > 0 {
        lemma_up_range(s.drop_last(), max);
    }
}

/// Reads a 32-bit signed integer.
pub fn parse_i32(s: &str) -> (r: Result<i32, IntFault>)
    ensures
        match r {
            Ok(v) => parsed_signed(s@, i32::MIN as int, i32::MAX as int) == Ok::<int, IntFault>(
                v as int,
            ),
            Err(f) => parsed_signed(s@, i32::MIN as int, i32::MAX as int) == Err::<int, IntFault>(
                f,
            ),
        },
{
    let chars = chars_of(s);
    if chars.len() == 0 {
        return Err(IntFault::Empty);
    }
    if chars.len() == 1 && (chars[0] == '+' || chars[0] == '-') {
        return Err(IntFault::InvalidDigit);
    }
    assert(s@.subrange(0, s@.len() as int) == s@);
    if chars[0] == '-' {
        return match read_down(&chars, 1, -2147483648) {
            Ok(v) => {
                proof {
                    lemma_down_range(
                        chars@.subrange(1, chars@.len() as int),
                        i32::MIN as int,
                    );
                }
                Ok(v as i32)
            },
            Err(f) => Err(f),
        };
    }
    let start: usize = if chars[0] == '+' {
        1
    } else {
        0
    };
    match read_up(&chars, start, 2147483647) {
        Ok(v) => {
            proof {
                lemma_up_range(
                    chars@.subrange(start as int, chars@.len() as int),
                    i32::MAX as int,
                );
            }
            Ok(v as i32)
        },
        Err(f) => Err(f),
    }
}

proof fn lemma_down_range(s: Seq<char>, min: int)
    requires
        min <= 0,
    ensures
        digits_down(s, min) is Ok ==> min <= digits_down(s, min)->Ok_0 <= 0,
    decreases s.len(),
{
    if s.len() > 0 {
        lemma_down_range(s.drop_last(), min);
    }
}

/// Reads a machine-sized unsigned integer.
pub fn parse_usize(s: &str) -> (r: Result<usize, IntFault>)
    ensures
        match r {
            Ok(v) => parsed_unsigned(s@, usize::MAX as int) == Ok::<int, IntFault>(v as int),
            Err(f) => parsed_unsigned(s@, usize::MAX as int) == Err::<int, IntFault>(f),
        },
{
    match parse_unsigned(s, usize::MAX as u64) {
        Ok(v) => Ok(v as usize),
        Err(f) => Err(f),
    }
}

/// A number that is read lies in its range.
pub proof fn lemma_unsigned_range(s: Seq<char>, max: int)
    requires
        max >= 0,
    ensures
        parsed_unsigned(s, max) is Ok ==> 0 <= parsed_unsigned(s, max)->Ok_0 <= max,
{
    lemma_up_range(s, max);
    if s.len() > 0 {
        lemma_up_range(s.subrange(1, s.len() as int), max);
    }
}

/// A signed number that is read lies in its range.
pub proof fn lemma_signed_range(s: Seq<char>, min: int, max: int)
    requires
        min <= 0 <= max,
    ensures
        parsed_signed(s, min, max) is Ok ==> min <= parsed_signed(s, min, max)->Ok_0 <= max,
{
    lemma_up_range(s, max);
    if s.len() > 0 {
        lemma_up_range(s.subrange(1, s.len() as int), max);
        lemma_down_range(s.subrange(1, s.len() as int), min);
    }
}

proof fn lemma_digit(d: nat)
    requires
        d < 10,
    ensures
        is_digit(digit_char(d)),
        digit_value(digit_char(d)) == d,
{
}

/// A number's decimal text is made of digits and is not empty.
pub proof fn lemma_decimal_digits(n: nat)
    ensures
        decimal(n).len() > 0,
        forall|i: int| 0 <= i < decimal(n).len() ==> is_digit(#[trigger] decimal(n)[i]),
    decreases n,
{
    if n < 10 {
        lemma_digit(n);
    } else {
        lemma_decimal_digits(n / 10);
        lemma_digit(n % 10);
    }
}

proof fn lemma_decimal_up(n: nat, max: int)
    requires
        n <= max,
    ensures
        digits_up(decimal(n), max) == Ok::<int, IntFault>(n as int),
    decreases n,
{
    reveal_with_fuel(digits_up, 2);
    if n < 10 {
        lemma_digit(n);
        assert(decimal(n).drop_last() =~= Seq::<char>::empty());
    } else {
        lemma_decimal_up(n / 10, max);
        lemma_digit(n % 10);
        assert(decimal(n).drop_last() =~= decimal(n / 10));
    }
}

/// A number's decimal text reads back as the number.
pub proof fn lemma_decimal_reads(n: nat, max: int)
    requires
        n <= max,
    ensures
        parsed_unsigned(decimal(n), max) == Ok::<int, IntFault>(n as int),
{
    lemma_decimal_digits(n);
    lemma_decimal_up(n, max);
    assert(is_digit(decimal(n)[0]));
}

/// A text that neither starts nor ends with white space is its own trimming.
pub proof fn lemma_trim_nothing(s: Seq<char>)
    requires
        s.len() > 0,
        !is_white(s[0]),
        !is_white(s.last()),
    ensures
        trim(s) == s,
{
}

/// A text without the separator is one piece.
pub proof fn lemma_split_one(s: Seq<char>, sep: char)
    requires
        forall|i: int| 0 <= i < s.len() ==> s[i] != sep,
    ensures
        split_on(s, sep) == seq![s],
    decreases s.len(),
{
    if s.len() > 0 {
        lemma_split_one(s.drop_last(), sep);
        assert(s.drop_last().push(s.last()) =~= s);
        assert(split_on(s, sep) =~= seq![s]);
    } else {
        assert(s =~= Seq::<char>::empty());
        assert(split_on(s, sep) =~= seq![s]);
    }
}

/// A separator and a piece behind a text add that piece.
pub proof fn lemma_split_append(a: Seq<char>, b: Seq<char>, sep: char)
    requires
        forall|i: int| 0 <= i < b.len() ==> b[i] != sep,
    ensures
        split_on(a + seq![sep] + b, sep) == split_on(a, sep).push(b),
    decreases b.len(),
{
    let whole = a + seq![sep] + b;
    if b.len() == 0 {
        assert(whole.drop_last() =~= a);
        assert(b =~= Seq::<char>::empty());
    } else {
        lemma_split_append(a, b.drop_last(), sep);
        assert(whole.drop_last() =~= a + seq![sep] + b.drop_last());
        assert(b.drop_last().push(b.last()) =~= b);
        assert(split_on(whole, sep) =~= split_on(a, sep).push(b));
    }
}

/// A text occurs in another at a place.
pub open spec fn occurs_at(s: Seq<char>, part: Seq<char>, at: int) -> bool {
    0 <= at && at + part.len() <= s.len() && s.subrange(at, at + part.len()) == part
}

/// A text occurs in another.
pub open spec fn occurs(s: Seq<char>, part: Seq<char>) -> bool {
    exists|at: int| #[trigger] occurs_at(s, part, at)
}

/// Whether a text occurs in another.
pub fn contains_text(s: &str, part: &str) -> (r: bool)
    ensures
        r == occurs(s@, part@),
{
    let chars = chars_of(s);
    let wanted = chars_of(part);
    let mut at: usize = 0;
    assert(chars.len() == chars@.len());
    while at < chars.len() || at == chars.len()
        invariant
            at <= chars@.len() + 1,
            chars@ == s@,
            wanted@ == part@,
            chars@.len() <= usize::MAX,
            forall|k: int| 0 <= k < at ==> !#[trigger] occurs_at(s@, part@, k),
        decreases chars@.len() + 1 - at,
    {
        if wanted.len() > chars.len() - at {
            assert forall|k: int| !#[trigger] occurs_at(s@, part@, k) by {}
            return false;
        }
        let mut i: usize = 0;
        while i < wanted.len() && chars[at + i] == wanted[i]
            invariant
                i <= wanted@.len(),
                at + wanted@.len() <= chars@.len(),
                chars@.len() <= usize::MAX,
                chars@ == s@,
                wanted@ == part@,
                forall|k: int| 0 <= k < i ==> chars@[at + k] == wanted@[k],
            decreases wanted@.len() - i,
        {
            i += 1;
        }
        if i == wanted.len() {
            assert(s@.subrange(at as int, at + part@.len()) =~= part@);
            assert(occurs_at(s@, part@, at as int));
            return true;
        }
        proof {
            if occurs_at(s@, part@, at as int) {
                assert(s@.subrange(at as int, at + part@.len())[i as int] == chars@[at + i]);
            }
        }
        if at == chars.len() {
            assert forall|k: int| !#[trigger] occurs_at(s@, part@, k) by {}
            return false;
        }
        at += 1;
    }
    false
}

} // verus!
