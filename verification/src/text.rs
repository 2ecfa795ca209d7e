//! Small verified text helpers: white space, words, decimal numbers.

use vstd::prelude::*;

verus! {

/// The characters with the Unicode `White_Space` property.
pub open spec fn is_white_space(c: char) -> bool {
    ||| c == '\t'
    ||| c == '\n'
    ||| c == '\u{0B}'
    ||| c == '\u{0C}'
    ||| c == '\r'
    ||| c == ' '
    ||| c == '\u{85}'
    ||| c == '\u{A0}'
    ||| c == '\u{1680}'
    ||| ('\u{2000}' <= c && c <= '\u{200A}')
    ||| c == '\u{2028}'
    ||| c == '\u{2029}'
    ||| c == '\u{202F}'
    ||| c == '\u{205F}'
    ||| c == '\u{3000}'
}

pub open spec fn all_white_space(s: Seq<char>) -> bool {
    forall|i: int| 0 <= i < s.len() ==> is_white_space(#[trigger] s[i])
}

pub fn is_whitespace(c: char) -> (r: bool)
    ensures
        r == is_white_space(c),
{
    c == '\t' || c == '\n' || c == '\u{0B}' || c == '\u{0C}' || c == '\r' || c == ' ' || c
        == '\u{85}' || c == '\u{A0}' || c == '\u{1680}' || ('\u{2000}' <= c && c <= '\u{200A}')
        || c == '\u{2028}' || c == '\u{2029}' || c == '\u{202F}' || c == '\u{205F}' || c
        == '\u{3000}'
}

/// The characters of a text, in order.
pub fn chars_of(text: &str) -> (chars: Vec<char>)
    ensures
        chars@ == text@,
{
    let mut chars: Vec<char> = Vec::new();
    for c in it: text.chars()
        invariant
            chars@ == it.seq().take(it.index() as int),
    {
        chars.push(c);
    }
    chars
}

/// Whether a text is empty or white space only.
pub fn is_blank(text: &str) -> (blank: bool)
    ensures
        blank == all_white_space(text@),
{
    let chars = chars_of(text);
    let mut i: usize = 0;
    while i < chars.len()
        invariant
            chars@ == text@,
            i <= chars@.len(),
            forall|k: int| 0 <= k < i ==> is_white_space(#[trigger] chars@[k]),
        decreases chars@.len() - i,
    {
        if !is_whitespace(chars[i]) {
            return false;
        }
        i = i + 1;
    }
    true
}


/// Length of the leading run of characters that are not white space.
pub open spec fn word_len(s: Seq<char>) -> nat
    decreases s.len(),
{
    if s.len() == 0 || is_white_space(s[0]) {
        0
    } else {
        1 + word_len(s.drop_first())
    }
}

/// A leading word is never longer than the text.
pub proof fn lemma_word_len_bound(s: Seq<char>)
    ensures
        word_len(s) <= s.len(),
    decreases s.len(),
{
    if s.len() > 0 && !is_white_space(s[0]) {
        lemma_word_len_bound(s.drop_first());
    }
}

/// The maximal runs of non-white-space characters, in order.
pub open spec fn words(s: Seq<char>) -> Seq<Seq<char>>
    decreases s.len(),
{
    if s.len() == 0 {
        seq![]
    } else if is_white_space(s[0]) {
        words(s.drop_first())
    } else {
        let k = word_len(s);
        proof {
            lemma_word_len_bound(s);
        }
        if k == 0 {
            seq![]
        } else {
            seq![s.take(k as int)] + words(s.skip(k as int))
        }
    }
}

proof fn lemma_word_len(s: Seq<char>, i: int)
    requires
        0 <= i <= s.len(),
        forall|k: int| 0 <= k < i ==> !is_white_space(#[trigger] s[k]),
        i == s.len() || is_white_space(s[i]),
    ensures
        word_len(s) == i,
    decreases i,
{
    if i > 0 {
        let t = s.drop_first();
        assert forall|k: int| 0 <= k < i - 1 implies !is_white_space(#[trigger] t[k]) by {
            assert(t[k] == s[k + 1]);
        }
        if i < s.len() {
            assert(t[i - 1] == s[i]);
        }
        lemma_word_len(t, i - 1);
    }
}

/// Starting at `from`, the next word of `s` runs from `start` to `end`.
pub proof fn lemma_words_step(s: Seq<char>, from: int, start: int, end: int)
    requires
        0 <= from <= start < end <= s.len(),
        forall|k: int| from <= k < start ==> is_white_space(#[trigger] s[k]),
        forall|k: int| start <= k < end ==> !is_white_space(#[trigger] s[k]),
        end == s.len() || is_white_space(s[end]),
    ensures
        words(s.skip(from)) == seq![s.subrange(start, end)] + words(s.skip(end)),
    decreases start - from,
{
    let t = s.skip(from);
    if from < start {
        assert(t.drop_first() =~= s.skip(from + 1));
        lemma_words_step(s, from + 1, start, end);
    } else {
        let u = s.skip(start);
        assert forall|k: int| 0 <= k < end - start implies !is_white_space(#[trigger] u[k]) by {
            assert(u[k] == s[start + k]);
        }
        if end < s.len() {
            assert(u[end - start] == s[end]);
        }
        lemma_word_len(u, end - start);
        assert(u.take(end - start) =~= s.subrange(start, end));
        assert(u.skip(end - start) =~= s.skip(end));
    }
}

/// Starting at `from`, only white space is left.
pub proof fn lemma_words_none(s: Seq<char>, from: int)
    requires
        0 <= from <= s.len(),
        forall|k: int| from <= k < s.len() ==> is_white_space(#[trigger] s[k]),
    ensures
        words(s.skip(from)) == Seq::<Seq<char>>::empty(),
    decreases s.len() - from,
{
    if from < s.len() {
        assert(s.skip(from).drop_first() =~= s.skip(from + 1));
        lemma_words_none(s, from + 1);
    }
}

/// The index of the first character at or after `from` whose white-space
/// status is `white`, or the length if there is none.
pub(crate) fn scan(chars: &Vec<char>, from: usize, white: bool) -> (end: usize)
    requires
        from <= chars@.len(),
    ensures
        from <= end <= chars@.len(),
        forall|k: int| from <= k < end ==> is_white_space(#[trigger] chars@[k]) != white,
        end < chars@.len() ==> is_white_space(chars@[end as int]) == white,
{
    let mut i = from;
    while i < chars.len() && is_whitespace(chars[i]) != white
        invariant
            from <= i <= chars@.len(),
            forall|k: int| from <= k < i ==> is_white_space(#[trigger] chars@[k]) != white,
        decreases chars@.len() - i,
    {
        i = i + 1;
    }
    i
}

/// The words of a text: its maximal runs of non-white-space characters.
pub fn split_words(text: &str) -> (parts: Vec<&str>)
    ensures
        parts@.map_values(|w: &str| w@) == words(text@),
{
    let chars = chars_of(text);
    let mut parts: Vec<&str> = Vec::new();
    let mut position: usize = 0;
    proof {
        assert(text@.skip(0) =~= text@);
    }
    while position < chars.len()
        invariant
            chars@ == text@,
            position <= chars@.len(),
            words(text@) == parts@.map_values(|w: &str| w@) + words(text@.skip(position as int)),
        decreases chars@.len() - position,
    {
        let start = scan(&chars, position, false);
        if start == chars.len() {
            proof {
                lemma_words_none(text@, position as int);
                assert(parts@.map_values(|w: &str| w@) + Seq::<Seq<char>>::empty()
                    =~= parts@.map_values(|w: &str| w@));
            }
            position = start;
        } else {
            let end = scan(&chars, start, true);
            let word = text.substring_char(start, end);
            proof {
                lemma_words_step(text@, position as int, start as int, end as int);
                assert(parts@.push(word).map_values(|w: &str| w@) =~= parts@.map_values(|w: &str| w@)
                    + seq![word@]);
            }
            parts.push(word);
            position = end;
        }
    }
    proof {
        assert(text@.skip(position as int) =~= Seq::<char>::empty());
        assert(parts@.map_values(|w: &str| w@) + Seq::<Seq<char>>::empty() =~= parts@.map_values(
            |w: &str| w@,
        ));
    }
    parts
}


/// The first word of a text, or the empty text when it has none.
pub open spec fn first_word_of(s: Seq<char>) -> Seq<char> {
    if words(s).len() > 0 {
        words(s)[0]
    } else {
        seq![]
    }
}

pub open spec fn is_digit(c: char) -> bool {
    '0' <= c && c <= '9'
}

pub open spec fn digit_value(c: char) -> int {
    c as int - '0' as int
}

/// The number that a string of decimal digits denotes.
pub open spec fn digits_value(s: Seq<char>) -> int
    decreases s.len(),
{
    if s.len() == 0 {
        0
    } else {
        digits_value(s.drop_last()) * 10 + digit_value(s.last())
    }
}

/// Whether every character of `s` is a digit.
pub open spec fn scan_digits(s: Seq<char>) -> bool {
    forall|i: int| 0 <= i < s.len() ==> is_digit(#[trigger] s[i])
}

/// The integer that `s` spells in decimal: an optional sign (`-` only where
/// `signed`), then one or more ASCII digits.
pub open spec fn decimal_value(s: Seq<char>, signed: bool) -> Option<int> {
    let negative = signed && s.len() > 0 && s[0] == '-';
    let digits = if s.len() > 0 && (s[0] == '+' || negative) {
        s.drop_first()
    } else {
        s
    };
    if digits.len() == 0 || !scan_digits(digits) {
        None
    } else if negative {
        Some(-digits_value(digits))
    } else {
        Some(digits_value(digits))
    }
}

proof fn lemma_digits_nonnegative(s: Seq<char>)
    requires
        forall|k: int| 0 <= k < s.len() ==> is_digit(#[trigger] s[k]),
    ensures
        0 <= digits_value(s),
    decreases s.len(),
{
    if s.len() > 0 {
        lemma_digits_nonnegative(s.drop_last());
        assert(is_digit(s[s.len() - 1]));
    }
}

proof fn lemma_digits_grow(s: Seq<char>, i: int, j: int)
    requires
        0 <= i <= j <= s.len(),
        forall|k: int| 0 <= k < s.len() ==> is_digit(#[trigger] s[k]),
    ensures
        0 <= digits_value(s.take(i)) <= digits_value(s.take(j)),
    decreases j,
{
    if i < j {
        lemma_digits_grow(s, i, j - 1);
        assert(s.take(j).drop_last() =~= s.take(j - 1));
        assert(is_digit(s[j - 1]));
    } else {
        lemma_digits_nonnegative(s.take(i));
    }
}

/// Reads a decimal integer between `-limit_negative` and `limit_positive`:
/// an optional sign (`-` only where `signed`), then digits.
fn parse_decimal(text: &str, signed: bool, limit_negative: u64, limit_positive: u64) -> (value:
    Option<(bool, u64)>)
    requires
        limit_negative <= 1_000_000_000_000,
        limit_positive <= 1_000_000_000_000,
    ensures
        match decimal_value(text@, signed) {
            Some(v) => if -(limit_negative as int) <= v <= limit_positive {
                value matches Some((negative, magnitude)) && (if negative {
                    -(magnitude as int)
                } else {
                    magnitude as int
                }) == v && (negative ==> magnitude > 0)
            } else {
                value is None
            },
            None => value is None,
        },
{
    let chars = chars_of(text);
    let len = chars.len();
    let negative = signed && len > 0 && chars[0] == '-';
    let mut index: usize = if len > 0 && (chars[0] == '+' || negative) {
        1
    } else {
        0
    };
    let first = index;
    let ghost digits = if first == 1 {
        text@.drop_first()
    } else {
        text@
    };
    proof {
        assert(digits =~= text@.skip(first as int));
        assert(len == text@.len());
        assert(negative == (signed && text@.len() > 0 && text@[0] == '-'));
        assert((first == 1) == (text@.len() > 0 && (text@[0] == '+' || negative)));
        assert(decimal_value(text@, signed) == if digits.len() == 0 || !scan_digits(digits) {
            None
        } else if negative {
            Some(-digits_value(digits))
        } else {
            Some(digits_value(digits))
        });
    }
    if index == len {
        return None;
    }
    let limit = if negative {
        limit_negative
    } else {
        limit_positive
    };
    let mut magnitude: u64 = 0;
    while index < len
        invariant
            chars@ == text@,
            len == chars@.len(),
            first <= index <= len,
            first <= 1,
            digits == text@.skip(first as int),
            limit <= 1_000_000_000_000,
            forall|k: int| first <= k < index ==> is_digit(#[trigger] chars@[k]),
            magnitude == digits_value(digits.take(index - first)),
            magnitude <= limit,
            limit == if negative {
                limit_negative
            } else {
                limit_positive
            },
            digits.len() > 0,
            decimal_value(text@, signed) == if !scan_digits(digits) {
                None
            } else if negative {
                Some(-digits_value(digits))
            } else {
                Some(digits_value(digits))
            },
        decreases len - index,
    {
        let c = chars[index];
        if c < '0' || c > '9' {
            proof {
                assert(digits[index - first] == c);
                assert(!scan_digits(digits));
            }
            return None;
        }
        let digit = (c as u32 - '0' as u32) as u64;
        proof {
            assert(digits.take(index - first + 1).drop_last() =~= digits.take(index - first));
            assert(digits.take(index - first + 1).last() == c);
        }
        let next = magnitude * 10 + digit;
        if next > limit {
            proof {
                if scan_digits(digits) {
                    lemma_digits_grow(digits, index - first + 1, digits.len() as int);
                    assert(digits.take(digits.len() as int) =~= digits);
                    assert(digits_value(digits) > limit);
                }
            }
            return None;
        }
        magnitude = next;
        index = index + 1;
    }
    proof {
        assert(digits.take(len - first) =~= digits);
    }
    if negative && magnitude == 0 {
        Some((false, 0))
    } else {
        Some((negative, magnitude))
    }
}

/// Reads an `i32` the way `str::parse::<i32>` does.
pub fn parse_i32(text: &str) -> (value: Option<i32>)
    ensures
        value == match decimal_value(text@, true) {
            Some(v) => if i32::MIN <= v <= i32::MAX {
                Some(v as i32)
            } else {
                None
            },
            None => None,
        },
{
    match parse_decimal(text, true, 2_147_483_648, 2_147_483_647) {
        Some((negative, magnitude)) => {
            if negative {
                Some((0 - magnitude as i64) as i32)
            } else {
                Some(magnitude as i32)
            }
        },
        None => None,
    }
}

/// Reads a `u16` the way `str::parse::<u16>` does.
pub fn parse_u16(text: &str) -> (value: Option<u16>)
    ensures
        value == match decimal_value(text@, false) {
            Some(v) => if 0 <= v <= u16::MAX {
                Some(v as u16)
            } else {
                None
            },
            None => None,
        },
{
    match parse_decimal(text, false, 0, 65_535) {
        Some((_, magnitude)) => Some(magnitude as u16),
        None => None,
    }
}

/// The decimal digits of `n`, most significant first, without leading zeros.
pub open spec fn decimal(n: nat) -> Seq<char>
    decreases n,
{
    if n < 10 {
        seq![digit_char(n)]
    } else {
        decimal(n / 10).push(digit_char(n % 10))
    }
}

pub open spec fn digit_char(d: nat) -> char {
    ('0' as nat + d) as char
}

fn digit_text(d: u64) -> (text: &'static str)
    requires
        d < 10,
    ensures
        text@ == seq![digit_char(d as nat)],
{
    proof {
        reveal_strlit("0");
        reveal_strlit("1");
        reveal_strlit("2");
        reveal_strlit("3");
        reveal_strlit("4");
        reveal_strlit("5");
        reveal_strlit("6");
        reveal_strlit("7");
        reveal_strlit("8");
        reveal_strlit("9");
    }
    match d {
        0 => "0",
        1 => "1",
        2 => "2",
        3 => "3",
        4 => "4",
        5 => "5",
        6 => "6",
        7 => "7",
        8 => "8",
        _ => "9",
    }
}

/// Appends the decimal digits of `n`.
pub fn push_decimal(text: &mut String, n: u64)
    ensures
        final(text)@ == old(text)@ + decimal(n as nat),
    decreases n,
{
    if n >= 10 {
        push_decimal(text, n / 10);
    }
    text.append(digit_text(n % 10));
}

} // verus!
