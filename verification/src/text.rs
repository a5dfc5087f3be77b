//! Characters, character classes and the building of strings.

use vstd::prelude::*;
use vstd::std_specs::iter::IteratorSpec;
use vstd::string::StrSliceExecFns;

verus! {

/// Whether `c` is alphanumeric in the sense of `char::is_alphanumeric`:
/// alphabetic or numeric by the Unicode character database.
pub uninterp spec fn alphanumeric(c: char) -> bool;

/// `char::is_alphanumeric` decides membership in a fixed set of characters,
/// which `alphanumeric` names.
pub assume_specification[ char::is_alphanumeric ](c: char) -> (r: bool)
    ensures
        r == alphanumeric(c),
;

/// `String::push` appends exactly one character to the end of the string.
pub assume_specification[ std::string::String::push ](s: &mut std::string::String, c: char)
    ensures
        final(s)@ == old(s)@.push(c),
;

/// A text as `{:?}` shows it: between double quotes, with what cannot
/// stand there as it is escaped.
pub uninterp spec fn quoted(text: Seq<char>) -> Seq<char>;

/// The `Debug` form of a `str`, which `format!` writes for `{:?}`, is a
/// text made from the characters of the argument alone; `quoted` names it.
#[verifier::external_body]
pub(crate) fn quote(text: &str) -> (shown: String)
    ensures
        shown@ == quoted(text@),
{
    format!("{:?}", text)
}

/// The classes of characters that the tokenizer reads in runs.
#[derive(Clone, Copy, Debug, PartialEq, Eq, Structural)]
pub enum CharClass {
    /// The ten decimal digits.
    Digit,
    /// What may continue an identifier: alphanumeric characters and `_`.
    Identifier,
    /// What may continue a keyword: identifier characters and the space.
    Keyword,
    /// The single space.
    Space,
    /// Everything but the `>` that closes a text literal.
    TextBody,
}

/// Whether a character is one of the ten decimal digits.
pub open spec fn is_digit(c: char) -> bool {
    '0' <= c <= '9'
}

/// Whether a character belongs to a class.
pub open spec fn in_class(c: char, class: CharClass) -> bool {
    match class {
        CharClass::Digit => is_digit(c),
        CharClass::Identifier => alphanumeric(c) || c == '_',
        CharClass::Keyword => alphanumeric(c) || c == ' ' || c == '_',
        CharClass::Space => c == ' ',
        CharClass::TextBody => c != '>',
    }
}

/// The index just behind the longest run of characters of `class` that
/// starts at `from` (`from` itself where there is none).
pub open spec fn run_end(text: Seq<char>, from: int, class: CharClass) -> int
    decreases text.len() - from,
{
    if 0 <= from < text.len() && in_class(text[from], class) {
        run_end(text, from + 1, class)
    } else {
        from
    }
}

/// The number that a sequence of decimal digits denotes.
pub open spec fn decimal_value(digits: Seq<char>) -> nat
    decreases digits.len(),
{
    if digits.len() == 0 {
        0
    } else {
        (decimal_value(digits.drop_last()) * 10 + (digits.last() as nat - '0' as nat)) as nat
    }
}

/// A run ends inside the text, holds only characters of its class, and is
/// followed by none.
pub proof fn lemma_run_end_bounds(text: Seq<char>, from: int, class: CharClass)
    requires
        0 <= from <= text.len(),
    ensures
        from <= run_end(text, from, class) <= text.len(),
        forall|i: int| from <= i < run_end(text, from, class) ==> in_class(#[trigger] text[i], class),
        run_end(text, from, class) < text.len() ==> !in_class(
            text[run_end(text, from, class)],
            class,
        ),
    decreases text.len() - from,
{
    if from < text.len() && in_class(text[from], class) {
        lemma_run_end_bounds(text, from + 1, class);
    }
}

/// Whether a character belongs to a class.
pub fn char_in_class(c: char, class: CharClass) -> (r: bool)
    ensures
        r == in_class(c, class),
{
    match class {
        CharClass::Digit => c >= '0' && c <= '9',
        CharClass::Identifier => c.is_alphanumeric() || c == '_',
        CharClass::Keyword => c.is_alphanumeric() || c == ' ' || c == '_',
        CharClass::Space => c == ' ',
        CharClass::TextBody => c != '>',
    }
}

/// Scans the run of `class` that starts at `from`.
pub fn scan_run(text: &Vec<char>, from: usize, class: CharClass) -> (end: usize)
    requires
        from <= text@.len(),
    ensures
        end == run_end(text@, from as int, class),
        from <= end <= text@.len(),
{
    let mut end: usize = from;
    while end < text.len() && char_in_class(text[end], class)
        invariant
            from <= end <= text@.len(),
            run_end(text@, from as int, class) == run_end(text@, end as int, class),
        decreases text@.len() - end,
    {
        end = end + 1;
    }
    proof {
        lemma_run_end_bounds(text@, from as int, class);
    }
    end
}

/// Whether `word` spells the same characters as `literal`.
pub fn spells(word: &Vec<char>, literal: &str) -> (r: bool)
    ensures
        r == (word@ == literal@),
{
    let n: usize = literal.unicode_len();
    if word.len() != n {
        return false;
    }
    let mut i: usize = 0;
    while i < n
        invariant
            i <= n,
            n == literal@.len(),
            n == word@.len(),
            forall|j: int| 0 <= j < i ==> word@[j] == literal@[j],
        decreases n - i,
    {
        if word[i] != literal.get_char(i) {
            return false;
        }
        i = i + 1;
    }
    assert(word@ =~= literal@);
    true
}

/// The characters `text[from..to]` as a string.
pub fn collect(text: &Vec<char>, from: usize, to: usize) -> (s: String)
    requires
        from <= to <= text@.len(),
    ensures
        s@ == text@.subrange(from as int, to as int),
{
    let mut s = String::new();
    let mut i: usize = from;
    while i < to
        invariant
            from <= i <= to <= text@.len(),
            s@ == text@.subrange(from as int, i as int),
        decreases to - i,
    {
        s.push(text[i]);
        assert(text@.subrange(from as int, i as int).push(text@[i as int]) =~= text@.subrange(
            from as int,
            i + 1,
        ));
        i = i + 1;
    }
    s
}

/// The characters of a string slice, one by one.
pub fn chars_of(text: &str) -> (v: Vec<char>)
    ensures
        v@ == text@,
{
    let mut v: Vec<char> = Vec::new();
    let mut it = text.chars();
    loop
        invariant
            v@ + it.remaining() == text@,
        ensures
            v@ == text@,
        decreases text@.len() - v@.len(),
    {
        match it.next() {
            Some(c) => {
                v.push(c);
            },
            None => {
                break ;
            },
        }
    }
    v
}

/// The character of a decimal digit.
pub open spec fn digit_char(digit: int) -> char {
    if digit == 0 {
        '0'
    } else if digit == 1 {
        '1'
    } else if digit == 2 {
        '2'
    } else if digit == 3 {
        '3'
    } else if digit == 4 {
        '4'
    } else if digit == 5 {
        '5'
    } else if digit == 6 {
        '6'
    } else if digit == 7 {
        '7'
    } else if digit == 8 {
        '8'
    } else {
        '9'
    }
}

/// The decimal digits of a natural number, without leading zeros.
pub open spec fn decimal_digits(n: nat) -> Seq<char>
    decreases n,
{
    if n < 10 {
        seq![digit_char(n as int)]
    } else {
        decimal_digits(n / 10).push(digit_char((n % 10) as int))
    }
}

/// An integer in decimal, with `-` before a negative one.
pub open spec fn decimal_text(n: int) -> Seq<char> {
    if n < 0 {
        seq!['-'] + decimal_digits((-n) as nat)
    } else {
        decimal_digits(n as nat)
    }
}

/// Appends the decimal digits of `n` to `text`.
pub fn push_decimal(text: &mut String, n: u64)
    ensures
        final(text)@ == old(text)@ + decimal_digits(n as nat),
    decreases n,
{
    if n >= 10 {
        push_decimal(text, n / 10);
    }
    let digit: u64 = n % 10;
    let c: char = if digit == 0 {
        '0'
    } else if digit == 1 {
        '1'
    } else if digit == 2 {
        '2'
    } else if digit == 3 {
        '3'
    } else if digit == 4 {
        '4'
    } else if digit == 5 {
        '5'
    } else if digit == 6 {
        '6'
    } else if digit == 7 {
        '7'
    } else if digit == 8 {
        '8'
    } else {
        '9'
    };
    text.push(c);
    proof {
        if n >= 10 {
            assert(old(text)@ + decimal_digits(n as nat) =~= (old(text)@ + decimal_digits(
                (n / 10) as nat,
            )).push(c));
        } else {
            assert(old(text)@ + decimal_digits(n as nat) =~= old(text)@.push(c));
        }
    }
}

/// Whether `left` comes before `right` where texts are ordered character
/// by character, and a text comes behind its own beginnings.
pub open spec fn text_before(left: Seq<char>, right: Seq<char>) -> bool
    decreases left.len(),
{
    if right.len() == 0 {
        false
    } else if left.len() == 0 {
        true
    } else if left[0] != right[0] {
        left[0] < right[0]
    } else {
        text_before(left.drop_first(), right.drop_first())
    }
}

/// Whether `left` comes before `right` in the order of texts.
pub fn comes_before(left: &Vec<char>, right: &Vec<char>) -> (before: bool)
    ensures
        before == text_before(left@, right@),
{
    let mut i: usize = 0;
    assert(left@.skip(0) =~= left@ && right@.skip(0) =~= right@);
    loop
        invariant
            i <= left@.len(),
            i <= right@.len(),
            text_before(left@, right@) == text_before(left@.skip(i as int), right@.skip(i as int)),
        decreases left@.len() - i,
    {
        if i >= right.len() {
            return false;
        }
        if i >= left.len() {
            return true;
        }
        proof {
            assert(left@.skip(i as int)[0] == left@[i as int]);
            assert(right@.skip(i as int)[0] == right@[i as int]);
            assert(left@.skip(i as int).drop_first() =~= left@.skip(i + 1));
            assert(right@.skip(i as int).drop_first() =~= right@.skip(i + 1));
        }
        if left[i] != right[i] {
            return left[i] < right[i];
        }
        i = i + 1;
    }
}

} // verus!
