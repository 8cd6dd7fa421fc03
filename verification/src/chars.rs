//! Character classes of the scanner, and the few operations on `char` and
//! `String` that the standard library supplies.
use vstd::prelude::*;
use vstd::string::*;

verus! {

/// Whether `c` has the Unicode property Alphabetic, as `char::is_alphabetic`
/// decides it.
pub uninterp spec fn unicode_alphabetic(c: char) -> bool;

/// Whether `c` is alphabetic or numeric in the sense of Unicode, as
/// `char::is_alphanumeric` decides it.
pub uninterp spec fn unicode_alphanumeric(c: char) -> bool;

/// `char::is_alphabetic` looks the character up in the Unicode tables of the
/// standard library. The answer depends on the character alone; nothing else
/// is claimed of it.
pub assume_specification[ char::is_alphabetic ](c: char) -> (b: bool)
    ensures
        b == unicode_alphabetic(c),
;

/// `char::is_alphanumeric` looks the character up in the Unicode tables of the
/// standard library. The answer depends on the character alone; nothing else
/// is claimed of it.
pub assume_specification[ char::is_alphanumeric ](c: char) -> (b: bool)
    ensures
        b == unicode_alphanumeric(c),
;

/// `String::push` appends one character to the end of the string.
pub assume_specification[ String::push ](s: &mut String, c: char)
    ensures
        final(s)@ == old(s)@.push(c),
;

/// A decimal digit `0` to `9`.
pub open spec fn is_digit(c: char) -> bool {
    '0' <= c && c <= '9'
}

/// Space, tab or carriage return: what separates tokens on a line.
pub open spec fn is_blank(c: char) -> bool {
    c == ' ' || c == '\t' || c == '\r'
}

/// A character that may not stand inside a string literal.
pub open spec fn is_forbidden_in_string(c: char) -> bool {
    c == '\r' || c == '\n' || c == '\t' || c == '\\' || c == '%'
}

/// The sets of characters of which the scanner consumes maximal runs.
#[derive(Clone, Copy, Debug, PartialEq, Eq, Structural)]
pub enum CharClass {
    /// Blanks between tokens.
    Blank,
    /// Decimal digits.
    Digit,
    /// Letters and digits, the body of an identifier or keyword.
    Word,
    /// Everything up to the end of the line, the body of a comment.
    Comment,
    /// Everything that continues a string literal: neither the closing quote
    /// nor a forbidden character.
    StringBody,
}

/// Membership of a character in a class.
pub open spec fn in_class(class: CharClass, c: char) -> bool {
    match class {
        CharClass::Blank => is_blank(c),
        CharClass::Digit => is_digit(c),
        CharClass::Word => unicode_alphanumeric(c),
        CharClass::Comment => c != '\n',
        CharClass::StringBody => c != '"' && !is_forbidden_in_string(c),
    }
}

/// Decides `is_digit`.
pub fn char_is_digit(c: char) -> (b: bool)
    ensures
        b == is_digit(c),
{
    '0' <= c && c <= '9'
}

/// Decides `is_blank`.
pub fn char_is_blank(c: char) -> (b: bool)
    ensures
        b == is_blank(c),
{
    c == ' ' || c == '\t' || c == '\r'
}

/// Decides `in_class`.
pub fn char_in_class(class: CharClass, c: char) -> (b: bool)
    ensures
        b == in_class(class, c),
{
    match class {
        CharClass::Blank => char_is_blank(c),
        CharClass::Digit => char_is_digit(c),
        CharClass::Word => c.is_alphanumeric(),
        CharClass::Comment => c != '\n',
        CharClass::StringBody => !(c == '"' || c == '\r' || c == '\n' || c == '\t' || c == '\\'
            || c == '%'),
    }
}

/// The characters of a string, in order.
pub fn string_chars(s: &String) -> (v: Vec<char>)
    ensures
        v@ == s@,
{
    let mut v: Vec<char> = Vec::new();
    let text = s.as_str();
    for c in it: text.chars()
        invariant
            v@ == it.seq().take(it.index() as int),
    {
        v.push(c);
    }
    v
}

/// The string made of the characters `chars[from..to]`.
pub fn string_of_range(chars: &Vec<char>, from: usize, to: usize) -> (s: String)
    requires
        from <= to <= chars.len(),
    ensures
        s@ == chars@.subrange(from as int, to as int),
{
    let mut s = String::new();
    let mut i: usize = from;
    while i < to
        invariant
            from <= i <= to <= chars.len(),
            s@ == chars@.subrange(from as int, i as int),
        decreases to - i,
    {
        s.push(chars[i]);
        i += 1;
    }
    s
}

/// `first`, then `second`.
pub fn join(first: &str, second: &str) -> (text: String)
    ensures
        text@ == first@ + second@,
{
    let mut text = String::from_str(first);
    text.append(second);
    text
}

/// `first`, then `second`, then `third`.
pub fn join3(first: &str, second: &str, third: &str) -> (text: String)
    ensures
        text@ == first@ + second@ + third@,
{
    let mut text = String::from_str(first);
    text.append(second);
    text.append(third);
    text
}

} // verus!
