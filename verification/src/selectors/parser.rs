//! The text of a selector, read into a flat list of items: tests on an element,
//! the combinators between them, and the commas between alternatives.
//!
//! A selector is matched when the start tag of an element is read, so it can
//! only ask what is known then: the element, its ancestors and the siblings
//! before it. The pseudo-classes that depend on what follows the element are
//! therefore refused with [`SelectorError::UnsupportedPseudoClass`]:
//! `:last-child`, `:last-of-type`, `:nth-last-child()`, `:nth-last-of-type()`,
//! `:only-child`, `:only-of-type` and `:empty`. So is every other
//! pseudo-class but `:first-child`, `:first-of-type`, `:nth-child()`,
//! `:nth-of-type()` and `:not()`.

use vstd::prelude::*;
use vstd::string::StrSliceExecFns;
use crate::tokenizer::eager::Span;

verus! {

/// Why the text is no selector that the rewriter can match.
#[derive(Clone, Copy, PartialEq, Eq, Structural, Debug)]
pub enum SelectorError {
    /// The text ended where more was expected.
    UnexpectedEnd,
    /// A character stands where it cannot.
    UnexpectedCharacter,
    /// A name was expected.
    MissingName,
    /// A pseudo-class that cannot be decided when the start tag is read (such
    /// as `:last-child`), or that is not known.
    UnsupportedPseudoClass,
    /// `:not(` with `:not(` inside.
    NestedNegation,
    /// A number of more than nine digits.
    NumberTooLarge,
}

/// How the value of an attribute is compared.
#[derive(Clone, Copy, PartialEq, Eq, Structural, Debug)]
pub enum AttributeOperator {
    /// `[name]`
    Exists,
    /// `[name=value]`
    Equals,
    /// `[name~=value]`
    Includes,
    /// `[name|=value]`
    DashMatch,
    /// `[name^=value]`
    Prefix,
    /// `[name$=value]`
    Suffix,
    /// `[name*=value]`
    Substring,
}

/// A test on one element. Names and values are given by their place in the
/// text of the selector.
#[derive(Clone, Copy, PartialEq, Eq, Structural, Debug)]
pub enum Test {
    /// `*`
    Any,
    /// A type selector.
    LocalName(Span),
    /// `#id`
    Id(Span),
    /// `.class`
    Class(Span),
    /// `[name op value]`, with `i` behind the value if `ignore_case`.
    Attribute { name: Span, operator: AttributeOperator, value: Span, ignore_case: bool },
    /// `:nth-child(an+b)`, or `:nth-of-type(an+b)` if `of_type`.
    Nth { a: i32, b: i32, of_type: bool },
}

/// An item of a selector.
#[derive(Clone, Copy, PartialEq, Eq, Structural, Debug)]
pub enum Item {
    /// A test, inside `:not(..)` if `negated`.
    Test { negated: bool, test: Test },
    /// Whitespace between two compound selectors.
    Descendant,
    /// `>`
    Child,
    /// `+`
    Adjacent,
    /// `~`
    Sibling,
    /// `,`
    Or,
}

pub open spec fn is_space(c: char) -> bool {
    c == ' ' || c == '\t' || c == '\n' || c == '\r' || c == '\x0C'
}

pub open spec fn is_digit(c: char) -> bool {
    0x30 <= c as u32 && c as u32 <= 0x39
}

/// A character that can begin a name: a letter, `_`, `-`, or one that is not
/// ASCII.
pub open spec fn is_name_start(c: char) -> bool {
    (0x41 <= c as u32 && c as u32 <= 0x5A) || (0x61 <= c as u32 && c as u32 <= 0x7A) || c == '_'
        || c == '-' || c as u32 >= 0x80
}

/// A character that can stand in a name.
pub open spec fn is_name_char(c: char) -> bool {
    is_name_start(c) || is_digit(c)
}

/// The first place from `i` on where no whitespace stands.
pub open spec fn skip_space(s: Seq<char>, i: usize) -> usize
    decreases s.len() - i,
{
    if i < s.len() && i < usize::MAX && is_space(s[i as int]) {
        skip_space(s, (i + 1) as usize)
    } else {
        i
    }
}

/// The first place from `i` on where no character of a name stands.
pub open spec fn name_end(s: Seq<char>, i: usize) -> usize
    decreases s.len() - i,
{
    if i < s.len() && i < usize::MAX && is_name_char(s[i as int]) {
        name_end(s, (i + 1) as usize)
    } else {
        i
    }
}

/// The first place from `i` on where the character `c` stands, or the end.
pub open spec fn find_char(s: Seq<char>, i: usize, c: char) -> usize
    decreases s.len() - i,
{
    if i < s.len() && i < usize::MAX && s[i as int] != c {
        find_char(s, (i + 1) as usize, c)
    } else {
        i
    }
}

/// The number that the digits from the place `i` on write behind the digits
/// that gave `acc`, and the place behind them.
pub open spec fn number_from(s: Seq<char>, i: usize, acc: u32) -> Result<(u32, usize), SelectorError>
    decreases s.len() - i,
{
    if i < s.len() && i < usize::MAX && is_digit(s[i as int]) {
        if acc > 99_999_999 {
            Err(SelectorError::NumberTooLarge)
        } else {
            number_from(s, (i + 1) as usize, (acc * 10 + (s[i as int] as u32 - 0x30)) as u32)
        }
    } else {
        Ok((acc, i))
    }
}

/// Whether the word stands in the text from `from` to `to`.
pub open spec fn word_is(s: Seq<char>, from: usize, to: usize, word: Seq<char>) -> bool {
    from <= to <= s.len() && s.subrange(from as int, to as int) == word
}

/// The number with the sign: negative if `minus`.
pub open spec fn signed(minus: bool, n: u32) -> i32 {
    if minus {
        (0 - n) as i32
    } else {
        n as i32
    }
}

/// What stands between the brackets of `:nth-child(..)`, from the place `i`
/// on: `odd`, `even`, a number `b`, or `an`, `an+b`, `an-b` where `a` may be
/// left out or be a bare sign. Gives `a`, `b` and the place behind.
pub open spec fn parse_nth(s: Seq<char>, i: usize) -> Result<(i32, i32, usize), SelectorError> {
    let e = name_end(s, i);
    if word_is(s, i, e, "odd"@) {
        Ok((2, 1, e))
    } else if word_is(s, i, e, "even"@) {
        Ok((2, 0, e))
    } else if i >= s.len() {
        Err(SelectorError::UnexpectedEnd)
    } else {
        let minus = s[i as int] == '-';
        let j: usize = if (s[i as int] == '-' || s[i as int] == '+') && i < usize::MAX {
            (i + 1) as usize
        } else {
            i
        };
        match number_from(s, j, 0) {
            Err(e) => Err(e),
            Ok((n, k)) => if k < s.len() && k < usize::MAX && (s[k as int] == 'n' || s[k as int]
                == 'N') {
                let a = signed(
                    minus,
                    if k == j {
                        1
                    } else {
                        n
                    },
                );
                let p = skip_space(s, (k + 1) as usize);
                if p < s.len() && p < usize::MAX && (s[p as int] == '+' || s[p as int] == '-') {
                    let q = skip_space(s, (p + 1) as usize);
                    match number_from(s, q, 0) {
                        Err(e) => Err(e),
                        Ok((m, r)) => if r == q {
                            Err(SelectorError::UnexpectedCharacter)
                        } else {
                            Ok((a, signed(s[p as int] == '-', m), r))
                        },
                    }
                } else {
                    Ok((a, 0, (k + 1) as usize))
                }
            } else if k == j {
                Err(SelectorError::UnexpectedCharacter)
            } else {
                Ok((0, signed(minus, n), k))
            },
        }
    }
}

/// The operator that stands at the place `i`, and the place behind it.
pub open spec fn parse_operator(s: Seq<char>, i: usize) -> Result<
    (AttributeOperator, usize),
    SelectorError,
> {
    if i >= s.len() || i >= usize::MAX {
        Err(SelectorError::UnexpectedEnd)
    } else if s[i as int] == '=' {
        Ok((AttributeOperator::Equals, (i + 1) as usize))
    } else if i + 1 >= s.len() || i + 1 >= usize::MAX {
        Err(SelectorError::UnexpectedEnd)
    } else if s[i + 1] != '=' {
        Err(SelectorError::UnexpectedCharacter)
    } else if s[i as int] == '~' {
        Ok((AttributeOperator::Includes, (i + 2) as usize))
    } else if s[i as int] == '|' {
        Ok((AttributeOperator::DashMatch, (i + 2) as usize))
    } else if s[i as int] == '^' {
        Ok((AttributeOperator::Prefix, (i + 2) as usize))
    } else if s[i as int] == '$' {
        Ok((AttributeOperator::Suffix, (i + 2) as usize))
    } else if s[i as int] == '*' {
        Ok((AttributeOperator::Substring, (i + 2) as usize))
    } else {
        Err(SelectorError::UnexpectedCharacter)
    }
}

/// The value that stands at the place `i`: a name, or a text between quotes.
/// Gives where the value stands and the place behind it.
pub open spec fn parse_value(s: Seq<char>, i: usize) -> Result<(Span, usize), SelectorError> {
    if i >= s.len() || i >= usize::MAX {
        Err(SelectorError::UnexpectedEnd)
    } else if s[i as int] == '"' || s[i as int] == '\'' {
        let close = find_char(s, (i + 1) as usize, s[i as int]);
        if close >= s.len() || close >= usize::MAX {
            Err(SelectorError::UnexpectedEnd)
        } else {
            Ok((Span { start: (i + 1) as usize, end: close }, (close + 1) as usize))
        }
    } else {
        let e = name_end(s, i);
        if e == i {
            Err(SelectorError::UnexpectedCharacter)
        } else {
            Ok((Span { start: i, end: e }, e))
        }
    }
}

/// The attribute test whose text begins at the place `i`, behind `[`.
pub open spec fn parse_attribute(s: Seq<char>, i: usize) -> Result<(Test, usize), SelectorError> {
    let n = skip_space(s, i);
    let e = name_end(s, n);
    let k = skip_space(s, e);
    if e == n {
        if n >= s.len() {
            Err(SelectorError::UnexpectedEnd)
        } else {
            Err(SelectorError::MissingName)
        }
    } else if k >= s.len() || k >= usize::MAX {
        Err(SelectorError::UnexpectedEnd)
    } else if s[k as int] == ']' {
        Ok(
            (
                Test::Attribute {
                    name: Span { start: n, end: e },
                    operator: AttributeOperator::Exists,
                    value: Span { start: e, end: e },
                    ignore_case: false,
                },
                (k + 1) as usize,
            ),
        )
    } else {
        match parse_operator(s, k) {
            Err(e) => Err(e),
            Ok((operator, v)) => match parse_value(s, skip_space(s, v)) {
                Err(e) => Err(e),
                Ok((value, w)) => {
                    let f = skip_space(s, w);
                    let flag = f < s.len() && f < usize::MAX && (s[f as int] == 'i' || s[f as int]
                        == 'I' || s[f as int] == 's' || s[f as int] == 'S');
                    let c = skip_space(
                        s,
                        if flag {
                            (f + 1) as usize
                        } else {
                            f
                        },
                    );
                    if c >= s.len() || c >= usize::MAX {
                        Err(SelectorError::UnexpectedEnd)
                    } else if s[c as int] != ']' {
                        Err(SelectorError::UnexpectedCharacter)
                    } else {
                        Ok(
                            (
                                Test::Attribute {
                                    name: Span { start: n, end: e },
                                    operator,
                                    value,
                                    ignore_case: flag && (s[f as int] == 'i' || s[f as int]
                                        == 'I'),
                                },
                                (c + 1) as usize,
                            ),
                        )
                    }
                },
            },
        }
    }
}

/// Whether `)` stands at the first place from `i` on that is not whitespace;
/// with it, the place behind.
pub open spec fn parse_close(s: Seq<char>, i: usize) -> Result<usize, SelectorError> {
    let c = skip_space(s, i);
    if c >= s.len() || c >= usize::MAX {
        Err(SelectorError::UnexpectedEnd)
    } else if s[c as int] != ')' {
        Err(SelectorError::UnexpectedCharacter)
    } else {
        Ok((c + 1) as usize)
    }
}

/// The test whose text begins at the place `i`, and the place behind it. A type
/// selector and `*` are read only where `first`, at the start of a compound
/// selector; `:not(..)` only where `outer`, not inside another.
pub open spec fn parse_test(s: Seq<char>, i: usize, first: bool, outer: bool) -> Result<
    (bool, Test, usize),
    SelectorError,
>
    decreases
            if outer {
                1int
            } else {
                0int
            },
{
    if i >= s.len() || i >= usize::MAX {
        Err(SelectorError::UnexpectedEnd)
    } else {
        let c = s[i as int];
        let next = (i + 1) as usize;
        let e = name_end(s, next);
        if c == '*' && first {
            Ok((false, Test::Any, next))
        } else if is_name_start(c) && first {
            Ok((false, Test::LocalName(Span { start: i, end: name_end(s, i) }), name_end(s, i)))
        } else if c == '#' || c == '.' {
            if e == next {
                Err(SelectorError::MissingName)
            } else if c == '#' {
                Ok((false, Test::Id(Span { start: next, end: e }), e))
            } else {
                Ok((false, Test::Class(Span { start: next, end: e }), e))
            }
        } else if c == '[' {
            match parse_attribute(s, next) {
                Err(e) => Err(e),
                Ok((test, k)) => Ok((false, test, k)),
            }
        } else if c == ':' {
            let open = e < s.len() && e < usize::MAX && s[e as int] == '(';
            let inside = skip_space(s, (e + 1) as usize);
            if word_is(s, next, e, "first-child"@) {
                Ok((false, Test::Nth { a: 0, b: 1, of_type: false }, e))
            } else if word_is(s, next, e, "first-of-type"@) {
                Ok((false, Test::Nth { a: 0, b: 1, of_type: true }, e))
            } else if (word_is(s, next, e, "nth-child"@) || word_is(s, next, e, "nth-of-type"@))
                && open {
                match parse_nth(s, inside) {
                    Err(e) => Err(e),
                    Ok((a, b, k)) => match parse_close(s, k) {
                        Err(e) => Err(e),
                        Ok(k) => Ok(
                            (false, Test::Nth { a, b, of_type: word_is(s, next, e, "nth-of-type"@) }, k),
                        ),
                    },
                }
            } else if word_is(s, next, e, "not"@) && open {
                if !outer {
                    Err(SelectorError::NestedNegation)
                } else {
                    match parse_test(s, inside, true, false) {
                        Err(e) => Err(e),
                        Ok((_, test, k)) => match parse_close(s, k) {
                            Err(e) => Err(e),
                            Ok(k) => Ok((true, test, k)),
                        },
                    }
                }
            } else {
                Err(SelectorError::UnsupportedPseudoClass)
            }
        } else {
            Err(SelectorError::UnexpectedCharacter)
        }
    }
}

/// Whether a test can begin with the character when it does not stand first in
/// its compound selector.
pub open spec fn begins_test(c: char) -> bool {
    c == '#' || c == '.' || c == '[' || c == ':'
}

/// The items of the selector whose text from the place `i` on is still to be
/// read, behind the items that were read. Where `inside`, the text so far ends
/// in a compound selector, which a test may lengthen; otherwise a compound
/// selector must follow.
pub open spec fn parse_items(s: Seq<char>, i: usize, items: Seq<Item>, inside: bool) -> Result<
    Seq<Item>,
    SelectorError,
>
    decreases s.len() - i,
{
    let j = skip_space(s, i);
    if j < i {
        Err(SelectorError::UnexpectedEnd)
    } else if inside && i < s.len() && begins_test(s[i as int]) {
        match parse_test(s, i, false, true) {
            Err(e) => Err(e),
            Ok((negated, test, k)) => if i < k <= s.len() {
                parse_items(s, k, items.push(Item::Test { negated, test }), true)
            } else {
                Err(SelectorError::UnexpectedEnd)
            },
        }
    } else if j >= s.len() || j >= usize::MAX {
        if inside {
            Ok(items)
        } else {
            Err(SelectorError::UnexpectedEnd)
        }
    } else if !inside {
        match parse_test(s, j, true, true) {
            Err(e) => Err(e),
            Ok((negated, test, k)) => if j < k <= s.len() {
                parse_items(s, k, items.push(Item::Test { negated, test }), true)
            } else {
                Err(SelectorError::UnexpectedEnd)
            },
        }
    } else if s[j as int] == ',' {
        parse_items(s, (j + 1) as usize, items.push(Item::Or), false)
    } else if s[j as int] == '>' {
        parse_items(s, (j + 1) as usize, items.push(Item::Child), false)
    } else if s[j as int] == '+' {
        parse_items(s, (j + 1) as usize, items.push(Item::Adjacent), false)
    } else if s[j as int] == '~' {
        parse_items(s, (j + 1) as usize, items.push(Item::Sibling), false)
    } else if j > i {
        parse_items(s, j, items.push(Item::Descendant), false)
    } else {
        Err(SelectorError::UnexpectedCharacter)
    }
}

/// The items of the selector with the given text.
pub open spec fn parse_selector(s: Seq<char>) -> Result<Seq<Item>, SelectorError> {
    parse_items(s, 0, Seq::empty(), false)
}

/// Whether every name and value of the test lies inside `len` characters.
pub open spec fn test_within(test: Test, len: int) -> bool {
    match test {
        Test::LocalName(n) | Test::Id(n) | Test::Class(n) => n.within(len),
        Test::Attribute { name, value, .. } => name.within(len) && value.within(len),
        _ => true,
    }
}

/// Whether every name and value of the items lies inside `len` characters.
pub open spec fn items_within(items: Seq<Item>, len: int) -> bool {
    forall|k: int|
        0 <= k < items.len() ==> match #[trigger] items[k] {
            Item::Test { test, .. } => test_within(test, len),
            _ => true,
        }
}

fn is_space_char(c: char) -> (r: bool)
    ensures
        r == is_space(c),
{
    c == ' ' || c == '\t' || c == '\n' || c == '\r' || c == '\x0C'
}

fn is_digit_char(c: char) -> (r: bool)
    ensures
        r == is_digit(c),
{
    0x30 <= c as u32 && c as u32 <= 0x39
}

fn is_name_start_char(c: char) -> (r: bool)
    ensures
        r == is_name_start(c),
{
    (0x41 <= c as u32 && c as u32 <= 0x5A) || (0x61 <= c as u32 && c as u32 <= 0x7A) || c == '_'
        || c == '-' || c as u32 >= 0x80
}

fn is_name_char_at(c: char) -> (r: bool)
    ensures
        r == is_name_char(c),
{
    is_name_start_char(c) || is_digit_char(c)
}

fn skip_space_in(chars: &Vec<char>, from: usize) -> (r: usize)
    requires
        from <= chars@.len(),
    ensures
        r == skip_space(chars@, from),
        from <= r <= chars@.len(),
{
    let mut i: usize = from;
    while i < chars.len() && is_space_char(chars[i])
        invariant
            from <= i <= chars@.len(),
            skip_space(chars@, from) == skip_space(chars@, i),
        decreases chars@.len() - i,
    {
        i = i + 1;
    }
    i
}

fn name_end_in(chars: &Vec<char>, from: usize) -> (r: usize)
    requires
        from <= chars@.len(),
    ensures
        r == name_end(chars@, from),
        from <= r <= chars@.len(),
{
    let mut i: usize = from;
    while i < chars.len() && is_name_char_at(chars[i])
        invariant
            from <= i <= chars@.len(),
            name_end(chars@, from) == name_end(chars@, i),
        decreases chars@.len() - i,
    {
        i = i + 1;
    }
    i
}

fn find_char_in(chars: &Vec<char>, from: usize, c: char) -> (r: usize)
    requires
        from <= chars@.len(),
    ensures
        r == find_char(chars@, from, c),
        from <= r <= chars@.len(),
{
    let mut i: usize = from;
    while i < chars.len() && chars[i] != c
        invariant
            from <= i <= chars@.len(),
            find_char(chars@, from, c) == find_char(chars@, i, c),
        decreases chars@.len() - i,
    {
        i = i + 1;
    }
    i
}

fn read_number(chars: &Vec<char>, from: usize) -> (r: Result<(u32, usize), SelectorError>)
    requires
        from <= chars@.len(),
    ensures
        r == number_from(chars@, from, 0),
        r matches Ok((_, k)) ==> from <= k <= chars@.len(),
{
    let mut i: usize = from;
    let mut acc: u32 = 0;
    while i < chars.len() && is_digit_char(chars[i])
        invariant
            from <= i <= chars@.len(),
            number_from(chars@, from, 0) == number_from(chars@, i, acc),
        decreases chars@.len() - i,
    {
        if acc > 99_999_999 {
            return Err(SelectorError::NumberTooLarge);
        }
        acc = acc * 10 + (chars[i] as u32 - 0x30);
        i = i + 1;
    }
    Ok((acc, i))
}

fn has_word(chars: &Vec<char>, from: usize, to: usize, word: &str) -> (r: bool)
    ensures
        r == word_is(chars@, from, to, word@),
{
    if from > to || to > chars.len() {
        return false;
    }
    let n = word.unicode_len();
    if to - from != n {
        assert(chars@.subrange(from as int, to as int).len() != word@.len());
        return false;
    }
    let mut j: usize = 0;
    while j < n
        invariant
            from <= to <= chars@.len(),
            to - from == n,
            n == word@.len(),
            j <= n,
            forall|k: int| 0 <= k < j ==> chars@[from + k] == word@[k],
        decreases n - j,
    {
        if chars[from + j] != word.get_char(j) {
            assert(chars@.subrange(from as int, to as int)[j as int] != word@[j as int]);
            return false;
        }
        j = j + 1;
    }
    assert(chars@.subrange(from as int, to as int) =~= word@);
    true
}

fn with_sign(minus: bool, n: u32) -> (r: i32)
    requires
        n <= 1_000_000_000,
    ensures
        r == signed(minus, n),
{
    if minus {
        0 - (n as i32)
    } else {
        n as i32
    }
}

/// The largest number that nine digits write.
pub proof fn lemma_number_bound(s: Seq<char>, i: usize, acc: u32)
    requires
        acc <= 999_999_999,
    ensures
        number_from(s, i, acc) matches Ok((n, _)) ==> n <= 999_999_999,
    decreases s.len() - i,
{
    if i < s.len() && i < usize::MAX && is_digit(s[i as int]) && acc <= 99_999_999 {
        lemma_number_bound(s, (i + 1) as usize, (acc * 10 + (s[i as int] as u32 - 0x30)) as u32);
    }
}

fn read_nth(chars: &Vec<char>, i: usize) -> (r: Result<(i32, i32, usize), SelectorError>)
    requires
        i <= chars@.len(),
    ensures
        r == parse_nth(chars@, i),
        r matches Ok((_, _, k)) ==> i <= k <= chars@.len(),
{
    let len: usize = chars.len();
    let e = name_end_in(chars, i);
    if has_word(chars, i, e, "odd") {
        return Ok((2, 1, e));
    }
    if has_word(chars, i, e, "even") {
        return Ok((2, 0, e));
    }
    if i >= len {
        return Err(SelectorError::UnexpectedEnd);
    }
    let minus = chars[i] == '-';
    let j: usize = if chars[i] == '-' || chars[i] == '+' {
        i + 1
    } else {
        i
    };
    proof {
        lemma_number_bound(chars@, j, 0);
    }
    let (n, k) = read_number(chars, j)?;
    if k < len && (chars[k] == 'n' || chars[k] == 'N') {
        let a = with_sign(
            minus,
            if k == j {
                1
            } else {
                n
            },
        );
        let p = skip_space_in(chars, k + 1);
        if p < len && (chars[p] == '+' || chars[p] == '-') {
            let q = skip_space_in(chars, p + 1);
            proof {
                lemma_number_bound(chars@, q, 0);
            }
            let (m, r) = read_number(chars, q)?;
            if r == q {
                Err(SelectorError::UnexpectedCharacter)
            } else {
                Ok((a, with_sign(chars[p] == '-', m), r))
            }
        } else {
            Ok((a, 0, k + 1))
        }
    } else if k == j {
        Err(SelectorError::UnexpectedCharacter)
    } else {
        Ok((0, with_sign(minus, n), k))
    }
}

fn read_operator(chars: &Vec<char>, i: usize) -> (r: Result<(AttributeOperator, usize), SelectorError>)
    requires
        i <= chars@.len(),
    ensures
        r == parse_operator(chars@, i),
        r matches Ok((_, k)) ==> i < k <= chars@.len(),
{
    let len: usize = chars.len();
    if i >= len {
        Err(SelectorError::UnexpectedEnd)
    } else if chars[i] == '=' {
        Ok((AttributeOperator::Equals, i + 1))
    } else if i + 1 >= len {
        Err(SelectorError::UnexpectedEnd)
    } else if chars[i + 1] != '=' {
        Err(SelectorError::UnexpectedCharacter)
    } else if chars[i] == '~' {
        Ok((AttributeOperator::Includes, i + 2))
    } else if chars[i] == '|' {
        Ok((AttributeOperator::DashMatch, i + 2))
    } else if chars[i] == '^' {
        Ok((AttributeOperator::Prefix, i + 2))
    } else if chars[i] == '$' {
        Ok((AttributeOperator::Suffix, i + 2))
    } else if chars[i] == '*' {
        Ok((AttributeOperator::Substring, i + 2))
    } else {
        Err(SelectorError::UnexpectedCharacter)
    }
}

fn read_value(chars: &Vec<char>, i: usize) -> (r: Result<(Span, usize), SelectorError>)
    requires
        i <= chars@.len(),
    ensures
        r == parse_value(chars@, i),
        r matches Ok((v, k)) ==> i < k <= chars@.len() && v.within(chars@.len() as int),
{
    let len: usize = chars.len();
    if i >= len {
        Err(SelectorError::UnexpectedEnd)
    } else if chars[i] == '"' || chars[i] == '\'' {
        let close = find_char_in(chars, i + 1, chars[i]);
        if close >= len {
            Err(SelectorError::UnexpectedEnd)
        } else {
            Ok((Span { start: i + 1, end: close }, close + 1))
        }
    } else {
        let e = name_end_in(chars, i);
        if e == i {
            Err(SelectorError::UnexpectedCharacter)
        } else {
            Ok((Span { start: i, end: e }, e))
        }
    }
}

fn read_attribute(chars: &Vec<char>, i: usize) -> (r: Result<(Test, usize), SelectorError>)
    requires
        i <= chars@.len(),
    ensures
        r == parse_attribute(chars@, i),
        r matches Ok((t, k)) ==> i < k <= chars@.len() && test_within(t, chars@.len() as int),
{
    let len: usize = chars.len();
    let n = skip_space_in(chars, i);
    let e = name_end_in(chars, n);
    let k = skip_space_in(chars, e);
    if e == n {
        if n >= len {
            Err(SelectorError::UnexpectedEnd)
        } else {
            Err(SelectorError::MissingName)
        }
    } else if k >= len {
        Err(SelectorError::UnexpectedEnd)
    } else if chars[k] == ']' {
        Ok(
            (
                Test::Attribute {
                    name: Span { start: n, end: e },
                    operator: AttributeOperator::Exists,
                    value: Span { start: e, end: e },
                    ignore_case: false,
                },
                k + 1,
            ),
        )
    } else {
        let (operator, v) = read_operator(chars, k)?;
        let (value, w) = read_value(chars, skip_space_in(chars, v))?;
        let f = skip_space_in(chars, w);
        let flag = f < len && (chars[f] == 'i' || chars[f] == 'I' || chars[f] == 's' || chars[f]
            == 'S');
        let c = skip_space_in(
            chars,
            if flag {
                f + 1
            } else {
                f
            },
        );
        if c >= len {
            Err(SelectorError::UnexpectedEnd)
        } else if chars[c] != ']' {
            Err(SelectorError::UnexpectedCharacter)
        } else {
            Ok(
                (
                    Test::Attribute {
                        name: Span { start: n, end: e },
                        operator,
                        value,
                        ignore_case: flag && (chars[f] == 'i' || chars[f] == 'I'),
                    },
                    c + 1,
                ),
            )
        }
    }
}

fn read_close(chars: &Vec<char>, i: usize) -> (r: Result<usize, SelectorError>)
    requires
        i <= chars@.len(),
    ensures
        r == parse_close(chars@, i),
        r matches Ok(k) ==> i < k <= chars@.len(),
{
    let c = skip_space_in(chars, i);
    if c >= chars.len() {
        Err(SelectorError::UnexpectedEnd)
    } else if chars[c] != ')' {
        Err(SelectorError::UnexpectedCharacter)
    } else {
        Ok(c + 1)
    }
}

fn read_test(chars: &Vec<char>, i: usize, first: bool, outer: bool) -> (r: Result<
    (bool, Test, usize),
    SelectorError,
>)
    requires
        i <= chars@.len(),
    ensures
        r == parse_test(chars@, i, first, outer),
        r matches Ok((_, t, k)) ==> i < k <= chars@.len() && test_within(t, chars@.len() as int),
    decreases
            if outer {
                1int
            } else {
                0int
            },
{
    let len: usize = chars.len();
    if i >= len {
        return Err(SelectorError::UnexpectedEnd);
    }
    let c = chars[i];
    let next: usize = i + 1;
    let e = name_end_in(chars, next);
    if c == '*' && first {
        Ok((false, Test::Any, next))
    } else if is_name_start_char(c) && first {
        let end = name_end_in(chars, i);
        Ok((false, Test::LocalName(Span { start: i, end }), end))
    } else if c == '#' || c == '.' {
        if e == next {
            Err(SelectorError::MissingName)
        } else if c == '#' {
            Ok((false, Test::Id(Span { start: next, end: e }), e))
        } else {
            Ok((false, Test::Class(Span { start: next, end: e }), e))
        }
    } else if c == '[' {
        let (test, k) = read_attribute(chars, next)?;
        Ok((false, test, k))
    } else if c == ':' {
        let open = e < len && chars[e] == '(';
        if has_word(chars, next, e, "first-child") {
            Ok((false, Test::Nth { a: 0, b: 1, of_type: false }, e))
        } else if has_word(chars, next, e, "first-of-type") {
            Ok((false, Test::Nth { a: 0, b: 1, of_type: true }, e))
        } else if (has_word(chars, next, e, "nth-child") || has_word(
            chars,
            next,
            e,
            "nth-of-type",
        )) && open {
            let inside = skip_space_in(chars, e + 1);
            let (a, b, k) = read_nth(chars, inside)?;
            let k = read_close(chars, k)?;
            Ok((false, Test::Nth { a, b, of_type: has_word(chars, next, e, "nth-of-type") }, k))
        } else if has_word(chars, next, e, "not") && open {
            if !outer {
                Err(SelectorError::NestedNegation)
            } else {
                let inside = skip_space_in(chars, e + 1);
                let (_, test, k) = read_test(chars, inside, true, false)?;
                let k = read_close(chars, k)?;
                Ok((true, test, k))
            }
        } else {
            Err(SelectorError::UnsupportedPseudoClass)
        }
    } else {
        Err(SelectorError::UnexpectedCharacter)
    }
}

fn read_items(chars: &Vec<char>) -> (r: Result<Vec<Item>, SelectorError>)
    ensures
        match r {
            Ok(items) => parse_selector(chars@) == Ok::<Seq<Item>, SelectorError>(items@)
                && items_within(items@, chars@.len() as int),
            Err(e) => parse_selector(chars@) == Err::<Seq<Item>, SelectorError>(e),
        },
{
    let len: usize = chars.len();
    let mut items: Vec<Item> = Vec::new();
    let mut i: usize = 0;
    let mut inside: bool = false;
    loop
        invariant
            len == chars@.len(),
            i <= len,
            items_within(items@, len as int),
            parse_selector(chars@) == parse_items(chars@, i, items@, inside),
        decreases len - i,
    {
        let j = skip_space_in(chars, i);
        if inside && i < len && (chars[i] == '#' || chars[i] == '.' || chars[i] == '['
            || chars[i] == ':') {
            match read_test(chars, i, false, true) {
                Err(e) => {
                    return Err(e);
                },
                Ok((negated, test, k)) => {
                    items.push(Item::Test { negated, test });
                    i = k;
                },
            }
        } else if j >= len {
            if inside {
                return Ok(items);
            } else {
                return Err(SelectorError::UnexpectedEnd);
            }
        } else if !inside {
            match read_test(chars, j, true, true) {
                Err(e) => {
                    return Err(e);
                },
                Ok((negated, test, k)) => {
                    items.push(Item::Test { negated, test });
                    i = k;
                    inside = true;
                },
            }
        } else if chars[j] == ',' {
            items.push(Item::Or);
            i = j + 1;
            inside = false;
        } else if chars[j] == '>' {
            items.push(Item::Child);
            i = j + 1;
            inside = false;
        } else if chars[j] == '+' {
            items.push(Item::Adjacent);
            i = j + 1;
            inside = false;
        } else if chars[j] == '~' {
            items.push(Item::Sibling);
            i = j + 1;
            inside = false;
        } else if j > i {
            items.push(Item::Descendant);
            i = j;
            inside = false;
        } else {
            return Err(SelectorError::UnexpectedCharacter);
        }
    }
}

/// A selector: its text, and the items that the text was read into.
pub struct Selector {
    text: String,
    items: Vec<Item>,
}

impl Selector {
    #[verifier::type_invariant]
    spec fn wf(self) -> bool {
        items_within(self.items@, self.text@.len() as int)
    }

    /// The text of the selector.
    pub closed spec fn text(&self) -> Seq<char> {
        self.text@
    }

    /// The items of the selector.
    pub closed spec fn items(&self) -> Seq<Item> {
        self.items@
    }

    /// Reads a selector. Fails if [`parse_selector`] does, with its error: among
    /// others for a pseudo-class that cannot be decided when the start tag is
    /// read, such as `:last-child`.
    pub fn parse(text: &str) -> (r: Result<Selector, SelectorError>)
        ensures
            match r {
                Ok(selector) => selector.text() == text@ && parse_selector(text@) == Ok::<
                    Seq<Item>,
                    SelectorError,
                >(selector.items()),
                Err(e) => parse_selector(text@) == Err::<Seq<Item>, SelectorError>(e),
            },
    {
        let n = text.unicode_len();
        let mut chars: Vec<char> = Vec::new();
        let mut i: usize = 0;
        while i < n
            invariant
                n == text@.len(),
                i <= n,
                chars@ == text@.subrange(0, i as int),
            decreases n - i,
        {
            chars.push(text.get_char(i));
            i = i + 1;
            assert(chars@ =~= text@.subrange(0, i as int));
        }
        assert(chars@ =~= text@);
        match read_items(&chars) {
            Ok(items) => Ok(Selector { text: text.to_owned(), items }),
            Err(e) => Err(e),
        }
    }

    /// The text of the selector.
    pub fn as_str(&self) -> (r: &str)
        ensures
            r@ == self.text(),
    {
        self.text.as_str()
    }

    /// The items of the selector; every name and value of theirs lies inside
    /// the text.
    pub fn as_items(&self) -> (r: &Vec<Item>)
        ensures
            r@ == self.items(),
            items_within(r@, self.text().len() as int),
    {
        proof {
            use_type_invariant(self);
        }
        &self.items
    }
}


} // verus!
