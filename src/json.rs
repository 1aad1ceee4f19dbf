//! Quoting of scalar text into JSON string literals.

use vstd::prelude::*;

verus! {

/// Unicode general category Cc: U+0000..=U+001F and U+007F..=U+009F.
pub open spec fn is_control_char(c: char) -> bool {
    (c as u32) <= 0x1f || (0x7f <= (c as u32) && (c as u32) <= 0x9f)
}

/// Lower-case hexadecimal digit of `n`, for `n < 16`.
pub open spec fn hex_digit(n: u32) -> char {
    if n < 10 {
        (n + 48) as char
    } else {
        (n + 87) as char
    }
}

/// The `\uXXXX` escape of a code point below 0x10000.
pub open spec fn unicode_escape(n: u32) -> Seq<char> {
    seq![
        '\\',
        'u',
        hex_digit((n / 4096) % 16),
        hex_digit((n / 256) % 16),
        hex_digit((n / 16) % 16),
        hex_digit(n % 16),
    ]
}

/// The escape sequence that replaces `c` in a string literal, if any.
pub open spec fn escape_of(c: char) -> Option<Seq<char>> {
    if c == '\x08' {
        Some(seq!['\\', 'b'])
    } else if c == '\t' {
        Some(seq!['\\', 't'])
    } else if c == '\n' {
        Some(seq!['\\', 'n'])
    } else if c == '\x0c' {
        Some(seq!['\\', 'f'])
    } else if c == '\r' {
        Some(seq!['\\', 'r'])
    } else if c == '"' {
        Some(seq!['\\', '"'])
    } else if c == '\\' {
        Some(seq!['\\', '\\'])
    } else if (c as u32) < 0xffff && is_control_char(c) {
        Some(unicode_escape(c as u32))
    } else {
        None
    }
}

/// What `c` becomes inside a string literal.
pub open spec fn escaped(c: char) -> Seq<char> {
    match escape_of(c) {
        Some(e) => e,
        None => seq![c],
    }
}

/// Every character of `s` replaced by what it becomes inside a literal.
pub open spec fn escape_all(s: Seq<char>) -> Seq<char>
    decreases s.len(),
{
    if s.len() == 0 {
        seq![]
    } else {
        escape_all(s.drop_last()) + escaped(s.last())
    }
}

/// The string literal that stands for the text `s`.
pub open spec fn quoted(s: Seq<char>) -> Seq<char> {
    seq!['"'] + escape_all(s) + seq!['"']
}

/// Relies on char::is_control: true exactly on the general category Cc.
#[verifier::external_body]
fn is_control(c: char) -> (r: bool)
    ensures
        r == is_control_char(c),
{
    c.is_control()
}

/// Relies on String::push: appends one character.
#[verifier::external_body]
pub(crate) fn push_char(s: &mut String, c: char)
    ensures
        final(s)@ == old(s)@.push(c),
{
    s.push(c)
}

fn hex_char(n: u32) -> (c: char)
    requires
        n < 16,
    ensures
        c == hex_digit(n),
{
    if n < 10 {
        ((n + 48) as u8) as char
    } else {
        ((n + 87) as u8) as char
    }
}

fn escape_char(c: char) -> (r: Option<String>)
    ensures
        match r {
            Some(s) => escape_of(c) == Some(s@),
            None => escape_of(c) is None,
        },
{
    let mut s = String::new();
    push_char(&mut s, '\\');
    if c == '\x08' {
        push_char(&mut s, 'b');
    } else if c == '\t' {
        push_char(&mut s, 't');
    } else if c == '\n' {
        push_char(&mut s, 'n');
    } else if c == '\x0c' {
        push_char(&mut s, 'f');
    } else if c == '\r' {
        push_char(&mut s, 'r');
    } else if c == '"' {
        push_char(&mut s, '"');
    } else if c == '\\' {
        push_char(&mut s, '\\');
    } else {
        let num = c as u32;
        if num < 0xffff && is_control(c) {
            push_char(&mut s, 'u');
            push_char(&mut s, hex_char((num / 4096) % 16));
            push_char(&mut s, hex_char((num / 256) % 16));
            push_char(&mut s, hex_char((num / 16) % 16));
            push_char(&mut s, hex_char(num % 16));
            assert(s@ =~= unicode_escape(num));
        } else {
            return None;
        }
    }
    assert(escape_of(c) == Some(s@)) by {
        assert(s@ =~= escape_of(c)->0);
    }
    Some(s)
}

/// Quotes `s` as a JSON string literal, escaping what the grammar requires.
pub fn quote(s: &str) -> (r: String)
    ensures
        r@ == quoted(s@),
{
    let mut ss = String::new();
    push_char(&mut ss, '"');
    for c in it: s.chars()
        invariant
            it.seq() == s@,
            ss@ == seq!['"'] + escape_all(s@.take(it.index() as int)),
    {
        proof {
            assert(s@.take(it.index() + 1).drop_last() =~= s@.take(it.index() as int));
        }
        match escape_char(c) {
            Some(e) => {
                ss.append(e.as_str());
            },
            None => {
                push_char(&mut ss, c);
            },
        }
        proof {
            assert(ss@ =~= seq!['"'] + escape_all(s@.take(it.index() + 1)));
        }
    }
    push_char(&mut ss, '"');
    assert(s@.take(s@.len() as int) =~= s@);
    ss
}

} // verus!
