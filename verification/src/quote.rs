//! Strings in quotes, as JSON writes them.
//!
//! Writing goes through `serde_json`; reading is done here, and accepts
//! exactly what writing produces: a quotation mark, the characters with
//! their escapes, and a quotation mark. An escape is a backslash followed by
//! `"`, `\`, `b`, `f`, `n`, `r` or `t`, or by `u00` and two hexadecimal
//! digits in lower case for the other characters below the space. Every
//! character has one way to be written, so a string has one quoted form.

use crate::text::push_char;
use vstd::prelude::*;

verus! {

/// The hexadecimal digit for `d`, in lower case, for `d` from 0 to 15.
pub open spec fn hex_char(d: int) -> char {
    if d < 10 {
        (48 + d) as u8 as char
    } else {
        (87 + d) as u8 as char
    }
}

/// The value of a hexadecimal digit in lower case.
pub open spec fn hex_value(c: char) -> Option<int> {
    let u = c as u32;
    if 48 <= u <= 57 {
        Some(u - 48)
    } else if 97 <= u <= 102 {
        Some(u - 87)
    } else {
        None
    }
}

/// Whether the character with the code `u` is written as a backslash and
/// one letter.
pub open spec fn has_short_escape(u: int) -> bool {
    u == 0x08 || u == 0x09 || u == 0x0a || u == 0x0c || u == 0x0d
}

/// How one character stands between the quotation marks.
pub open spec fn escape_char(c: char) -> Seq<char> {
    let u = c as u32;
    if u == 0x22 {
        seq!['\\', '"']
    } else if u == 0x5c {
        seq!['\\', '\\']
    } else if u == 0x08 {
        seq!['\\', 'b']
    } else if u == 0x09 {
        seq!['\\', 't']
    } else if u == 0x0a {
        seq!['\\', 'n']
    } else if u == 0x0c {
        seq!['\\', 'f']
    } else if u == 0x0d {
        seq!['\\', 'r']
    } else if u < 0x20 {
        seq!['\\', 'u', '0', '0', hex_char(u as int / 16), hex_char(u as int % 16)]
    } else {
        seq![c]
    }
}

/// How a string stands between the quotation marks.
pub open spec fn escape(s: Seq<char>) -> Seq<char>
    decreases s.len(),
{
    if s.len() == 0 {
        Seq::empty()
    } else {
        escape_char(s[0]) + escape(s.drop_first())
    }
}

/// A string in quotes.
pub open spec fn quoted(s: Seq<char>) -> Seq<char> {
    seq!['"'] + escape(s) + seq!['"']
}

/// Reads one character, escaped or plain, at the front of `s`: the
/// character and the characters it took.
pub open spec fn parse_unit(s: Seq<char>) -> Option<(char, int)> {
    if s.len() == 0 {
        None
    } else if s[0] == '\\' {
        if s.len() < 2 {
            None
        } else if s[1] == '"' {
            Some(('"', 2))
        } else if s[1] == '\\' {
            Some(('\\', 2))
        } else if s[1] == 'b' {
            Some((0x08u8 as char, 2))
        } else if s[1] == 't' {
            Some((0x09u8 as char, 2))
        } else if s[1] == 'n' {
            Some((0x0au8 as char, 2))
        } else if s[1] == 'f' {
            Some((0x0cu8 as char, 2))
        } else if s[1] == 'r' {
            Some((0x0du8 as char, 2))
        } else if s[1] == 'u' && s.len() >= 6 && s[2] == '0' && s[3] == '0' && (s[4] == '0' || s[4]
            == '1') && hex_value(s[5]) is Some {
            let u = 16 * hex_value(s[4]).unwrap() + hex_value(s[5]).unwrap();
            if has_short_escape(u) {
                None
            } else {
                Some((u as u8 as char, 6))
            }
        } else {
            None
        }
    } else if s[0] == '"' || (s[0] as u32) < 0x20 {
        None
    } else {
        Some((s[0], 1))
    }
}

/// Reads the inside of a quoted string at the front of `s`, to the closing
/// quotation mark: the string, and the characters it took, the mark
/// included.
pub open spec fn parse_escaped(s: Seq<char>) -> Option<(Seq<char>, int)>
    decreases s.len(),
{
    if s.len() == 0 {
        None
    } else if s[0] == '"' {
        Some((Seq::empty(), 1))
    } else {
        match parse_unit(s) {
            None => None,
            Some((c, k)) => match parse_escaped(s.skip(k)) {
                None => None,
                Some((v, n)) => Some((seq![c] + v, k + n)),
            },
        }
    }
}

/// Reads a quoted string at the front of `s`: the string and the characters
/// it took.
#[verifier::opaque]
pub open spec fn parse_quoted(s: Seq<char>) -> Option<(Seq<char>, int)> {
    if s.len() > 0 && s[0] == '"' {
        match parse_escaped(s.drop_first()) {
            Some((v, n)) => Some((v, n + 1)),
            None => None,
        }
    } else {
        None
    }
}

/// Characters with one code are one character.
proof fn lemma_same_code(c: char, d: char)
    requires
        c as u32 == d as u32,
    ensures
        c == d,
{
}

/// The value of a hexadecimal digit names the digit.
proof fn lemma_hex_value(c: char)
    requires
        hex_value(c) is Some,
    ensures
        0 <= hex_value(c).unwrap() <= 15,
        hex_char(hex_value(c).unwrap()) == c,
{
}

/// Reading what was written for one character gives the character.
proof fn lemma_parse_unit_of_escape(c: char, rest: Seq<char>)
    ensures
        parse_unit(escape_char(c) + rest) == Some((c, escape_char(c).len() as int)),
{
}

/// What reading one character took is what is written for it.
proof fn lemma_escape_of_parse_unit(s: Seq<char>)
    requires
        parse_unit(s) is Some,
    ensures
        1 <= parse_unit(s).unwrap().1 <= s.len(),
        s.take(parse_unit(s).unwrap().1) == escape_char(parse_unit(s).unwrap().0),
{
    if s[0] == '\\' {
        if s[1] == 'u' {
            lemma_hex_value(s[5]);
        }
    } else {
        if s[0] as u32 == 0x5c {
            lemma_same_code(s[0], '\\');
        }
        if s[0] as u32 == 0x22 {
            lemma_same_code(s[0], '"');
        }
    }
}

/// Reading the inside of a quoted string gives the string, whatever follows
/// the closing mark.
proof fn lemma_parse_escaped_of_escape(v: Seq<char>, rest: Seq<char>)
    ensures
        parse_escaped(escape(v) + seq!['"'] + rest) == Some((v, escape(v).len() as int + 1)),
    decreases v.len(),
{
    let s = escape(v) + seq!['"'] + rest;
    if v.len() > 0 {
        let c = v[0];
        let tail = v.drop_first();
        let e = escape_char(c);
        let after = escape(tail) + seq!['"'] + rest;
        lemma_parse_unit_of_escape(c, after);
        lemma_parse_escaped_of_escape(tail, rest);
        assert(s.skip(e.len() as int) =~= after);
    }
}

/// What reading the inside of a quoted string took is what is written for
/// the string, and the closing mark.
proof fn lemma_escape_of_parse_escaped(s: Seq<char>)
    requires
        parse_escaped(s) is Some,
    ensures
        1 <= parse_escaped(s).unwrap().1 <= s.len(),
        s.take(parse_escaped(s).unwrap().1) == escape(parse_escaped(s).unwrap().0) + seq!['"'],
    decreases s.len(),
{
    let (v, n) = parse_escaped(s).unwrap();
    if s[0] != '"' {
        let (c, k) = parse_unit(s).unwrap();
        lemma_escape_of_parse_unit(s);
        let (tail, m) = parse_escaped(s.skip(k)).unwrap();
        lemma_escape_of_parse_escaped(s.skip(k));
        assert(v.drop_first() =~= tail);
        assert(s.take(n) =~= s.take(k) + s.skip(k).take(m));
    }
}

/// Reading a quoted string gives the string, whatever follows.
pub proof fn law_reading_a_quoted_string(v: Seq<char>, rest: Seq<char>)
    ensures
        parse_quoted(quoted(v) + rest) == Some((v, quoted(v).len() as int)),
{
    reveal(parse_quoted);
    let s = quoted(v) + rest;
    lemma_parse_escaped_of_escape(v, rest);
    assert(s.drop_first() =~= escape(v) + seq!['"'] + rest);
}

/// What reading a quoted string took is the string in quotes.
pub proof fn law_quoted_string_read_is_written(s: Seq<char>)
    requires
        parse_quoted(s) is Some,
    ensures
        2 <= parse_quoted(s).unwrap().1 <= s.len(),
        s.take(parse_quoted(s).unwrap().1) == quoted(parse_quoted(s).unwrap().0),
{
    reveal(parse_quoted);
    let (v, n) = parse_quoted(s).unwrap();
    lemma_escape_of_parse_escaped(s.drop_first());
    assert(s.take(n) =~= seq!['"'] + s.drop_first().take(n - 1));
}

/// Nothing between the quotation marks is a line feed, or any character
/// below the space.
pub proof fn law_escape_is_printable(s: Seq<char>)
    ensures
        forall|i: int| 0 <= i < escape(s).len() ==> (#[trigger] escape(s)[i]) as u32 >= 0x20,
    decreases s.len(),
{
    if s.len() > 0 {
        law_escape_is_printable(s.drop_first());
        assert(escape(s) == escape_char(s[0]) + escape(s.drop_first()));
    }
}

/// `serde_json::to_string` on a string slice: the slice as a JSON string,
/// that is, in quotation marks, with `"` and `\` behind a backslash, the
/// characters below the space as `\b`, `\t`, `\n`, `\f`, `\r` or `\u00` and two
/// hexadecimal digits in lower case, and every other character as it is.
/// Writing a string slice into memory does not fail.
#[verifier::external_body]
pub(crate) fn quote(s: &str) -> (r: String)
    ensures
        r@ == quoted(s@),
{
    serde_json::to_string(s).unwrap()
}

/// How far reading has come: with `done` read over `used` characters, and
/// `rest` what reading gives from there, `whole` is what it gives in all.
pub open spec fn reading_joins(
    whole: Option<(Seq<char>, int)>,
    done: Seq<char>,
    used: int,
    rest: Option<(Seq<char>, int)>,
) -> bool {
    match rest {
        None => whole is None,
        Some((v, n)) => whole == Some((done + v, used + n)),
    }
}

/// The value of a hexadecimal digit in lower case.
fn hex_digit(c: char) -> (r: Option<u8>)
    ensures
        match hex_value(c) {
            Some(d) => r == Some(d as u8) && 0 <= d <= 15,
            None => r is None,
        },
{
    let u: u32 = c as u32;
    if 48 <= u && u <= 57 {
        Some((u - 48) as u8)
    } else if 97 <= u && u <= 102 {
        Some((u - 87) as u8)
    } else {
        None
    }
}

/// Reads one character, escaped or plain, in `s` at `pos`: the character
/// and where what stands for it ends.
pub(crate) fn read_unit(s: &Vec<char>, pos: usize) -> (r: Option<(char, usize)>)
    requires
        pos <= s.len(),
    ensures
        match parse_unit(s@.skip(pos as int)) {
            Some((c, k)) => r == Some((c, (pos + k) as usize)) && 1 <= k && pos + k <= s.len(),
            None => r is None,
        },
{
    if pos >= s.len() {
        return None;
    }
    let c = s[pos];
    if c == '\\' {
        if s.len() - pos < 2 {
            return None;
        }
        let e = s[pos + 1];
        if e == '"' {
            Some(('"', pos + 2))
        } else if e == '\\' {
            Some(('\\', pos + 2))
        } else if e == 'b' {
            Some((0x08u8 as char, pos + 2))
        } else if e == 't' {
            Some((0x09u8 as char, pos + 2))
        } else if e == 'n' {
            Some((0x0au8 as char, pos + 2))
        } else if e == 'f' {
            Some((0x0cu8 as char, pos + 2))
        } else if e == 'r' {
            Some((0x0du8 as char, pos + 2))
        } else if e == 'u' {
            if s.len() - pos < 6 {
                return None;
            }
            if s[pos + 2] != '0' || s[pos + 3] != '0' {
                return None;
            }
            let h = s[pos + 4];
            if h != '0' && h != '1' {
                return None;
            }
            let hi: u8 = if h == '0' {
                0
            } else {
                1
            };
            match hex_digit(s[pos + 5]) {
                None => None,
                Some(lo) => {
                    let u: u8 = 16 * hi + lo;
                    if u == 0x08 || u == 0x09 || u == 0x0a || u == 0x0c || u == 0x0d {
                        None
                    } else {
                        Some((u as char, pos + 6))
                    }
                },
            }
        } else {
            None
        }
    } else if c == '"' || (c as u32) < 0x20 {
        None
    } else {
        Some((c, pos + 1))
    }
}

/// Reads a quoted string in `s` at `pos`: the string and where its closing
/// mark is passed.
pub(crate) fn read_quoted(s: &Vec<char>, pos: usize) -> (r: Option<(String, usize)>)
    requires
        pos <= s.len(),
    ensures
        match parse_quoted(s@.skip(pos as int)) {
            Some((v, k)) => r matches Some((text, end)) && text@ == v && end == pos + k && pos + 2
                <= end <= s.len(),
            None => r is None,
        },
{
    proof {
        reveal(parse_quoted);
    }
    let ghost rest = s@.skip(pos as int);
    if pos >= s.len() || s[pos] != '"' {
        return None;
    }
    let start: usize = pos + 1;
    let ghost whole = parse_escaped(rest.drop_first());
    assert(rest.drop_first() =~= s@.skip(start as int));
    let mut out = String::new();
    let mut i: usize = start;
    loop
        invariant
            start == pos + 1,
            start <= i <= s.len(),
            rest == s@.skip(pos as int),
            whole == parse_escaped(s@.skip(start as int)),
            parse_quoted(rest) == match whole {
                Some((v, n)) => Some((v, n + 1)),
                None => None,
            },
            reading_joins(whole, out@, i - start, parse_escaped(s@.skip(i as int))),
        decreases s.len() - i,
    {
        let ghost here = s@.skip(i as int);
        if i >= s.len() {
            return None;
        }
        if s[i] == '"' {
            return Some((out, i + 1));
        }
        match read_unit(s, i) {
            None => {
                return None;
            },
            Some((c, next)) => {
                proof {
                    let k = next - i;
                    assert(here.skip(k) =~= s@.skip(next as int));
                    match parse_escaped(s@.skip(next as int)) {
                        Some((v, n)) => {
                            assert(out@ + (seq![c] + v) =~= out@.push(c) + v);
                        },
                        None => {},
                    }
                }
                push_char(&mut out, c);
                i = next;
            },
        }
    }
}

} // verus!
