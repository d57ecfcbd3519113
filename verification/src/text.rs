//! Small helpers on strings and characters.

use vstd::prelude::*;

verus! {

/// Whether `s` holds no character below the space.
pub open spec fn is_printable(s: Seq<char>) -> bool {
    forall|i: int| 0 <= i < s.len() ==> (#[trigger] s[i]) as u32 >= 0x20
}

/// Printable texts joined are printable.
pub proof fn lemma_printable_join(a: Seq<char>, b: Seq<char>)
    requires
        is_printable(a),
        is_printable(b),
    ensures
        is_printable(a + b),
{
}

/// The characters of `s`, in order.
pub(crate) fn chars_of(s: &str) -> (r: Vec<char>)
    ensures
        r@ == s@,
{
    let mut out: Vec<char> = Vec::new();
    for c in it: s.chars()
        invariant
            out@ == it.seq().take(it.index()),
            it.seq() == s@,
    {
        out.push(c);
    }
    out
}

/// `String::push` of std: puts `c` at the end of `s` and changes nothing else.
#[verifier::external_body]
pub(crate) fn push_char(s: &mut String, c: char)
    ensures
        final(s)@ == old(s)@.push(c),
{
    s.push(c)
}

/// Whether `s` holds the characters of `part` from `pos` on.
pub(crate) fn holds_at(s: &Vec<char>, pos: usize, part: &Vec<char>) -> (r: bool)
    requires
        pos <= s.len(),
    ensures
        r == (pos + part.len() <= s.len() && s@.subrange(pos as int, pos + part.len()) == part@),
{
    if s.len() - pos < part.len() {
        return false;
    }
    let mut i: usize = 0;
    while i < part.len()
        invariant
            i <= part.len(),
            pos + part.len() <= s.len(),
            s@.subrange(pos as int, pos + i) == part@.take(i as int),
        decreases part.len() - i,
    {
        if s[pos + i] != part[i] {
            return false;
        }
        i += 1;
    }
    assert(part@.take(part.len() as int) =~= part@);
    true
}

/// `std::str::from_utf8`: the bytes as a string slice where they are valid
/// UTF-8, and nothing where they are not. The slice is the bytes given, so
/// its characters are those that the bytes encode.
#[verifier::external_body]
pub(crate) fn utf8_text(bytes: &[u8]) -> (r: Option<&str>)
    ensures
        r is Some <==> vstd::utf8::valid_utf8(bytes@),
        r matches Some(s) ==> vstd::utf8::encode_utf8(s@) == bytes@,
{
    std::str::from_utf8(bytes).ok()
}

} // verus!
