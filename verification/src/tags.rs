//! Tags: the `#`-prefixed words of an entry's text.
//!
//! A text is cut into words at white space; the words that begin with `#`
//! are its tags, in the order in which they stand, repeats included.

use crate::text::{chars_of, push_char};
use vstd::prelude::*;

verus! {

/// The character that opens a tag.
pub const TAG_MARK: char = '#';

/// White space in the sense of Unicode's `White_Space` property.
pub open spec fn is_space(c: char) -> bool {
    let u = c as u32;
    ||| 0x09 <= u <= 0x0d
    ||| u == 0x20
    ||| u == 0x85
    ||| u == 0xa0
    ||| u == 0x1680
    ||| 0x2000 <= u <= 0x200a
    ||| u == 0x2028
    ||| u == 0x2029
    ||| u == 0x202f
    ||| u == 0x205f
    ||| u == 0x3000
}

/// How many characters at the front of `text` are not white space.
pub open spec fn word_len(text: Seq<char>) -> nat
    decreases text.len(),
{
    if text.len() == 0 || is_space(text[0]) {
        0
    } else {
        1 + word_len(text.drop_first())
    }
}

/// The words of `text`: its maximal runs of characters that are not white
/// space, from left to right.
pub open spec fn words(text: Seq<char>) -> Seq<Seq<char>>
    decreases text.len(),
{
    if text.len() == 0 {
        Seq::empty()
    } else if is_space(text[0]) {
        words(text.drop_first())
    } else {
        proof {
            lemma_word_len_bounds(text);
        }
        seq![text.take(word_len(text) as int)] + words(text.skip(word_len(text) as int))
    }
}

/// A word is a tag when it begins with `#`.
pub open spec fn is_tag(word: Seq<char>) -> bool {
    word.len() > 0 && word[0] == TAG_MARK
}

/// The tags of `text`: those of its words that begin with `#`, in order.
pub open spec fn tags_of(text: Seq<char>) -> Seq<Seq<char>> {
    words(text).filter(|w: Seq<char>| is_tag(w))
}

/// The leading word of a text ends at the first white space or at the end.
pub proof fn lemma_word_len_bounds(text: Seq<char>)
    ensures
        word_len(text) <= text.len(),
        forall|i: int| 0 <= i < word_len(text) ==> !is_space(#[trigger] text[i]),
        word_len(text) < text.len() ==> is_space(text[word_len(text) as int]),
    decreases text.len(),
{
    if text.len() > 0 && !is_space(text[0]) {
        let rest = text.drop_first();
        lemma_word_len_bounds(rest);
        assert forall|i: int| 0 <= i < word_len(text) implies !is_space(#[trigger] text[i]) by {
            if i > 0 {
                assert(text[i] == rest[i - 1]);
            }
        }
    }
}

/// A run of `k` characters without white space, followed by white space or
/// by nothing, is the leading word.
proof fn lemma_word_len_is(text: Seq<char>, k: nat)
    requires
        k <= text.len(),
        forall|i: int| 0 <= i < k ==> !is_space(#[trigger] text[i]),
        k < text.len() ==> is_space(text[k as int]),
    ensures
        word_len(text) == k,
    decreases k,
{
    if k > 0 {
        let rest = text.drop_first();
        lemma_word_len_is(rest, (k - 1) as nat);
    }
}

/// A word proper: not empty, and without white space.
pub open spec fn is_solid(word: Seq<char>) -> bool {
    word.len() > 0 && forall|i: int| 0 <= i < word.len() ==> !is_space(#[trigger] word[i])
}

/// Every word is non-empty and free of white space.
pub proof fn law_words_are_solid(text: Seq<char>)
    ensures
        forall|k: int| 0 <= k < words(text).len() ==> is_solid(#[trigger] words(text)[k]),
    decreases text.len(),
{
    if text.len() == 0 {
    } else if is_space(text[0]) {
        law_words_are_solid(text.drop_first());
        assert(words(text) == words(text.drop_first()));
    } else {
        let n = word_len(text) as int;
        lemma_word_len_bounds(text);
        law_words_are_solid(text.skip(n));
        assert(words(text) == seq![text.take(n)] + words(text.skip(n)));
    }
}

/// Every tag begins with `#` and holds no white space.
pub proof fn law_tags_are_marked_words(text: Seq<char>)
    ensures
        forall|k: int|
            0 <= k < tags_of(text).len() ==> is_tag(#[trigger] tags_of(text)[k]) && is_solid(
                tags_of(text)[k],
            ),
{
    let pred = |w: Seq<char>| is_tag(w);
    law_words_are_solid(text);
    assert forall|k: int| 0 <= k < tags_of(text).len() implies is_tag(#[trigger] tags_of(text)[k])
        && is_solid(tags_of(text)[k]) by {
        let t = tags_of(text)[k];
        words(text).lemma_filter_contains_rev(pred, t);
    }
}

/// A text without `#` has no tags.
pub proof fn law_no_mark_no_tags(text: Seq<char>)
    requires
        forall|i: int| 0 <= i < text.len() ==> text[i] != TAG_MARK,
    ensures
        tags_of(text) == Seq::<Seq<char>>::empty(),
    decreases text.len(),
{
    if text.len() == 0 {
    } else if is_space(text[0]) {
        let rest = text.drop_first();
        law_no_mark_no_tags(rest);
    } else {
        let n = word_len(text) as int;
        lemma_word_len_bounds(text);
        let rest = text.skip(n);
        law_no_mark_no_tags(rest);
        lemma_tags_step_word(text);
    }
}

/// A text without white space that begins with `#` is its own and only tag,
/// whatever further `#` it holds.
pub proof fn law_marked_word_is_its_tag(text: Seq<char>)
    requires
        is_solid(text),
        is_tag(text),
    ensures
        tags_of(text) == seq![text],
{
    lemma_word_len_is(text, text.len());
    lemma_tags_step_word(text);
    assert(text.take(text.len() as int) =~= text);
}

/// A text without white space that begins with something else than `#` has
/// no tag, whatever `#` it holds further on.
pub proof fn law_unmarked_word_has_no_tag(text: Seq<char>)
    requires
        is_solid(text),
        !is_tag(text),
    ensures
        tags_of(text) == Seq::<Seq<char>>::empty(),
{
    lemma_word_len_is(text, text.len());
    lemma_tags_step_word(text);
}

/// White space between two texts keeps their words apart: the tags of the
/// whole are the tags of the one and then the tags of the other.
pub proof fn law_tags_of_parts(left: Seq<char>, gap: char, right: Seq<char>)
    requires
        is_space(gap),
    ensures
        tags_of(left + seq![gap] + right) == tags_of(left) + tags_of(right),
    decreases left.len(),
{
    let whole = left + seq![gap] + right;
    if left.len() == 0 {
        assert(whole.drop_first() =~= right);
    } else if is_space(left[0]) {
        assert(whole.drop_first() =~= left.drop_first() + seq![gap] + right);
        law_tags_of_parts(left.drop_first(), gap, right);
    } else {
        let n = word_len(left);
        lemma_word_len_bounds(left);
        lemma_word_len_is(whole, n);
        assert(whole.take(n as int) =~= left.take(n as int));
        assert(whole.skip(n as int) =~= left.skip(n as int) + seq![gap] + right);
        law_tags_of_parts(left.skip(n as int), gap, right);
    }
}

/// A word at the front adds itself when it is a tag, and nothing otherwise.
proof fn lemma_tags_step_word(text: Seq<char>)
    requires
        text.len() > 0,
        !is_space(text[0]),
    ensures
        tags_of(text) == if is_tag(text.take(word_len(text) as int)) {
            seq![text.take(word_len(text) as int)] + tags_of(text.skip(word_len(text) as int))
        } else {
            tags_of(text.skip(word_len(text) as int))
        },
{
    let pred = |w: Seq<char>| is_tag(w);
    let n = word_len(text) as int;
    let head = seq![text.take(n)];
    reveal(Seq::filter);
    assert(head.drop_last().filter(pred) =~= Seq::<Seq<char>>::empty());
}

/// Whether `c` is white space.
pub fn is_whitespace(c: char) -> (r: bool)
    ensures
        r == is_space(c),
{
    let u: u32 = c as u32;
    (0x09 <= u && u <= 0x0d) || u == 0x20 || u == 0x85 || u == 0xa0 || u == 0x1680 || (0x2000 <= u
        && u <= 0x200a) || u == 0x2028 || u == 0x2029 || u == 0x202f || u == 0x205f || u == 0x3000
}

/// The tags of `text`, each as a string of its own.
pub fn extract_tags(text: &str) -> (tags: Vec<String>)
    ensures
        tags.deep_view() == tags_of(text@),
{
    let chars = chars_of(text);
    let mut tags: Vec<String> = Vec::new();
    let mut i: usize = 0;
    assert(chars@.skip(0) =~= chars@);
    while i < chars.len()
        invariant
            chars@ == text@,
            i <= chars.len(),
            tags_of(text@) == tags.deep_view() + tags_of(chars@.skip(i as int)),
        decreases chars.len() - i,
    {
        let ghost rest = chars@.skip(i as int);
        if is_whitespace(chars[i]) {
            proof {
                assert(rest.drop_first() =~= chars@.skip(i + 1));
            }
            i += 1;
        } else {
            let start: usize = i;
            let marked: bool = chars[i] == TAG_MARK;
            let mut word = String::new();
            while i < chars.len() && !is_whitespace(chars[i])
                invariant
                    start <= i <= chars.len(),
                    word@ == chars@.subrange(start as int, i as int),
                    forall|k: int| start <= k < i ==> !is_space(#[trigger] chars@[k]),
                decreases chars.len() - i,
            {
                push_char(&mut word, chars[i]);
                i += 1;
            }
            proof {
                let n = (i - start) as nat;
                lemma_word_len_is(rest, n);
                lemma_tags_step_word(rest);
                assert(rest.take(n as int) =~= word@);
                assert(rest.skip(n as int) =~= chars@.skip(i as int));
            }
            if marked {
                tags.push(word);
            }
        }
    }
    tags
}

} // verus!
