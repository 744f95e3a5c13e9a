//! Pig-latin rewriting of single words and of whole sentences.
//!
//! A word that starts with a lowercase vowel gets `hay` appended. Any other
//! word loses its first character, which comes back in lowercase behind a
//! hyphen, followed by `ay`: `first` becomes `irst-fay`.

use crate::text::{ascii_lower, split_whitespace, words};
use vstd::prelude::*;

verus! {

/// The five lowercase vowels. Uppercase vowels are deliberately not vowels here.
pub open spec fn is_vowel(c: char) -> bool {
    c == 'a' || c == 'e' || c == 'i' || c == 'o' || c == 'u'
}

/// Tells whether `c` is one of the lowercase vowels `a`, `e`, `i`, `o`, `u`.
pub fn is_vocal(c: &char) -> (vocal: bool)
    ensures
        vocal == is_vowel(*c),
{
    *c == 'a' || *c == 'e' || *c == 'i' || *c == 'o' || *c == 'u'
}

/// The lowercase mapping of `c` as Unicode defines it, which may be longer
/// than one character. It stands for what `char::to_lowercase` yields.
pub uninterp spec fn lowercase_of(c: char) -> Seq<char>;

/// The lowercase form of `c`, by `char::to_lowercase` of the standard library.
///
/// Trusted, not proved: the result is the Unicode lowercase mapping of `c`,
/// and for an ASCII character that mapping is the single character
/// `ascii_lower(c)`.
#[verifier::external_body]
fn lowercase(c: char) -> (lowered: String)
    ensures
        lowered@ == lowercase_of(c),
        c <= '\u{7F}' ==> lowered@ == seq![ascii_lower(c)],
{
    c.to_lowercase().to_string()
}

/// The pig-latin form of `word`, given the lowercase form of its first
/// character. An empty word is treated like one that starts with a vowel.
pub open spec fn rewritten(word: Seq<char>, lowered: Seq<char>) -> Seq<char> {
    if word.len() == 0 || is_vowel(word[0]) {
        word + seq!['h', 'a', 'y']
    } else {
        word.drop_first() + seq!['-'] + lowered + seq!['a', 'y']
    }
}

/// The pig-latin form of `word`.
pub open spec fn transformed(word: Seq<char>) -> Seq<char> {
    if word.len() == 0 {
        rewritten(word, Seq::empty())
    } else {
        rewritten(word, lowercase_of(word[0]))
    }
}

/// Rewrites `word` into pig latin, where `lowered` is the lowercase form of
/// its first character. `lowered` is not looked at if `word` is empty or
/// starts with a vowel.
pub fn rewrite_word(word: &str, lowered: &str) -> (out: String)
    ensures
        out@ == rewritten(word@, lowered@),
{
    let n = word.unicode_len();
    if n == 0 || is_vocal(&word.get_char(0)) {
        let mut out = String::from_str(word);
        out.append("hay");
        proof {
            reveal_strlit("hay");
        }
        out
    } else {
        let mut out = String::from_str(word.substring_char(1, n));
        out.append("-");
        out.append(lowered);
        out.append("ay");
        proof {
            reveal_strlit("-");
            reveal_strlit("ay");
        }
        out
    }
}

/// Rewrites one word into pig latin.
///
/// The first character is lowered by Unicode's rules; where it is an ASCII
/// character the result is spelled out in full by the second clause.
pub fn transform_word(word: &str) -> (out: String)
    ensures
        out@ == transformed(word@),
        word@.len() > 0 && word@[0] <= '\u{7F}' ==> out@ == rewritten(
            word@,
            seq![ascii_lower(word@[0])],
        ),
{
    if word.unicode_len() == 0 || is_vocal(&word.get_char(0)) {
        rewrite_word(word, "")
    } else {
        let lowered = lowercase(word.get_char(0));
        rewrite_word(word, lowered.as_str())
    }
}

/// The pig-latin forms of `parts`, each followed by one space.
pub open spec fn sentence(parts: Seq<Seq<char>>) -> Seq<char>
    decreases parts.len(),
{
    if parts.len() == 0 {
        Seq::empty()
    } else {
        sentence(parts.drop_last()) + transformed(parts.last()) + seq![' ']
    }
}

/// Rewrites every word of `text` into pig latin. Each rewritten word is
/// followed by a single space, the last one too; the whitespace of `text`
/// itself is dropped.
pub fn pig_latin(text: &str) -> (out: String)
    ensures
        out@ == sentence(words(text@)),
{
    let parts = split_whitespace(text);
    let mut out = String::new();
    let mut i: usize = 0;
    while i < parts.len()
        invariant
            i <= parts.len(),
            parts.deep_view() == words(text@),
            out@ == sentence(words(text@).take(i as int)),
        decreases parts.len() - i,
    {
        let word = transform_word(parts[i]);
        out.append(word.as_str());
        out.append(" ");
        proof {
            reveal_strlit(" ");
            let done = words(text@).take(i + 1);
            assert(done.drop_last() =~= words(text@).take(i as int));
        }
        i += 1;
    }
    proof {
        assert(words(text@).take(i as int) =~= words(text@));
    }
    out
}

} // verus!
