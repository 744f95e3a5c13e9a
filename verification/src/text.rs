//! Characters and words: whitespace, splitting a text into its words, and
//! comparison that ignores the case of ASCII letters.

use vstd::prelude::*;
use vstd::std_specs::iter::IteratorSpec;

verus! {

/// The code points that Unicode gives the property `White_Space`.
pub open spec fn is_space(c: char) -> bool {
    ||| '\u{9}' <= c <= '\u{D}'
    ||| c == ' '
    ||| c == '\u{85}'
    ||| c == '\u{A0}'
    ||| c == '\u{1680}'
    ||| '\u{2000}' <= c <= '\u{200A}'
    ||| c == '\u{2028}'
    ||| c == '\u{2029}'
    ||| c == '\u{202F}'
    ||| c == '\u{205F}'
    ||| c == '\u{3000}'
}

/// Tells whether `c` separates words.
pub fn is_whitespace(c: char) -> (space: bool)
    ensures
        space == is_space(c),
{
    ('\u{9}' <= c && c <= '\u{D}') || c == ' ' || c == '\u{85}' || c == '\u{A0}' || c == '\u{1680}'
        || ('\u{2000}' <= c && c <= '\u{200A}') || c == '\u{2028}' || c == '\u{2029}' || c
        == '\u{202F}' || c == '\u{205F}' || c == '\u{3000}'
}

/// The characters of `text`, one by one.
pub fn chars_of(text: &str) -> (chars: Vec<char>)
    ensures
        chars@ == text@,
{
    let mut chars: Vec<char> = Vec::new();
    for c in it: text.chars()
        invariant
            it.seq() == text@,
            chars@ == text@.take(it.index()),
    {
        chars.push(c);
    }
    chars
}

/// How many characters of `s` come before its first whitespace (all of them,
/// if it has none).
pub open spec fn word_len(s: Seq<char>) -> nat
    decreases s.len(),
{
    if s.len() == 0 || is_space(s[0]) {
        0
    } else {
        1 + word_len(s.drop_first())
    }
}

/// The words of `s`: its maximal runs of characters that are not whitespace,
/// from left to right.
pub open spec fn words(s: Seq<char>) -> Seq<Seq<char>>
    decreases s.len(),
    via words_decreases
{
    if s.len() == 0 {
        Seq::empty()
    } else if is_space(s[0]) {
        words(s.drop_first())
    } else {
        seq![s.take(word_len(s) as int)] + words(s.skip(word_len(s) as int))
    }
}

#[via_fn]
proof fn words_decreases(s: Seq<char>) {
    lemma_word_len_bounds(s);
}

/// A word never runs past the end of the text, and is not empty where the
/// text starts with something other than whitespace.
pub proof fn lemma_word_len_bounds(s: Seq<char>)
    ensures
        word_len(s) <= s.len(),
        s.len() > 0 && !is_space(s[0]) ==> word_len(s) >= 1,
    decreases s.len(),
{
    if s.len() > 0 && !is_space(s[0]) {
        lemma_word_len_bounds(s.drop_first());
    }
}

/// Where the first `k` characters of `s` hold no whitespace, the first word
/// of `s` is these `k` characters and what the rest of `s` adds to them.
pub proof fn lemma_word_len_prefix(s: Seq<char>, k: int)
    requires
        0 <= k <= s.len(),
        forall|j: int| 0 <= j < k ==> !is_space(#[trigger] s[j]),
    ensures
        word_len(s) == k + word_len(s.skip(k)),
    decreases k,
{
    if k == 0 {
        assert(s.skip(0) =~= s);
    } else {
        let rest = s.drop_first();
        assert(forall|j: int| 0 <= j < k - 1 ==> rest[j] == s[j + 1]);
        lemma_word_len_prefix(rest, k - 1);
        assert(rest.skip(k - 1) =~= s.skip(k));
    }
}

/// Splits `text` at whitespace into its words, dropping the whitespace.
pub fn split_whitespace<'a>(text: &'a str) -> (parts: Vec<&'a str>)
    ensures
        parts.deep_view() == words(text@),
{
    let chars = chars_of(text);
    let n = chars.len();
    let mut parts: Vec<&'a str> = Vec::new();
    let mut i: usize = 0;
    proof {
        assert(text@.skip(0) =~= text@);
    }
    while i < n
        invariant
            chars@ == text@,
            n == chars.len(),
            i <= n,
            parts.deep_view() + words(text@.skip(i as int)) == words(text@),
        decreases n - i,
    {
        let ghost tail = text@.skip(i as int);
        if is_whitespace(chars[i]) {
            proof {
                assert(tail.drop_first() =~= text@.skip(i + 1));
            }
            i += 1;
        } else {
            let start = i;
            i += 1;
            while i < n && !is_whitespace(chars[i])
                invariant
                    chars@ == text@,
                    n == chars.len(),
                    start < i <= n,
                    forall|j: int| start <= j < i ==> !is_space(#[trigger] text@[j]),
                decreases n - i,
            {
                i += 1;
            }
            let part = text.substring_char(start, i);
            proof {
                let k = i - start;
                lemma_word_len_prefix(tail, k);
                assert(tail.skip(k) =~= text@.skip(i as int));
                assert(tail.take(k) =~= part@);
                assert(parts.deep_view().push(part@) + words(text@.skip(i as int))
                    =~= parts.deep_view() + words(tail));
            }
            parts.push(part);
        }
    }
    parts
}

/// A word: a text that is not empty and holds no whitespace.
pub open spec fn is_word(s: Seq<char>) -> bool {
    s.len() > 0 && forall|i: int| 0 <= i < s.len() ==> !is_space(#[trigger] s[i])
}

/// The first word of a text holds no whitespace.
pub proof fn lemma_first_word_has_no_space(s: Seq<char>, i: int)
    requires
        0 <= i < word_len(s),
    ensures
        i < s.len(),
        !is_space(s[i]),
    decreases s.len(),
{
    if i > 0 {
        lemma_first_word_has_no_space(s.drop_first(), i - 1);
    }
}

/// Each of the words of a text is a word.
pub proof fn lemma_words_are_words(s: Seq<char>, i: int)
    requires
        0 <= i < words(s).len(),
    ensures
        is_word(words(s)[i]),
    decreases s.len(),
{
    if is_space(s[0]) {
        lemma_words_are_words(s.drop_first(), i);
    } else {
        let n = word_len(s) as int;
        lemma_word_len_bounds(s);
        if i == 0 {
            assert forall|j: int| 0 <= j < n implies !is_space(#[trigger] s.take(n)[j]) by {
                lemma_first_word_has_no_space(s, j);
            }
        } else {
            lemma_words_are_words(s.skip(n), i - 1);
        }
    }
}

/// A text that is one word splits into just that word.
pub proof fn lemma_words_of_word(w: Seq<char>)
    requires
        is_word(w),
    ensures
        words(w) == seq![w],
{
    let n = w.len() as int;
    lemma_word_len_prefix(w, n);
    assert(w.take(n) =~= w);
    assert(words(w.skip(n)) =~= Seq::<Seq<char>>::empty());
}

/// A text that starts with a word and one whitespace character splits into
/// that word and the words of what follows.
pub proof fn lemma_words_after_word(w: Seq<char>, space: char, rest: Seq<char>)
    requires
        is_word(w),
        is_space(space),
    ensures
        words(w + seq![space] + rest) == seq![w] + words(rest),
{
    let s = w + seq![space] + rest;
    let n = w.len() as int;
    assert(forall|j: int| 0 <= j < n ==> s[j] == w[j]);
    lemma_word_len_prefix(s, n);
    let tail = s.skip(n);
    assert(s.take(n) =~= w);
    assert(tail.drop_first() =~= rest);
    assert(words(tail) == words(rest));
}

/// The lowercase letter of an ASCII capital; every other character is itself.
pub open spec fn ascii_lower(c: char) -> char {
    if 'A' <= c <= 'Z' {
        ((c as u32) + 32) as char
    } else {
        c
    }
}

/// Lowers an ASCII capital and leaves every other character as it is.
pub fn to_ascii_lower(c: char) -> (lowered: char)
    ensures
        lowered == ascii_lower(c),
{
    if 'A' <= c && c <= 'Z' {
        ((c as u8) + 32) as char
    } else {
        c
    }
}

/// `a` and `b` are the same text but for the case of their ASCII letters.
pub open spec fn same_letters(a: Seq<char>, b: Seq<char>) -> bool {
    a.len() == b.len() && forall|i: int|
        0 <= i < a.len() ==> ascii_lower(#[trigger] a[i]) == ascii_lower(b[i])
}

/// Compares two texts without regard to the case of ASCII letters.
pub fn eq_ignoring_case(a: &str, b: &str) -> (same: bool)
    ensures
        same == same_letters(a@, b@),
{
    let mut left = a.chars();
    let mut right = b.chars();
    let ghost mut seen: int = 0;
    loop
        invariant
            0 <= seen <= a@.len(),
            seen <= b@.len(),
            left.remaining() == a@.skip(seen),
            right.remaining() == b@.skip(seen),
            forall|i: int| 0 <= i < seen ==> ascii_lower(#[trigger] a@[i]) == ascii_lower(b@[i]),
            left.decrease() is Some,
        decreases left.decrease()->0,
    {
        match left.next() {
            None => {
                return right.next().is_none();
            },
            Some(x) => match right.next() {
                None => {
                    return false;
                },
                Some(y) => {
                    if to_ascii_lower(x) != to_ascii_lower(y) {
                        return false;
                    }
                    proof {
                        seen = seen + 1;
                    }
                },
            },
        }
    }
}

/// `s` without the periods at its end.
pub open spec fn without_trailing_periods(s: Seq<char>) -> Seq<char>
    decreases s.len(),
{
    if s.len() > 0 && s.last() == '.' {
        without_trailing_periods(s.drop_last())
    } else {
        s
    }
}

/// What `without_trailing_periods` keeps is the start of the text, and what
/// it drops are periods.
pub proof fn lemma_trailing_periods(s: Seq<char>)
    ensures
        without_trailing_periods(s).len() <= s.len(),
        without_trailing_periods(s) == s.take(without_trailing_periods(s).len() as int),
        forall|i: int| without_trailing_periods(s).len() <= i < s.len() ==> #[trigger] s[i] == '.',
    decreases s.len(),
{
    if s.len() > 0 && s.last() == '.' {
        let shorter = s.drop_last();
        lemma_trailing_periods(shorter);
        let kept = without_trailing_periods(s);
        assert forall|i: int| kept.len() <= i < s.len() implies #[trigger] s[i] == '.' by {
            if i < shorter.len() {
                assert(shorter[i] == s[i]);
            }
        }
    }
}

/// Cuts the periods off the end of `text`.
pub fn trim_trailing_periods<'a>(text: &'a str) -> (trimmed: &'a str)
    ensures
        trimmed@ == without_trailing_periods(text@),
{
    let chars = chars_of(text);
    let mut end: usize = chars.len();
    proof {
        assert(text@.take(end as int) =~= text@);
    }
    while end > 0 && chars[end - 1] == '.'
        invariant
            chars@ == text@,
            end <= chars.len(),
            without_trailing_periods(text@.take(end as int)) == without_trailing_periods(text@),
        decreases end,
    {
        proof {
            assert(text@.take(end as int).drop_last() =~= text@.take(end - 1));
        }
        end -= 1;
    }
    text.substring_char(0, end)
}

} // verus!
