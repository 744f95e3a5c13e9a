//! The command `Add <name> to <department>` and its parser.
//!
//! A command is read word by word. The first word is the keyword `add`, in
//! any case and with periods allowed at its end; the second is the name; the
//! third is the preposition `to`, in any case; the fourth is the department.
//! Nothing is cut off the name or the department, and words after the fourth
//! are ignored.

use crate::text::{
    ascii_lower, eq_ignoring_case, is_space, is_word, lemma_trailing_periods,
    lemma_words_after_word, lemma_words_are_words, lemma_words_of_word, same_letters,
    split_whitespace, trim_trailing_periods, without_trailing_periods, words,
};
use vstd::prelude::*;

verus! {

/// What a command asks for: `name` is to join `department`.
pub struct Assignment {
    pub name: Seq<char>,
    pub department: Seq<char>,
}

/// A parsed command. Only the parser makes one, so that name and department
/// are always words.
#[derive(Debug, PartialEq, Eq)]
pub struct AddRequest {
    name: String,
    department: String,
}

/// Why a text is not a command.
#[derive(Clone, Copy, Debug, PartialEq, Eq, Structural)]
pub enum ParseError {
    /// The first word is not the keyword `add`.
    InvalidKeyword,
    /// The third word is not the preposition `to`.
    InvalidPreposition,
    /// The text has fewer than four words.
    Incomplete,
}

impl View for AddRequest {
    type V = Assignment;

    closed spec fn view(&self) -> Assignment {
        Assignment { name: self.name@, department: self.department@ }
    }
}

impl AddRequest {
    #[verifier::type_invariant]
    spec fn well_formed(&self) -> bool {
        is_word(self.name@) && is_word(self.department@)
    }

    /// The name of the person to add.
    pub fn name(&self) -> (name: &str)
        ensures
            name@ == self@.name,
            is_word(name@),
    {
        proof {
            use_type_invariant(self);
        }
        self.name.as_str()
    }

    /// The department to add the person to.
    pub fn department(&self) -> (department: &str)
        ensures
            department@ == self@.department,
            is_word(department@),
    {
        proof {
            use_type_invariant(self);
        }
        self.department.as_str()
    }

    /// Gives up the request for its name and its department, in this order.
    pub fn into_parts(self) -> (parts: (String, String))
        ensures
            parts.0@ == self@.name,
            parts.1@ == self@.department,
            is_word(parts.0@),
            is_word(parts.1@),
    {
        proof {
            use_type_invariant(&self);
        }
        (self.name, self.department)
    }
}

/// `token` is the keyword: `add` in any case, once the periods at its end are
/// cut off.
pub open spec fn is_keyword(token: Seq<char>) -> bool {
    same_letters(without_trailing_periods(token), seq!['a', 'd', 'd'])
}

/// `token` is the preposition: `to` in any case.
pub open spec fn is_preposition(token: Seq<char>) -> bool {
    same_letters(token, seq!['t', 'o'])
}

/// What `input` parses to: the first of the three errors that applies, taken
/// in the order `Incomplete`, `InvalidKeyword`, `InvalidPreposition`, or else
/// the assignment of the second word to the fourth.
pub open spec fn parsed(input: Seq<char>) -> Result<Assignment, ParseError> {
    let tokens = words(input);
    if tokens.len() < 4 {
        Err(ParseError::Incomplete)
    } else if !is_keyword(tokens[0]) {
        Err(ParseError::InvalidKeyword)
    } else if !is_preposition(tokens[2]) {
        Err(ParseError::InvalidPreposition)
    } else {
        Ok(Assignment { name: tokens[1], department: tokens[3] })
    }
}

/// The keyword is a word, with or without periods at its end.
pub proof fn lemma_keyword_is_word(token: Seq<char>)
    requires
        is_keyword(token),
    ensures
        is_word(token),
{
    let kept = without_trailing_periods(token);
    lemma_trailing_periods(token);
    assert forall|i: int| 0 <= i < token.len() implies !is_space(#[trigger] token[i]) by {
        if i < kept.len() {
            assert(token[i] == kept[i]);
        }
    }
}

/// The preposition is a word.
pub proof fn lemma_preposition_is_word(token: Seq<char>)
    requires
        is_preposition(token),
    ensures
        is_word(token),
{
    assert(forall|i: int|
        0 <= i < token.len() ==> ascii_lower(#[trigger] token[i]) == seq!['t', 'o'][i]);
}

/// A text made of the keyword, a name, the preposition and a department, in
/// this order and with one space between them, parses to the assignment of
/// that name to that department.
pub proof fn lemma_well_formed_command_parses(
    keyword: Seq<char>,
    name: Seq<char>,
    preposition: Seq<char>,
    department: Seq<char>,
)
    requires
        is_keyword(keyword),
        is_word(name),
        is_preposition(preposition),
        is_word(department),
    ensures
        parsed(keyword + seq![' '] + name + seq![' '] + preposition + seq![' '] + department)
            == Ok::<Assignment, ParseError>(Assignment { name, department }),
{
    let input = keyword + seq![' '] + name + seq![' '] + preposition + seq![' '] + department;
    let after_preposition = department;
    let after_name = preposition + seq![' '] + after_preposition;
    let after_keyword = name + seq![' '] + after_name;
    lemma_keyword_is_word(keyword);
    lemma_preposition_is_word(preposition);
    lemma_words_of_word(department);
    lemma_words_after_word(preposition, ' ', after_preposition);
    lemma_words_after_word(name, ' ', after_name);
    lemma_words_after_word(keyword, ' ', after_keyword);
    assert(input =~= keyword + seq![' '] + after_keyword);
}

/// Tells whether `token` is the keyword of a command.
pub fn is_add_keyword(token: &str) -> (keyword: bool)
    ensures
        keyword == is_keyword(token@),
{
    proof {
        reveal_strlit("add");
    }
    eq_ignoring_case(trim_trailing_periods(token), "add")
}

/// Tells whether `token` is the preposition of a command.
pub fn is_to_preposition(token: &str) -> (preposition: bool)
    ensures
        preposition == is_preposition(token@),
{
    proof {
        reveal_strlit("to");
    }
    eq_ignoring_case(token, "to")
}

/// Parses one command.
///
/// A text of fewer than four words is `Incomplete`, whatever its words are.
/// Otherwise the keyword is checked before the preposition.
pub fn handle_input(input: String) -> (result: Result<AddRequest, ParseError>)
    ensures
        match result {
            Ok(request) => parsed(input@) == Ok::<Assignment, ParseError>(request@),
            Err(error) => parsed(input@) == Err::<Assignment, ParseError>(error),
        },
        words(input@).len() < 4 ==> result == Err::<AddRequest, ParseError>(
            ParseError::Incomplete,
        ),
{
    let tokens = split_whitespace(input.as_str());
    if tokens.len() < 4 {
        return Err(ParseError::Incomplete);
    }
    if !is_add_keyword(tokens[0]) {
        return Err(ParseError::InvalidKeyword);
    }
    if !is_to_preposition(tokens[2]) {
        return Err(ParseError::InvalidPreposition);
    }
    proof {
        lemma_words_are_words(input@, 1);
        lemma_words_are_words(input@, 3);
    }
    Ok(AddRequest { name: String::from_str(tokens[1]), department: String::from_str(tokens[3]) })
}

} // verus!
