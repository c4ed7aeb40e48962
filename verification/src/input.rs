//! Reading a program from JSON text: a top-level array whose elements are
//! the instruction lines.

use crate::text::strings_view;
use vstd::prelude::*;

verus! {

/// `serde_json::Error`, the error of `serde_json::from_str`: an opaque
/// value that is carried to the caller and never looked into.
#[verifier::external_type_specification]
#[verifier::external_body]
pub struct ExJsonError(serde_json::Error);

/// What `serde_json` makes of a text, as far as a program is concerned:
/// `None` where the text is not one JSON value, `Some(None)` where the value
/// is not an array, and otherwise the elements of the array, each with its
/// characters where it is a string and `None` where it is anything else.
pub uninterp spec fn json_outline(text: Seq<char>) -> Option<Option<Seq<Option<Seq<char>>>>>;

/// The contents of a list of optional strings.
pub open spec fn items_view(items: Seq<Option<String>>) -> Seq<Option<Seq<char>>> {
    items.map_values(
        |item: Option<String>|
            match item {
                Some(s) => Some(s@),
                None => None,
            },
    )
}

/// The program that the elements of a JSON array stand for: a string is an
/// instruction line, and any other element is an empty line.
pub open spec fn program_of(items: Seq<Option<Seq<char>>>) -> Seq<Seq<char>> {
    items.map_values(
        |item: Option<Seq<char>>|
            match item {
                Some(line) => line,
                None => Seq::empty(),
            },
    )
}

/// Why a text gave no program.
#[derive(Debug)]
pub enum InputError {
    /// The text is not one JSON value.
    Syntax(serde_json::Error),
    /// The JSON value is not an array.
    NotAnArray,
}

/// Parses `text` with `serde_json::from_str` into a `serde_json::Value`,
/// and reads the value with `Value::as_array` and each element with
/// `Value::as_str`. The contract only names the outcome: it is
/// [`json_outline`] of the text, an error standing for `None`.
#[verifier::external_body]
fn read_outline(text: &str) -> (r: Result<Option<Vec<Option<String>>>, serde_json::Error>)
    ensures
        match r {
            Ok(Some(items)) => json_outline(text@) == Some(Some(items_view(items@))),
            Ok(None) => json_outline(text@) == Some(None::<Seq<Option<Seq<char>>>>),
            Err(_) => json_outline(text@) is None,
        },
{
    let value: serde_json::Value = serde_json::from_str(text)?;
    Ok(
        value.as_array().map(
            |items| items.iter().map(|item| item.as_str().map(|s| s.to_string())).collect(),
        ),
    )
}

/// The program that the elements of a JSON array stand for; see
/// [`program_of`].
pub fn program_from_items(items: &Vec<Option<String>>) -> (program: Vec<String>)
    ensures
        strings_view(program@) == program_of(items_view(items@)),
{
    let mut program: Vec<String> = Vec::new();
    let mut i: usize = 0;
    while i < items.len()
        invariant
            i <= items.len(),
            program.len() == i,
            forall|j: int|
                0 <= j < i ==> (#[trigger] program[j])@ == match items[j] {
                    Some(s) => s@,
                    None => Seq::<char>::empty(),
                },
        decreases items.len() - i,
    {
        let line = match &items[i] {
            Some(s) => s.clone(),
            None => String::new(),
        };
        program.push(line);
        i += 1;
    }
    assert(strings_view(program@) =~= program_of(items_view(items@)));
    program
}

/// Reads a program from JSON text. The text must be one JSON array; each
/// element that is a string is an instruction line, and each other element
/// is an empty line.
pub fn parse_program(text: &str) -> (r: Result<Vec<String>, InputError>)
    ensures
        match r {
            Ok(program) => json_outline(text@) matches Some(Some(items)) && strings_view(program@)
                == program_of(items),
            Err(InputError::Syntax(_)) => json_outline(text@) is None,
            Err(InputError::NotAnArray) => json_outline(text@) == Some(
                None::<Seq<Option<Seq<char>>>>,
            ),
        },
{
    match read_outline(text) {
        Ok(Some(items)) => Ok(program_from_items(&items)),
        Ok(None) => Err(InputError::NotAnArray),
        Err(e) => Err(InputError::Syntax(e)),
    }
}

} // verus!
