//! What is written down of a benchmark's configuration.

use crate::text::texts;
use vstd::prelude::*;

verus! {

/// The texts of the parts of a command; a part that is not Unicode has none.
pub open spec fn parts(command: Seq<Option<String>>) -> Seq<Option<Seq<char>>> {
    command.map_values(
        |part: Option<String>|
            match part {
                Some(text) => Some(text@),
                None => None,
            },
    )
}

/// Whether every part of a command is Unicode.
pub open spec fn is_text(command: Seq<Option<String>>) -> bool {
    forall|i: int| 0 <= i < command.len() ==> (#[trigger] command[i]) is Some
}

/// What is said of a command that is not Unicode.
pub open spec fn not_text(name: Seq<char>) -> Seq<char> {
    "The "@ + name + " command contains non-UTF-8 text."@
}

/// The words of a command, where every part is Unicode; else what is said of it.
pub fn utf8(name: &str, command: &Vec<Option<String>>) -> (result: Result<Vec<String>, String>)
    ensures
        match result {
            Ok(words) => is_text(command@) && texts(words@).map_values(
                |word: Seq<char>| Some(word),
            ) == parts(command@),
            Err(text) => !is_text(command@) && text@ == not_text(name@),
        },
        result is Ok <==> forall|i: int|
            0 <= i < command@.len() ==> (#[trigger] command@[i]) is Some,
        result matches Ok(words) ==> words@.len() == command@.len() && forall|i: int|
            0 <= i < command@.len() ==> ((#[trigger] command@[i]) matches Some(text) && words@[i]@
                == text@),
        result matches Err(text) ==> text@ == "The "@ + name@
            + " command contains non-UTF-8 text."@,
{
    let mut words: Vec<String> = Vec::new();
    for i in 0..command.len()
        invariant
            words@.len() == i,
            forall|j: int| 0 <= j < i ==> (#[trigger] command@[j]) is Some,
            forall|j: int|
                0 <= j < i ==> (command@[j] matches Some(text) && (#[trigger] words@[j])@ == text@),
    {
        match &command[i] {
            Some(text) => {
                words.push(text.as_str().to_owned());
            },
            None => {
                assert(!is_text(command@)) by {
                    assert(command@[i as int] is None);
                }
                return Err(
                    "The ".to_owned().concat(name).concat(" command contains non-UTF-8 text."),
                );
            },
        }
    }
    assert forall|j: int| 0 <= j < command@.len() implies parts(command@)[j] == Some(
        (#[trigger] words@[j])@,
    ) by {
        assert(command@[j] is Some);
    }
    assert(texts(words@).map_values(|word: Seq<char>| Some(word)) =~= parts(command@));
    Ok(words)
}

} // verus!
