//! The arguments of the command line, and the values that options take. An
//! argument that is not Unicode is `None`.

use crate::repetition::MINIMUM_REPETITIONS;
use crate::text::{
    characters, decimal, decimal_text, find, parse_usize, piece, pieces, same, split, starts,
    starts_with, texts, unsigned_value,
};
use vstd::prelude::*;

verus! {

/// The texts of arguments.
pub open spec fn words(arguments: Seq<Option<String>>) -> Seq<Option<Seq<char>>> {
    arguments.map_values(
        |argument: Option<String>|
            match argument {
                Some(text) => Some(text@),
                None => None,
            },
    )
}

/// The numbers of a list of positions.
pub open spec fn positions(list: Seq<usize>) -> Seq<int> {
    list.map_values(|position: usize| position as int)
}

/// Whether a text asks for help or for the version.
pub open spec fn is_action(text: Seq<char>) -> bool {
    ||| text == "-h"@
    ||| text == "--help"@
    ||| text == "-V"@
    ||| text == "--version"@
}

/// Where help or the version is asked for first, before the benchmark's
/// command starts.
pub open spec fn action_from(arguments: Seq<Option<Seq<char>>>, from: int) -> Option<int>
    decreases arguments.len() - from,
{
    if from >= arguments.len() {
        None
    } else {
        match arguments[from] {
            None => action_from(arguments, from + 1),
            Some(text) => if text == "--"@ {
                None
            } else if is_action(text) {
                Some(from)
            } else {
                action_from(arguments, from + 1)
            },
        }
    }
}

/// Where help or the version is asked for. The first argument is the program.
pub fn find_action(arguments: &Vec<Option<String>>) -> (position: Option<usize>)
    ensures
        match position {
            Some(position) => action_from(words(arguments@), 1) == Some(position as int),
            None => action_from(words(arguments@), 1) is None,
        },
{
    let ghost given = words(arguments@);
    proof {
        reveal_strlit("--");
        reveal_strlit("-h");
        reveal_strlit("--help");
        reveal_strlit("-V");
        reveal_strlit("--version");
    }
    let mut position: usize = 1;
    while position < arguments.len()
        invariant
            given == words(arguments@),
            1 <= position,
            action_from(given, 1) == action_from(given, position as int),
        decreases arguments@.len() - position,
    {
        assert(given[position as int] == (match arguments@[position as int] {
            Some(text) => Some(text@),
            None => None,
        }));
        if let Some(text) = &arguments[position] {
            let text = text.as_str();
            if same(text, "--") {
                return None;
            }
            if same(text, "-h") || same(text, "--help") || same(text, "-V") || same(
                text,
                "--version",
            ) {
                return Some(position);
            }
        }
        position += 1;
    }
    None
}

/// What an argument before the next one still takes.
#[derive(Clone, Copy, Debug, PartialEq, Eq, Structural)]
pub enum Wanted {
    Nothing,
    OneValue,
    Values,
}

/// Whether an argument is a selector, alone or with its value.
pub open spec fn selects(text: Seq<char>, option: Seq<char>) -> bool {
    text == option || starts(text, option + "="@)
}

/// Whether an argument is a value rather than another option.
pub open spec fn is_value(argument: Option<Seq<char>>) -> bool {
    argument matches Some(text) ==> !starts(text, "-"@)
}

/// Whether an argument is taken over from the command line to choose the
/// configuration and its benchmarks, and what it still takes; `None` ends the
/// options.
pub open spec fn selection(argument: Option<Seq<char>>, wanted: Wanted) -> Option<(bool, Wanted)> {
    if wanted != Wanted::Nothing && is_value(argument) {
        Some(
            (
                true,
                if wanted == Wanted::Values {
                    Wanted::Values
                } else {
                    Wanted::Nothing
                },
            ),
        )
    } else {
        match argument {
            None => Some((false, Wanted::Nothing)),
            Some(text) => if text == "--"@ {
                None
            } else if selects(text, "--config"@) {
                Some(
                    (
                        true,
                        if text.contains('=') {
                            Wanted::Nothing
                        } else {
                            Wanted::OneValue
                        },
                    ),
                )
            } else if selects(text, "--benchmark"@) {
                Some((true, Wanted::Values))
            } else {
                Some((false, Wanted::Nothing))
            },
        }
    }
}

/// Which arguments from a position on are taken over.
pub open spec fn selected(
    arguments: Seq<Option<Seq<char>>>,
    from: int,
    wanted: Wanted,
) -> Seq<int>
    decreases arguments.len() - from,
{
    if from >= arguments.len() {
        Seq::empty()
    } else {
        match selection(arguments[from], wanted) {
            None => Seq::empty(),
            Some((taken, next)) => if taken {
                seq![from] + selected(arguments, from + 1, next)
            } else {
                selected(arguments, from + 1, next)
            },
        }
    }
}

/// Whether an argument is taken over, and what it still takes.
fn select(argument: &Option<String>, wanted: Wanted) -> (choice: Option<(bool, Wanted)>)
    ensures
        choice == selection(
            match argument {
                Some(text) => Some(text@),
                None => None,
            },
            wanted,
        ),
{
    match argument {
        None => if wanted == Wanted::Nothing {
            Some((false, Wanted::Nothing))
        } else if wanted == Wanted::Values {
            Some((true, Wanted::Values))
        } else {
            Some((true, Wanted::Nothing))
        },
        Some(text) => {
            let text = text.as_str();
            if wanted != Wanted::Nothing && !starts_with(text, "-") {
                return if wanted == Wanted::Values {
                    Some((true, Wanted::Values))
                } else {
                    Some((true, Wanted::Nothing))
                };
            }
            if same(text, "--") {
                return None;
            }
            let config = "--config".to_owned().concat("=");
            let benchmark = "--benchmark".to_owned().concat("=");
            if same(text, "--config") || starts_with(text, config.as_str()) {
                match find(&characters(text), '=') {
                    Some(_) => Some((true, Wanted::Nothing)),
                    None => Some((true, Wanted::OneValue)),
                }
            } else if same(text, "--benchmark") || starts_with(text, benchmark.as_str()) {
                Some((true, Wanted::Values))
            } else {
                Some((false, Wanted::Nothing))
            }
        },
    }
}

/// The positions of the arguments that choose the configuration and its
/// benchmarks, with the program first.
pub fn selector_arguments(arguments: &Vec<Option<String>>) -> (chosen: Vec<usize>)
    requires
        arguments@.len() > 0,
    ensures
        positions(chosen@) == seq![0int] + selected(words(arguments@), 1, Wanted::Nothing),
        forall|i: int| 0 <= i < chosen@.len() ==> #[trigger] chosen@[i] < arguments@.len(),
{
    let ghost given = words(arguments@);
    let mut chosen: Vec<usize> = vec![0];
    let mut wanted = Wanted::Nothing;
    let mut position: usize = 1;
    assert(positions(chosen@) =~= seq![0int]);
    while position < arguments.len()
        invariant
            given == words(arguments@),
            1 <= position <= arguments@.len(),
            seq![0int] + selected(given, 1, Wanted::Nothing) == positions(chosen@) + selected(
                given,
                position as int,
                wanted,
            ),
            forall|i: int| 0 <= i < chosen@.len() ==> #[trigger] chosen@[i] < arguments@.len(),
        decreases arguments@.len() - position,
    {
        assert(given[position as int] == (match arguments@[position as int] {
            Some(text) => Some(text@),
            None => None,
        }));
        let ghost before = positions(chosen@);
        match select(&arguments[position], wanted) {
            None => {
                assert(before + Seq::empty() =~= before);
                return chosen;
            },
            Some((taken, next)) => {
                if taken {
                    chosen.push(position);
                    assert(positions(chosen@) =~= before.push(position as int));
                    assert(before + (seq![position as int] + selected(given, position + 1, next))
                        =~= positions(chosen@) + selected(given, position + 1, next));
                }
                wanted = next;
            },
        }
        position += 1;
    }
    assert(positions(chosen@) + Seq::empty() =~= positions(chosen@));
    chosen
}

/// The arguments that are taken over keep their order, and none of them stands
/// behind the end of the options.
pub proof fn selected_arguments_keep_their_order(
    arguments: Seq<Option<Seq<char>>>,
    from: int,
    wanted: Wanted,
    end: int,
)
    requires
        0 <= from <= end <= arguments.len(),
        end < arguments.len() ==> arguments[end] == Some("--"@),
    ensures
        ({
            let chosen = selected(arguments, from, wanted);
            &&& forall|i: int| 0 <= i < chosen.len() ==> from <= #[trigger] chosen[i] < end
            &&& forall|i: int, j: int| 0 <= i < j < chosen.len() ==> chosen[i] < chosen[j]
        }),
    decreases end - from,
{
    let chosen = selected(arguments, from, wanted);
    reveal_strlit("--");
    reveal_strlit("-");
    if from == end {
        if end < arguments.len() {
            assert("--"@.take(1) =~= "-"@);
            assert(starts("--"@, "-"@));
            assert(selection(arguments[from], wanted) is None);
        }
    } else {
        match selection(arguments[from], wanted) {
            None => {},
            Some((taken, next)) => {
                selected_arguments_keep_their_order(arguments, from + 1, next, end);
                let rest = selected(arguments, from + 1, next);
                if taken {
                    assert(chosen =~= seq![from] + rest);
                    assert forall|i: int| 0 <= i < chosen.len() implies from <= #[trigger] chosen[i]
                        < end by {
                        if i > 0 {
                            assert(chosen[i] == rest[i - 1]);
                        }
                    }
                    assert forall|i: int, j: int| 0 <= i < j < chosen.len() implies chosen[i]
                        < chosen[j] by {
                        assert(chosen[j] == rest[j - 1]);
                        if i > 0 {
                            assert(chosen[i] == rest[i - 1]);
                        }
                    }
                }
            },
        }
    }
}

/// Why a text is no environment variable.
#[derive(Clone, Debug)]
pub enum VariableError {
    NotKeyValue { text: String },
    EmptyName,
}

impl VariableError {
    /// What is said of the error.
    pub fn message(&self) -> (text: String)
        ensures
            text@ == (match self {
                VariableError::NotKeyValue { text } => "`"@ + text@ + "` is not `KEY=VALUE`."@,
                VariableError::EmptyName => "Environment variable name cannot be empty."@,
            }),
    {
        match self {
            VariableError::NotKeyValue { text } => "`".to_owned().concat(text.as_str()).concat(
                "` is not `KEY=VALUE`.",
            ),
            VariableError::EmptyName => "Environment variable name cannot be empty.".to_owned(),
        }
    }
}

/// Reads an environment variable as `KEY=VALUE`. The first equals sign ends
/// the name.
pub fn parse_env(text: &str) -> (result: Result<(String, String), VariableError>)
    ensures
        match result {
            Ok((name, value)) => {
                &&& name@.len() > 0
                &&& !name@.contains('=')
                &&& text@ == name@.push('=') + value@
            },
            Err(VariableError::NotKeyValue { text: given }) => given@ == text@
                && !text@.contains('='),
            Err(VariableError::EmptyName) => text@.len() > 0 && text@[0] == '=',
        },
{
    let characters = characters(text);
    match find(&characters, '=') {
        None => Err(VariableError::NotKeyValue { text: text.to_owned() }),
        Some(0) => Err(VariableError::EmptyName),
        Some(position) => {
            let end: usize = characters.len();
            let name = piece(&characters, 0, position);
            let value = piece(&characters, position + 1, end);
            assert(name@ =~= characters@.take(position as int));
            assert(name@.push('=') + value@ =~= text@);
            Ok((name, value))
        },
    }
}

/// A variable has one reading: a name without an equals sign, and the value
/// behind the first one.
pub proof fn a_variable_has_one_reading(
    name: Seq<char>,
    value: Seq<char>,
    other_name: Seq<char>,
    other_value: Seq<char>,
)
    requires
        !name.contains('='),
        !other_name.contains('='),
        name.push('=') + value == other_name.push('=') + other_value,
    ensures
        name == other_name,
        value == other_value,
{
    let text = name.push('=') + value;
    assert(text[name.len() as int] == '=');
    assert(text[other_name.len() as int] == '=');
    if name.len() < other_name.len() {
        assert(other_name[name.len() as int] == '=');
        assert(false);
    }
    if other_name.len() < name.len() {
        assert(name[other_name.len() as int] == '=');
        assert(false);
    }
    assert(name =~= text.take(name.len() as int));
    assert(other_name =~= text.take(name.len() as int));
    assert(value =~= text.skip(name.len() as int + 1));
    assert(other_value =~= text.skip(name.len() as int + 1));
}

/// Whose rules a path follows.
#[derive(Clone, Copy, Debug, PartialEq, Eq, Structural)]
pub enum PathStyle {
    Unix,
    Windows,
}

/// A path with one kind of separator.
pub open spec fn with_slashes(path: Seq<char>, style: PathStyle) -> Seq<char> {
    path.map_values(
        |character: char|
            if style == PathStyle::Windows && character == '\\' {
                '/'
            } else {
                character
            },
    )
}

/// Whether a path starts with a drive.
pub open spec fn has_drive(path: Seq<char>) -> bool {
    &&& path.len() >= 2
    &&& 'a' <= path[0] <= 'z' || 'A' <= path[0] <= 'Z'
    &&& path[1] == ':'
}

/// Whether a path names something inside the directory that it is relative to:
/// it has no root and no drive, and it never steps up.
pub open spec fn stays_inside(path: Seq<char>, style: PathStyle) -> bool {
    let slashed = with_slashes(path, style);
    &&& !(path.len() > 0 && slashed[0] == '/')
    &&& !(style == PathStyle::Windows && has_drive(path))
    &&& !pieces(slashed, '/').contains(".."@)
}

/// What is said of a working directory outside the worktree.
pub const OUTSIDE_WORKTREE: &'static str =
    "Working directory must be relative to the worktree root and cannot contain `..`.";

/// Checks that a working directory stays inside the worktree.
pub fn parse_working_directory(text: &str, style: PathStyle) -> (result: Result<String, ()>)
    ensures
        match result {
            Ok(path) => path@ == text@ && stays_inside(text@, style),
            Err(_) => !stays_inside(text@, style),
        },
{
    let path = characters(text);
    let mut slashed = String::new();
    for i in 0..path.len()
        invariant
            path@ == text@,
            slashed@ == with_slashes(path@.take(i as int), style),
    {
        let character = path[i];
        if style == PathStyle::Windows && character == '\\' {
            slashed.push('/');
        } else {
            slashed.push(character);
        }
        assert(path@.take(i + 1) =~= path@.take(i as int).push(character));
        assert(slashed@ =~= with_slashes(path@.take(i + 1), style));
    }
    assert(path@.take(path@.len() as int) =~= path@);
    if path.len() > 0 {
        let first = path[0];
        if first == '/' || (style == PathStyle::Windows && first == '\\') {
            return Err(());
        }
    }
    if style == PathStyle::Windows && path.len() >= 2 {
        let first = path[0];
        if (('a' <= first && first <= 'z') || ('A' <= first && first <= 'Z')) && path[1] == ':' {
            return Err(());
        }
    }
    let components = split(slashed.as_str(), '/');
    let ghost named = pieces(slashed@, '/');
    for i in 0..components.len()
        invariant
            texts(components@) == named,
            named == pieces(with_slashes(text@, style), '/'),
            forall|j: int| 0 <= j < i ==> #[trigger] named[j] != ".."@,
    {
        assert(named[i as int] == components@[i as int]@);
        if same(components[i].as_str(), "..") {
            assert(named.contains(".."@));
            return Err(());
        }
    }
    assert(texts(components@).len() == components@.len());
    Ok(text.to_owned())
}

/// Why a text is no count.
#[derive(Clone, Debug)]
pub enum CountError {
    NotPositive { text: String },
    TooFew,
}

/// The least number of draws.
pub const MINIMUM_DRAWS: usize = 1_000;

/// The positive number that a text denotes, where it fits.
pub open spec fn positive(text: Seq<char>) -> Option<nat> {
    match unsigned_value(text) {
        Some(value) if 0 < value <= usize::MAX => Some(value),
        _ => None,
    }
}

/// Reads a count of at least a minimum.
fn parse_count(text: &str, minimum: usize) -> (result: Result<usize, CountError>)
    ensures
        match positive(text@) {
            None => result matches Err(CountError::NotPositive { text: given }) && given@ == text@,
            Some(value) => if value < minimum {
                result matches Err(CountError::TooFew)
            } else {
                result == Ok::<usize, CountError>(value as usize)
            },
        },
{
    match parse_usize(text) {
        None => Err(CountError::NotPositive { text: text.to_owned() }),
        Some(0) => Err(CountError::NotPositive { text: text.to_owned() }),
        Some(count) => if count < minimum {
            Err(CountError::TooFew)
        } else {
            Ok(count)
        },
    }
}

/// Reads the number of repetitions.
pub fn parse_repetitions(text: &str) -> (result: Result<usize, CountError>)
    ensures
        match positive(text@) {
            None => result matches Err(CountError::NotPositive { text: given }) && given@ == text@,
            Some(value) => if value < MINIMUM_REPETITIONS {
                result matches Err(CountError::TooFew)
            } else {
                result == Ok::<usize, CountError>(value as usize)
            },
        },
        result matches Ok(count) ==> count >= 10 && unsigned_value(text@) == Some(count as nat),
        result is Ok <==> (unsigned_value(text@) matches Some(value) && 10 <= value <= usize::MAX),
        result matches Err(error) ==> (error is TooFew <==> (unsigned_value(text@) matches Some(
            value,
        ) && 0 < value < 10)),
{
    parse_count(text, MINIMUM_REPETITIONS)
}

/// Reads the number of draws.
pub fn parse_draws(text: &str) -> (result: Result<usize, CountError>)
    ensures
        match positive(text@) {
            None => result matches Err(CountError::NotPositive { text: given }) && given@ == text@,
            Some(value) => if value < MINIMUM_DRAWS {
                result matches Err(CountError::TooFew)
            } else {
                result == Ok::<usize, CountError>(value as usize)
            },
        },
        result matches Ok(count) ==> count >= 1000 && unsigned_value(text@) == Some(count as nat),
        result is Ok <==> (unsigned_value(text@) matches Some(value) && 1000 <= value <= usize::MAX),
        result matches Err(error) ==> (error is TooFew <==> (unsigned_value(text@) matches Some(
            value,
        ) && 0 < value < 1000)),
{
    parse_count(text, MINIMUM_DRAWS)
}

/// What is said of a count of something.
pub open spec fn count_text(error: CountError, minimum: nat, what: Seq<char>) -> Seq<char> {
    match error {
        CountError::NotPositive { text } => "`"@ + text@ + "` is not a positive integer."@,
        CountError::TooFew => "At least "@ + decimal_text(minimum) + " "@ + what
            + " are required."@,
    }
}

impl CountError {
    fn text(&self, minimum: usize, what: &str) -> (text: String)
        ensures
            text@ == count_text(*self, minimum as nat, what@),
    {
        match self {
            CountError::NotPositive { text } => "`".to_owned().concat(text.as_str()).concat(
                "` is not a positive integer.",
            ),
            CountError::TooFew => "At least ".to_owned().concat(
                decimal(minimum as u64).as_str(),
            ).concat(" ").concat(what).concat(" are required."),
        }
    }

    /// What is said of a wrong number of repetitions.
    pub fn of_repetitions(&self) -> (text: String)
        ensures
            text@ == count_text(*self, MINIMUM_REPETITIONS as nat, "repetitions"@),
            text@ == (match self {
                CountError::NotPositive { text } => "`"@ + text@ + "` is not a positive integer."@,
                CountError::TooFew => "At least "@ + decimal_text(10) + " "@ + "repetitions"@
                    + " are required."@,
            }),
    {
        self.text(MINIMUM_REPETITIONS, "repetitions")
    }

    /// What is said of a wrong number of draws.
    pub fn of_draws(&self) -> (text: String)
        ensures
            text@ == count_text(*self, MINIMUM_DRAWS as nat, "draws"@),
            text@ == (match self {
                CountError::NotPositive { text } => "`"@ + text@ + "` is not a positive integer."@,
                CountError::TooFew => "At least "@ + decimal_text(1000) + " "@ + "draws"@
                    + " are required."@,
            }),
    {
        self.text(MINIMUM_DRAWS, "draws")
    }
}

/// `rand::random` draws a number. Nothing is known of it.
#[verifier::external_body]
fn random() -> u64 {
    rand::random()
}

/// The seed of a suite: the given one, else a random one.
pub fn suite_seed(given: Option<u64>) -> (seed: u64)
    ensures
        given matches Some(number) ==> seed == number,
{
    match given {
        Some(seed) => seed,
        None => random(),
    }
}

/// Help or the version is asked for by four arguments. The first of them counts,
/// unless the benchmark's command starts before it.
pub proof fn the_first_action_counts(arguments: Seq<Option<Seq<char>>>, from: int)
    requires
        0 <= from,
    ensures
        match action_from(arguments, from) {
            Some(found) => {
                &&& from <= found < arguments.len()
                &&& arguments[found] == Some("-h"@) || arguments[found] == Some("--help"@)
                    || arguments[found] == Some("-V"@) || arguments[found] == Some("--version"@)
                &&& forall|i: int|
                    from <= i < found ==> #[trigger] arguments[i] != Some("--"@) && arguments[i]
                        != Some("-h"@) && arguments[i] != Some("--help"@) && arguments[i] != Some(
                        "-V"@,
                    ) && arguments[i] != Some("--version"@)
            },
            None => forall|i: int|
                from <= i < arguments.len() && (#[trigger] arguments[i] == Some("-h"@)
                    || arguments[i] == Some("--help"@) || arguments[i] == Some("-V"@)
                    || arguments[i] == Some("--version"@)) ==> exists|j: int|
                    from <= j < i && #[trigger] arguments[j] == Some("--"@),
        },
    decreases arguments.len() - from,
{
    reveal_strlit("--");
    reveal_strlit("-h");
    reveal_strlit("--help");
    reveal_strlit("-V");
    reveal_strlit("--version");
    assert("--"@[1] == '-' && "-h"@[1] == 'h' && "-V"@[1] == 'V');
    assert("--"@.len() == 2 && "--help"@.len() == 6 && "--version"@.len() == 9);
    if from < arguments.len() {
        the_first_action_counts(arguments, from + 1);
    }
}

proof fn selectors_are_options(text: Seq<char>)
    ensures
        selects(text, "--config"@) <==> text == "--config"@ || starts(text, "--config="@),
        selects(text, "--benchmark"@) <==> text == "--benchmark"@ || starts(text, "--benchmark="@),
        selects(text, "--config"@) || selects(text, "--benchmark"@) ==> starts(text, "-"@) && text
            != "--"@,
        !(selects(text, "--config"@) && selects(text, "--benchmark"@)),
        selects(text, "--config"@) ==> (text.contains('=') <==> text != "--config"@),
{
    reveal_strlit("-");
    reveal_strlit("--");
    reveal_strlit("=");
    reveal_strlit("--config");
    reveal_strlit("--config=");
    reveal_strlit("--benchmark");
    reveal_strlit("--benchmark=");
    assert("--config"@ + "="@ =~= "--config="@);
    assert("--benchmark"@ + "="@ =~= "--benchmark="@);
    if starts(text, "--config="@) {
        assert(text[2] == text.take(9)[2] && text[0] == text.take(9)[0] && text[8] == text.take(
            9,
        )[8]);
        assert("--config="@[2] == 'c' && "--config="@[0] == '-' && "--config="@[8] == '=');
        assert("--config"@.len() == 8);
        assert(text.take(1) =~= "-"@);
    }
    if starts(text, "--benchmark="@) {
        assert(text[2] == text.take(12)[2] && text[0] == text.take(12)[0]);
        assert("--benchmark="@[2] == 'b' && "--benchmark="@[0] == '-');
        assert(text.take(1) =~= "-"@);
    }
    assert("--config"@[2] == 'c' && "--benchmark"@[2] == 'b');
    assert("--config"@.take(1) =~= "-"@);
    assert("--benchmark"@.take(1) =~= "-"@);
    assert("--config"@.len() == 8 && "--benchmark"@.len() == 11 && "--"@.len() == 2);
    assert(!"--config"@.contains('='));
}

#[verifier::rlimit(60)]
proof fn these_are_selected_from(
    arguments: Seq<Option<Seq<char>>>,
    from: int,
    wanted: Wanted,
    end: int,
    position: int,
)
    requires
        1 <= from <= position < end <= arguments.len(),
        end < arguments.len() ==> arguments[end] == Some("--"@),
        forall|i: int| from <= i < end ==> #[trigger] arguments[i] != Some("--"@),
        wanted == Wanted::OneValue <==> from >= 2 && arguments[from - 1] == Some("--config"@),
        wanted == Wanted::Values <==> exists|q: int|
            {
                &&& 1 <= q < from
                &&& (#[trigger] arguments[q] matches Some(text) && (text == "--benchmark"@ || starts(
                    text,
                    "--benchmark="@,
                )))
                &&& forall|j: int|
                    q < j < from ==> (#[trigger] arguments[j] matches Some(text) ==> !starts(
                        text,
                        "-"@,
                    ))
            },
    ensures
        selected(arguments, from, wanted).contains(position) <==> {
            ||| (arguments[position] matches Some(text) && (text == "--config"@ || starts(
                text,
                "--config="@,
            ) || text == "--benchmark"@ || starts(text, "--benchmark="@)))
            ||| (arguments[position] matches Some(text) ==> !starts(text, "-"@)) && position >= 2
                && arguments[position - 1] == Some("--config"@)
            ||| (arguments[position] matches Some(text) ==> !starts(text, "-"@)) && exists|q: int|
                {
                    &&& 1 <= q < position
                    &&& (#[trigger] arguments[q] matches Some(text) && (text == "--benchmark"@
                        || starts(text, "--benchmark="@)))
                    &&& forall|j: int|
                        q < j < position ==> (#[trigger] arguments[j] matches Some(text) ==> !starts(
                            text,
                            "-"@,
                        ))
                }
        },
    decreases end - from,
{
    let chosen = selected(arguments, from, wanted);
    let given = arguments[from];
    if let Some(text) = given {
        selectors_are_options(text);
    }
    if from >= 2 {
        if let Some(text) = arguments[from - 1] {
            selectors_are_options(text);
        }
    }
    assert(given != Some("--"@));
    let (taken, next) = selection(given, wanted)->0;
    let rest = selected(arguments, from + 1, next);
    selected_arguments_keep_their_order(arguments, from + 1, next, end);
    if taken {
        assert(chosen =~= seq![from] + rest);
    }
    if position == from {
        if taken {
            assert(chosen[0] == from);
        } else if chosen.contains(from) {
            let i = choose|i: int| 0 <= i < chosen.len() && chosen[i] == from;
            assert(rest[i] == from);
        }
    } else {
        assert(chosen.contains(position) <==> rest.contains(position)) by {
            if taken {
                if chosen.contains(position) {
                    let i = choose|i: int| 0 <= i < chosen.len() && chosen[i] == position;
                    assert(rest[i - 1] == position);
                }
                if rest.contains(position) {
                    let i = choose|i: int| 0 <= i < rest.len() && rest[i] == position;
                    assert(chosen[i + 1] == position);
                }
            }
        }
        assert(next == Wanted::Values <==> exists|q: int|
            {
                &&& 1 <= q < from + 1
                &&& (#[trigger] arguments[q] matches Some(text) && (text == "--benchmark"@ || starts(
                    text,
                    "--benchmark="@,
                )))
                &&& forall|j: int|
                    q < j < from + 1 ==> (#[trigger] arguments[j] matches Some(text) ==> !starts(
                        text,
                        "-"@,
                    ))
            }) by {
            if next == Wanted::Values {
                if wanted == Wanted::Values && is_value(given) {
                    let q = choose|q: int|
                        {
                            &&& 1 <= q < from
                            &&& (#[trigger] arguments[q] matches Some(text) && (text
                                == "--benchmark"@ || starts(text, "--benchmark="@)))
                            &&& forall|j: int|
                                q < j < from ==> (#[trigger] arguments[j] matches Some(text)
                                    ==> !starts(text, "-"@))
                        };
                    assert(1 <= q < from + 1);
                } else {
                    assert(arguments[from] == given);
                }
            }
        }
        these_are_selected_from(arguments, from + 1, next, end, position);
    }
}

/// Which arguments before the benchmark's command choose the configuration and
/// its benchmarks: `--config` and `--benchmark`, alone or with a value behind an
/// equals sign; the argument behind a lone `--config`, where it is no option; and
/// all arguments behind a `--benchmark` up to the next option.
pub proof fn these_arguments_are_selected(
    arguments: Seq<Option<Seq<char>>>,
    end: int,
    position: int,
)
    requires
        1 <= position < end <= arguments.len(),
        end < arguments.len() ==> arguments[end] == Some("--"@),
        forall|i: int| 1 <= i < end ==> #[trigger] arguments[i] != Some("--"@),
    ensures
        selected(arguments, 1, Wanted::Nothing).contains(position) <==> {
            ||| (arguments[position] matches Some(text) && (text == "--config"@ || starts(
                text,
                "--config="@,
            ) || text == "--benchmark"@ || starts(text, "--benchmark="@)))
            ||| (arguments[position] matches Some(text) ==> !starts(text, "-"@)) && position >= 2
                && arguments[position - 1] == Some("--config"@)
            ||| (arguments[position] matches Some(text) ==> !starts(text, "-"@)) && exists|q: int|
                {
                    &&& 1 <= q < position
                    &&& (#[trigger] arguments[q] matches Some(text) && (text == "--benchmark"@
                        || starts(text, "--benchmark="@)))
                    &&& forall|j: int|
                        q < j < position ==> (#[trigger] arguments[j] matches Some(text) ==> !starts(
                            text,
                            "-"@,
                        ))
                }
        },
{
    these_are_selected_from(arguments, 1, Wanted::Nothing, end, position);
}

/// A path stays inside where it does not start at a root and never steps up.
/// With Windows' rules a backslash separates, too, and a drive is no place
/// inside either.
pub proof fn paths_stay_inside(path: Seq<char>, slashed: Seq<char>)
    requires
        slashed.len() == path.len(),
        forall|i: int|
            0 <= i < path.len() ==> #[trigger] slashed[i] == (if path[i] == '\\' {
                '/'
            } else {
                path[i]
            }),
    ensures
        stays_inside(path, PathStyle::Unix) <==> !(path.len() > 0 && path[0] == '/') && !pieces(
            path,
            '/',
        ).contains(".."@),
        stays_inside(path, PathStyle::Windows) <==> {
            &&& !(path.len() > 0 && (path[0] == '/' || path[0] == '\\'))
            &&& !(path.len() >= 2 && ('a' <= path[0] <= 'z' || 'A' <= path[0] <= 'Z') && path[1]
                == ':')
            &&& !pieces(slashed, '/').contains(".."@)
        },
{
    assert(with_slashes(path, PathStyle::Unix) =~= path);
    assert(with_slashes(path, PathStyle::Windows) =~= slashed);
}

/// Arguments and positions are told one by one.
pub proof fn arguments_are_told_one_by_one(
    arguments: Seq<Option<String>>,
    list: Seq<usize>,
    i: int,
)
    ensures
        words(arguments).len() == arguments.len(),
        0 <= i < arguments.len() ==> match arguments[i] {
            Some(text) => words(arguments)[i] == Some(text@),
            None => words(arguments)[i] is None,
        },
        positions(list).len() == list.len(),
        0 <= i < list.len() ==> positions(list)[i] == list[i],
{
}

} // verus!
