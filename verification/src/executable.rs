//! Which file a program name stands for on Windows. What the file system and
//! the environment say is given; what follows from it is decided here.

use crate::text::{characters, texts};
use vstd::prelude::*;

verus! {

/// An ASCII letter in lower case.
pub open spec fn lower(character: char) -> char {
    if 'A' <= character <= 'Z' {
        (character as u32 + 32) as char
    } else {
        character
    }
}

/// A text with its ASCII letters in lower case.
pub open spec fn lowered(text: Seq<char>) -> Seq<char> {
    text.map_values(|character: char| lower(character))
}

fn lower_case(character: char) -> (lowered: char)
    ensures
        lowered == lower(character),
{
    if 'A' <= character && character <= 'Z' {
        (character as u8 + 32) as char
    } else {
        character
    }
}

/// Whether two texts differ at most in the case of ASCII letters.
pub fn same_ignoring_case(one: &str, other: &str) -> (answer: bool)
    ensures
        answer == (lowered(one@) == lowered(other@)),
{
    let first = characters(one);
    let second = characters(other);
    assert(lowered(one@).len() == first@.len());
    assert(lowered(other@).len() == second@.len());
    if first.len() != second.len() {
        return false;
    }
    for i in 0..first.len()
        invariant
            first@ == one@,
            second@ == other@,
            first@.len() == second@.len(),
            forall|j: int| 0 <= j < i ==> lower(#[trigger] first@[j]) == lower(second@[j]),
    {
        if lower_case(first[i]) != lower_case(second[i]) {
            assert(lowered(one@)[i as int] != lowered(other@)[i as int]);
            return false;
        }
    }
    assert(lowered(one@) =~= lowered(other@));
    true
}

/// What a path leads to.
#[derive(Clone, Copy, Debug, PartialEq, Eq, Structural)]
pub enum Kind {
    Binary,
    Batch,
    Missing,
}

/// What a path leads to, given whether a file is there and its extension.
pub open spec fn kind_of(is_file: bool, extension: Option<Seq<char>>) -> Kind {
    if !is_file {
        Kind::Missing
    } else {
        match extension {
            Some(text) => if lowered(text) == lowered("bat"@) || lowered(text) == lowered("cmd"@) {
                Kind::Batch
            } else {
                Kind::Binary
            },
            None => Kind::Binary,
        }
    }
}

/// What a path leads to. An extension that is not Unicode is no batch file's.
pub fn kind(is_file: bool, extension: Option<&str>) -> (kind: Kind)
    ensures
        kind == kind_of(
            is_file,
            match extension {
                Some(text) => Some(text@),
                None => None,
            },
        ),
        kind is Missing <==> !is_file,
        kind is Batch <==> is_file && (extension matches Some(text) && (lowered(text@) == "bat"@
            || lowered(text@) == "cmd"@)),
{
    proof {
        these_words_are_lowered();
    }
    if !is_file {
        return Kind::Missing;
    }
    match extension {
        Some(text) => if same_ignoring_case(text, "bat") || same_ignoring_case(text, "cmd") {
            Kind::Batch
        } else {
            Kind::Binary
        },
        None => Kind::Binary,
    }
}

/// How a program name is completed to a file name.
#[derive(Clone, Copy, Debug, PartialEq, Eq, Structural)]
pub enum Form {
    /// With the extension `exe`.
    Executable,
    /// As it is.
    Literal,
}

/// The forms to try, in their order: a name without an extension is first
/// completed.
pub open spec fn forms(has_extension: bool) -> Seq<Form> {
    if has_extension {
        seq![Form::Literal]
    } else {
        seq![Form::Executable, Form::Literal]
    }
}

/// The forms to try, in their order.
pub fn executable_forms(has_extension: bool) -> (tried: Vec<Form>)
    ensures
        tried@ == forms(has_extension),
        has_extension ==> tried@ =~= seq![Form::Literal],
        !has_extension ==> tried@ =~= seq![Form::Executable, Form::Literal],
{
    if has_extension {
        vec![Form::Literal]
    } else {
        vec![Form::Executable, Form::Literal]
    }
}

/// What is found where a name stands in a directory.
#[derive(Clone, Copy, Debug, PartialEq, Eq, Structural)]
pub struct Probe {
    pub executable: Kind,
    pub literal: Kind,
    /// Whether the name with the extension `bat` is a file.
    pub bat: bool,
    /// Whether the name with the extension `cmd` is a file.
    pub cmd: bool,
}

impl Probe {
    pub open spec fn found(self, form: Form) -> Kind {
        match form {
            Form::Executable => self.executable,
            Form::Literal => self.literal,
        }
    }

    /// What is found of a form.
    pub fn at(self, form: Form) -> (kind: Kind)
        ensures
            kind == self.found(form),
            form is Executable ==> kind == self.executable,
            form is Literal ==> kind == self.literal,
    {
        match form {
            Form::Executable => self.executable,
            Form::Literal => self.literal,
        }
    }
}

/// What an explicit path stands for.
#[derive(Clone, Copy, Debug, PartialEq, Eq, Structural)]
pub enum Explicit {
    Run(Form),
    Batch(Form),
    Missing,
}

/// What an explicit path stands for: the first form that is there decides.
pub open spec fn explicit_choice(has_extension: bool, probe: Probe) -> Explicit {
    if !has_extension && probe.executable == Kind::Binary {
        Explicit::Run(Form::Executable)
    } else if !has_extension && probe.executable == Kind::Batch {
        Explicit::Batch(Form::Executable)
    } else {
        match probe.literal {
            Kind::Binary => Explicit::Run(Form::Literal),
            Kind::Batch => Explicit::Batch(Form::Literal),
            Kind::Missing => Explicit::Missing,
        }
    }
}

/// What an explicit path stands for.
pub fn resolve_explicit(has_extension: bool, probe: Probe) -> (choice: Explicit)
    ensures
        choice == explicit_choice(has_extension, probe),
        choice == Explicit::Run(Form::Executable) <==> !has_extension && probe.executable is Binary,
        choice == Explicit::Batch(Form::Executable) <==> !has_extension && probe.executable is Batch,
        choice == Explicit::Run(Form::Literal) <==> (has_extension || probe.executable is Missing)
            && probe.literal is Binary,
        choice == Explicit::Batch(Form::Literal) <==> (has_extension || probe.executable is Missing)
            && probe.literal is Batch,
{
    let tried = executable_forms(has_extension);
    let mut position: usize = 0;
    while position < tried.len()
        invariant
            tried@ == forms(has_extension),
            position <= tried@.len(),
            forall|i: int| 0 <= i < position ==> probe.found(#[trigger] tried@[i]) == Kind::Missing,
        decreases tried@.len() - position,
    {
        let form = tried[position];
        match probe.at(form) {
            Kind::Binary => {
                assert(position == 1 ==> probe.found(tried@[0]) == Kind::Missing);
                return Explicit::Run(form);
            },
            Kind::Batch => {
                assert(position == 1 ==> probe.found(tried@[0]) == Kind::Missing);
                return Explicit::Batch(form);
            },
            Kind::Missing => {},
        }
        position += 1;
    }
    assert(probe.found(tried@[0]) == Kind::Missing);
    assert(probe.found(tried@[tried@.len() - 1]) == Kind::Missing);
    Explicit::Missing
}

/// A kind of batch file.
#[derive(Clone, Copy, Debug, PartialEq, Eq, Structural)]
pub enum Script {
    Bat,
    Cmd,
}

/// What a bare name stands for.
#[derive(Clone, Copy, Debug, PartialEq, Eq, Structural)]
pub enum Bare {
    Run { directory: usize, form: Form },
    Batch { directory: usize, script: Script },
    Missing,
}

/// The first form of a name that is an executable.
pub open spec fn runnable(has_extension: bool, probe: Probe) -> Option<Form> {
    if !has_extension && probe.executable == Kind::Binary {
        Some(Form::Executable)
    } else if probe.literal == Kind::Binary {
        Some(Form::Literal)
    } else {
        None
    }
}

/// The batch file with a name.
pub open spec fn script(probe: Probe) -> Option<Script> {
    if probe.bat {
        Some(Script::Bat)
    } else if probe.cmd {
        Some(Script::Cmd)
    } else {
        None
    }
}

/// Where an executable is found first, from a directory on.
pub open spec fn first_runnable(
    has_extension: bool,
    probes: Seq<Probe>,
    from: int,
) -> Option<(int, Form)>
    decreases probes.len() - from,
{
    if from >= probes.len() {
        None
    } else {
        match runnable(has_extension, probes[from]) {
            Some(form) => Some((from, form)),
            None => first_runnable(has_extension, probes, from + 1),
        }
    }
}

/// Where a batch file is found first, from a directory on.
pub open spec fn first_script(probes: Seq<Probe>, from: int) -> Option<(int, Script)>
    decreases probes.len() - from,
{
    if from >= probes.len() {
        None
    } else {
        match script(probes[from]) {
            Some(script) => Some((from, script)),
            None => first_script(probes, from + 1),
        }
    }
}

/// What a bare name stands for: the first executable in the directories, and
/// only where there is none, the first batch file.
pub open spec fn bare_choice(has_extension: bool, probes: Seq<Probe>) -> Bare {
    match first_runnable(has_extension, probes, 0) {
        Some((directory, form)) => Bare::Run { directory: directory as usize, form },
        None => match first_script(probes, 0) {
            Some((directory, script)) => Bare::Batch { directory: directory as usize, script },
            None => Bare::Missing,
        },
    }
}

/// What a bare name stands for, given what is found in each directory.
pub fn resolve_bare(has_extension: bool, probes: &Vec<Probe>) -> (choice: Bare)
    ensures
        choice == bare_choice(has_extension, probes@),
        match choice {
            Bare::Run { directory, form } => {
                &&& directory < probes@.len()
                &&& form is Executable ==> !has_extension
                    && probes@[directory as int].executable is Binary
                &&& form is Literal ==> probes@[directory as int].literal is Binary && (
                has_extension || !(probes@[directory as int].executable is Binary))
                &&& forall|i: int|
                    0 <= i < directory ==> !((#[trigger] probes@[i]).literal is Binary) && (
                    has_extension || !(probes@[i].executable is Binary))
            },
            Bare::Batch { directory, script } => {
                &&& directory < probes@.len()
                &&& script is Bat <==> probes@[directory as int].bat
                &&& script is Cmd ==> probes@[directory as int].cmd
                &&& forall|i: int|
                    0 <= i < directory ==> !(#[trigger] probes@[i]).bat && !probes@[i].cmd
                &&& forall|i: int|
                    0 <= i < probes@.len() ==> !((#[trigger] probes@[i]).literal is Binary) && (
                    has_extension || !(probes@[i].executable is Binary))
            },
            Bare::Missing => forall|i: int|
                0 <= i < probes@.len() ==> !(#[trigger] probes@[i]).bat && !probes@[i].cmd && !(
                probes@[i].literal is Binary) && (has_extension || !(
                probes@[i].executable is Binary)),
        },
{
    let mut batch: Option<(usize, Script)> = None;
    for directory in 0..probes.len()
        invariant
            first_runnable(has_extension, probes@, 0) == first_runnable(
                has_extension,
                probes@,
                directory as int,
            ),
            match batch {
                Some((found, script)) => first_script(probes@, 0) == Some((found as int, script)),
                None => first_script(probes@, 0) == first_script(probes@, directory as int),
            },
            forall|i: int|
                0 <= i < directory ==> !((#[trigger] probes@[i]).literal is Binary) && (
                has_extension || !(probes@[i].executable is Binary)),
            match batch {
                Some((found, script)) => {
                    &&& found < directory
                    &&& script is Bat <==> probes@[found as int].bat
                    &&& script is Cmd ==> probes@[found as int].cmd
                    &&& forall|i: int|
                        0 <= i < found ==> !(#[trigger] probes@[i]).bat && !probes@[i].cmd
                },
                None => forall|i: int|
                    0 <= i < directory ==> !(#[trigger] probes@[i]).bat && !probes@[i].cmd,
            },
    {
        let probe = probes[directory];
        if !has_extension && probe.executable == Kind::Binary {
            return Bare::Run { directory, form: Form::Executable };
        }
        if probe.literal == Kind::Binary {
            return Bare::Run { directory, form: Form::Literal };
        }
        if batch.is_none() {
            if probe.bat {
                batch = Some((directory, Script::Bat));
            } else if probe.cmd {
                batch = Some((directory, Script::Cmd));
            }
        }
    }
    match batch {
        Some((directory, script)) => Bare::Batch { directory, script },
        None => Bare::Missing,
    }
}

/// How a program is given.
#[derive(Clone, Copy, Debug, PartialEq, Eq, Structural)]
pub enum Program {
    /// Without a file name.
    Unnamed,
    /// As a path, from the root or from the working directory.
    Explicit { absolute: bool },
    /// As a name to search for.
    Bare,
}

/// How a program is given, from what its path is made of.
pub fn resolve_application(
    has_file_name: bool,
    components: usize,
    absolute: bool,
) -> (program: Program)
    ensures
        program == (if !has_file_name {
            Program::Unnamed
        } else if components > 1 {
            Program::Explicit { absolute }
        } else {
            Program::Bare
        }),
{
    if !has_file_name {
        Program::Unnamed
    } else if components > 1 {
        Program::Explicit { absolute }
    } else {
        Program::Bare
    }
}

/// The items of an option as a sequence.
pub open spec fn listed<T>(item: Option<T>) -> Seq<T> {
    match item {
        Some(item) => seq![item],
        None => Seq::empty(),
    }
}

/// The pair of an option as a sequence.
pub open spec fn both<T>(pair: Option<(T, T)>) -> Seq<T> {
    match pair {
        Some((first, second)) => seq![first, second],
        None => Seq::empty(),
    }
}

fn move_all<T>(list: &mut Vec<T>, more: Vec<T>)
    ensures
        final(list)@ == old(list)@ + more@,
{
    let mut more = more;
    list.append(&mut more);
}

/// The directories to search for a bare name: the process's own path, the
/// directory of this program, the system directory and its root, and the path
/// of this program.
pub fn search_order<T>(
    child_path: Vec<T>,
    own: Option<T>,
    system: Option<(T, T)>,
    parent_path: Vec<T>,
) -> (directories: Vec<T>)
    ensures
        directories@ == child_path@ + listed(own) + both(system) + parent_path@,
        directories@ == child_path@ + (match own {
            Some(directory) => seq![directory],
            None => Seq::empty(),
        }) + (match system {
            Some((first, second)) => seq![first, second],
            None => Seq::empty(),
        }) + parent_path@,
{
    let ghost start = child_path@;
    let mut directories = child_path;
    if let Some(directory) = own {
        directories.push(directory);
    }
    assert(directories@ =~= start + listed(own));
    if let Some((first, second)) = system {
        directories.push(first);
        directories.push(second);
    }
    assert(directories@ =~= start + listed(own) + both(system));
    move_all(&mut directories, parent_path);
    directories
}

/// Whether a variable is the search path.
pub open spec fn is_path(name: Seq<char>) -> bool {
    lowered(name) == lowered("PATH"@)
}

/// The search path among the variables of a process: the last one wins.
pub fn child_path(names: &Vec<String>) -> (position: Option<usize>)
    ensures
        match position {
            Some(position) => position < names@.len() && is_path(names@[position as int]@)
                && forall|i: int|
                position < i < names@.len() ==> !is_path((#[trigger] names@[i])@),
            None => forall|i: int| 0 <= i < names@.len() ==> !is_path((#[trigger] names@[i])@),
        },
        match position {
            Some(position) => lowered(names@[position as int]@) == "path"@ && forall|i: int|
                position < i < names@.len() ==> lowered((#[trigger] names@[i])@) != "path"@,
            None => forall|i: int|
                0 <= i < names@.len() ==> lowered((#[trigger] names@[i])@) != "path"@,
        },
{
    proof {
        these_words_are_lowered();
    }
    let mut position: usize = names.len();
    while position > 0
        invariant
            position <= names@.len(),
            lowered("PATH"@) == "path"@,
            forall|i: int| position <= i < names@.len() ==> !is_path((#[trigger] names@[i])@),
        decreases position,
    {
        position -= 1;
        if same_ignoring_case(names[position].as_str(), "PATH") {
            return Some(position);
        }
    }
    None
}

/// What is said of a batch file.
pub fn batch_rejected(script: &str) -> (text: String)
    ensures
        text@ == "`"@ + script@
            + "` is a batch file; foil cannot run `.bat` or `.cmd` programs directly because their argument quoting differs from ordinary executables. Invoke it through the shell instead, e.g. `-- cmd /c "@
            + script@ + " ...`."@,
{
    "`".to_owned().concat(script).concat(
        "` is a batch file; foil cannot run `.bat` or `.cmd` programs directly because their argument quoting differs from ordinary executables. Invoke it through the shell instead, e.g. `-- cmd /c ",
    ).concat(script).concat(" ...`.")
}

/// The paths in backquotes, with commas between them.
pub open spec fn enumerated(paths: Seq<Seq<char>>) -> Seq<char>
    decreases paths.len(),
{
    if paths.len() == 0 {
        Seq::empty()
    } else if paths.len() == 1 {
        "`"@ + paths[0] + "`"@
    } else {
        enumerated(paths.drop_last()) + ", `"@ + paths.last() + "`"@
    }
}

/// What is said where no form of an explicit path is there.
pub fn not_found(program: &str, tried: &Vec<String>) -> (text: String)
    ensures
        text@ == "Could not find the benchmark program `"@ + program@ + "`. Tried: "@
            + enumerated(texts(tried@)) + "."@,
{
    let ghost paths = texts(tried@);
    let mut list = String::new();
    assert(list@ =~= enumerated(paths.take(0)));
    for i in 0..tried.len()
        invariant
            paths == texts(tried@),
            list@ == enumerated(paths.take(i as int)),
    {
        let ghost longer = paths.take(i + 1);
        assert(longer.drop_last() =~= paths.take(i as int));
        assert(longer.last() == tried@[i as int]@);
        if i == 0 {
            list = "`".to_owned().concat(tried[i].as_str()).concat("`");
        } else {
            list = list.concat(", `").concat(tried[i].as_str()).concat("`");
        }
    }
    assert(paths.take(paths.len() as int) =~= paths);
    "Could not find the benchmark program `".to_owned().concat(program).concat(
        "`. Tried: ",
    ).concat(list.as_str()).concat(".")
}

/// What is said where no directory has a bare name.
pub fn not_on_path(program: &str) -> (text: String)
    ensures
        text@ == "Could not find the benchmark program `"@ + program@ + "` on the search path."@,
{
    "Could not find the benchmark program `".to_owned().concat(program).concat(
        "` on the search path.",
    )
}

/// Whether units hold a zero.
pub open spec fn holds_nul(units: Seq<u16>) -> bool {
    units.contains(0)
}

fn has_nul(units: &Vec<u16>) -> (answer: bool)
    ensures
        answer == holds_nul(units@),
{
    for i in 0..units.len()
        invariant
            forall|j: int| 0 <= j < i ==> #[trigger] units@[j] != 0,
    {
        if units[i] == 0 {
            assert(units@.contains(units@[i as int]));
            return true;
        }
    }
    false
}

/// A part of a command that a zero unit would cut short.
#[derive(Clone, Copy, Debug, PartialEq, Eq, Structural)]
pub enum Part {
    Program,
    Argument,
    WorkingDirectory,
    EnvironmentKey,
    EnvironmentValue,
}

/// Whether some units of a list hold a zero.
pub open spec fn any_nul(list: Seq<Vec<u16>>) -> bool {
    exists|i: int| 0 <= i < list.len() && holds_nul((#[trigger] list[i])@)
}

/// The first variable with a zero in it, and in which part.
pub open spec fn nul_in(environment: Seq<(Vec<u16>, Vec<u16>)>, from: int) -> Option<Part>
    decreases environment.len() - from,
{
    if from >= environment.len() {
        None
    } else if holds_nul(environment[from].0@) {
        Some(Part::EnvironmentKey)
    } else if holds_nul(environment[from].1@) {
        Some(Part::EnvironmentValue)
    } else {
        nul_in(environment, from + 1)
    }
}

/// The first part of a command that holds a zero unit.
pub fn embedded_nul(
    program: &Vec<u16>,
    arguments: &Vec<Vec<u16>>,
    working_directory: &Vec<u16>,
    environment: &Vec<(Vec<u16>, Vec<u16>)>,
) -> (part: Option<Part>)
    ensures
        part == (if holds_nul(program@) {
            Some(Part::Program)
        } else if any_nul(arguments@) {
            Some(Part::Argument)
        } else if holds_nul(working_directory@) {
            Some(Part::WorkingDirectory)
        } else {
            nul_in(environment@, 0)
        }),
{
    if has_nul(program) {
        return Some(Part::Program);
    }
    for i in 0..arguments.len()
        invariant
            forall|j: int| 0 <= j < i ==> !holds_nul((#[trigger] arguments@[j])@),
            !holds_nul(program@),
    {
        if has_nul(&arguments[i]) {
            assert(holds_nul(arguments@[i as int]@));
            return Some(Part::Argument);
        }
    }
    if has_nul(working_directory) {
        return Some(Part::WorkingDirectory);
    }
    for i in 0..environment.len()
        invariant
            !holds_nul(program@),
            !any_nul(arguments@),
            !holds_nul(working_directory@),
            nul_in(environment@, 0) == nul_in(environment@, i as int),
    {
        if has_nul(&environment[i].0) {
            return Some(Part::EnvironmentKey);
        }
        if has_nul(&environment[i].1) {
            return Some(Part::EnvironmentValue);
        }
    }
    None
}

impl Part {
    pub open spec fn label(self) -> Seq<char> {
        match self {
            Part::Program => "program"@,
            Part::Argument => "argument"@,
            Part::WorkingDirectory => "working directory"@,
            Part::EnvironmentKey => "environment key"@,
            Part::EnvironmentValue => "environment value"@,
        }
    }

    /// What is said of a zero unit in the part.
    pub fn message(self) -> (text: String)
        ensures
            text@ == self.label() + " contains an embedded NUL"@,
            self is Program ==> text@ == "program"@ + " contains an embedded NUL"@,
            self is Argument ==> text@ == "argument"@ + " contains an embedded NUL"@,
            self is WorkingDirectory ==> text@ == "working directory"@
                + " contains an embedded NUL"@,
            self is EnvironmentKey ==> text@ == "environment key"@ + " contains an embedded NUL"@,
            self is EnvironmentValue ==> text@ == "environment value"@
                + " contains an embedded NUL"@,
    {
        let label = match self {
            Part::Program => "program",
            Part::Argument => "argument",
            Part::WorkingDirectory => "working directory",
            Part::EnvironmentKey => "environment key",
            Part::EnvironmentValue => "environment value",
        };
        label.to_owned().concat(" contains an embedded NUL")
    }
}

proof fn these_words_are_lowered()
    ensures
        lowered("bat"@) == "bat"@,
        lowered("cmd"@) == "cmd"@,
        lowered("PATH"@) == "path"@,
{
    reveal_strlit("bat");
    reveal_strlit("cmd");
    reveal_strlit("PATH");
    reveal_strlit("path");
    assert(lowered("bat"@) =~= "bat"@);
    assert(lowered("cmd"@) =~= "cmd"@);
    assert(lowered("PATH"@) =~= "path"@);
}

/// Lowering turns each of the 26 ASCII capitals into its small letter and leaves
/// every other character as it is.
pub proof fn only_capitals_are_lowered(text: Seq<char>, i: int)
    requires
        0 <= i < text.len(),
    ensures
        lowered(text).len() == text.len(),
        'A' <= text[i] <= 'Z' ==> lowered(text)[i] as u32 == text[i] as u32 + 32,
        !('A' <= text[i] <= 'Z') ==> lowered(text)[i] == text[i],
{
}

/// Paths are told one behind the other, each in backquotes.
pub proof fn paths_are_told_in_backquotes(paths: Seq<Seq<char>>, path: Seq<char>)
    ensures
        enumerated(Seq::empty()) == Seq::<char>::empty(),
        enumerated(seq![path]) == "`"@ + path + "`"@,
        paths.len() > 0 ==> enumerated(paths.push(path)) == enumerated(paths) + ", `"@ + path
            + "`"@,
{
    assert(paths.push(path).drop_last() =~= paths);
}

/// Of the variables, the first one with a zero unit counts, its name before its
/// value.
pub proof fn the_first_variable_with_a_zero_counts(
    environment: Seq<(Vec<u16>, Vec<u16>)>,
    from: int,
) -> (first: int)
    requires
        0 <= from,
    ensures
        nul_in(environment, from) is None ==> forall|i: int|
            from <= i < environment.len() ==> !(#[trigger] environment[i]).0@.contains(0)
                && !environment[i].1@.contains(0),
        nul_in(environment, from) matches Some(part) ==> {
            &&& from <= first < environment.len()
            &&& part is EnvironmentKey <==> environment[first].0@.contains(0)
            &&& part is EnvironmentValue <==> !environment[first].0@.contains(0)
                && environment[first].1@.contains(0)
            &&& forall|i: int|
                from <= i < first ==> !(#[trigger] environment[i]).0@.contains(0)
                    && !environment[i].1@.contains(0)
        },
    decreases environment.len() - from,
{
    if from >= environment.len() || environment[from].0@.contains(0)
        || environment[from].1@.contains(0) {
        from
    } else {
        the_first_variable_with_a_zero_counts(environment, from + 1)
    }
}

} // verus!
