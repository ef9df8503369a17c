//! The measurements of a benchmark as a CSV file, and the file of its draws.

use crate::metric::Metric;
use crate::repetition::{has_order, Pair, Repetition, Repetitions, RepetitionsError, RunOrder};
use crate::repetition::MINIMUM_REPETITIONS;
use crate::scalar::Scalar;
use crate::text::{
    decimal, decimal_text, decimal_text_denotes, joined, joined_splits_back, lines_of,
    parse_usize, pieces, pieces_append, same, split, texts, unsigned_value, without_return,
};
use vstd::prelude::*;

verus! {

/// The first line of a measurements file.
pub const HEADER: &'static str = "repetition,order,baseline_seconds,candidate_seconds";

/// How a run order is written.
pub open spec fn order_text(order: RunOrder) -> Seq<char> {
    match order {
        RunOrder::BaselineFirst => "baseline_first"@,
        RunOrder::CandidateFirst => "candidate_first"@,
    }
}

/// How a run order is written.
pub fn order_name(order: RunOrder) -> (name: &'static str)
    ensures
        name@ == order_text(order),
        order is BaselineFirst ==> name@ == "baseline_first"@,
        order is CandidateFirst ==> name@ == "candidate_first"@,
{
    match order {
        RunOrder::BaselineFirst => "baseline_first",
        RunOrder::CandidateFirst => "candidate_first",
    }
}

/// The run order that a text names.
pub open spec fn order_of(text: Seq<char>) -> Option<RunOrder> {
    if text == "baseline_first"@ {
        Some(RunOrder::BaselineFirst)
    } else if text == "candidate_first"@ {
        Some(RunOrder::CandidateFirst)
    } else {
        None
    }
}

/// The run order that a text names.
pub fn read_order(text: &str) -> (order: Option<RunOrder>)
    ensures
        order == order_of(text@),
        order == Some(RunOrder::BaselineFirst) <==> text@ == "baseline_first"@,
        order == Some(RunOrder::CandidateFirst) <==> text@ == "candidate_first"@,
{
    proof {
        reveal_strlit("baseline_first");
        reveal_strlit("candidate_first");
        assert("baseline_first"@[0] != "candidate_first"@[0]);
    }
    if same(text, "baseline_first") {
        Some(RunOrder::BaselineFirst)
    } else if same(text, "candidate_first") {
        Some(RunOrder::CandidateFirst)
    } else {
        None
    }
}

/// One line of a measurements file, with its line feed.
pub open spec fn row_text(
    number: nat,
    order: RunOrder,
    baseline: Seq<char>,
    candidate: Seq<char>,
) -> Seq<char> {
    decimal_text(number) + ","@ + order_text(order) + ","@ + baseline + ","@ + candidate + "\n"@
}

/// A measurements file that is being written.
pub struct MeasurementsCsv {
    rows: usize,
}

impl MeasurementsCsv {
    /// How many rows were written.
    pub closed spec fn written(self) -> nat {
        self.rows as nat
    }

    /// Starts a file: the file without a row yet, and its first line.
    pub fn create() -> (started: (MeasurementsCsv, String))
        ensures
            started.0.written() == 0,
            started.1@ == HEADER@ + "\n"@,
            started.1@ == "repetition,order,baseline_seconds,candidate_seconds"@ + "\n"@,
    {
        (MeasurementsCsv { rows: 0 }, HEADER.to_owned().concat("\n"))
    }

    /// The next line, given the seconds as they are written.
    pub fn row(&self, order: RunOrder, baseline: &str, candidate: &str) -> (row: String)
        requires
            self.written() < usize::MAX,
        ensures
            row@ == row_text(self.written() + 1, order, baseline@, candidate@),
            row@ == decimal_text(self.written() + 1) + ","@ + (if order is BaselineFirst {
                "baseline_first"@
            } else {
                "candidate_first"@
            }) + ","@ + baseline@ + ","@ + candidate@ + "\n"@,
    {
        decimal((self.rows + 1) as u64).concat(",").concat(order_name(order)).concat(",").concat(
            baseline,
        ).concat(",").concat(candidate).concat("\n")
    }

    /// Notes that the line was written.
    pub fn advance(&mut self)
        requires
            old(self).written() < usize::MAX,
        ensures
            final(self).written() == old(self).written() + 1,
    {
        self.rows += 1;
    }
}

/// The file of the draws: a header with the unit, then a line for each draw,
/// given the two numbers as they are written.
pub open spec fn posterior_text(unit: Seq<char>, rows: Seq<(Seq<char>, Seq<char>)>) -> Seq<char>
    decreases rows.len(),
{
    if rows.len() == 0 {
        "baseline_"@ + unit + ",candidate_"@ + unit + "\n"@
    } else {
        posterior_text(unit, rows.drop_last()) + rows.last().0 + ","@ + rows.last().1 + "\n"@
    }
}

/// The texts of pairs of strings.
pub open spec fn text_pairs(rows: Seq<(String, String)>) -> Seq<(Seq<char>, Seq<char>)> {
    rows.map_values(|row: (String, String)| (row.0@, row.1@))
}

/// The file of the draws.
pub fn posterior_csv<M: Metric>(rows: &Vec<(String, String)>) -> (text: String)
    ensures
        text@ == posterior_text(M::base_name(), text_pairs(rows@)),
{
    let unit = M::base_unit();
    let mut text = "baseline_".to_owned().concat(unit).concat(",candidate_").concat(unit).concat(
        "\n",
    );
    assert(text_pairs(rows@).take(0) =~= Seq::empty());
    for i in 0..rows.len()
        invariant
            text@ == posterior_text(M::base_name(), text_pairs(rows@).take(i as int)),
    {
        let ghost longer = text_pairs(rows@).take(i + 1);
        assert(longer.drop_last() =~= text_pairs(rows@).take(i as int));
        assert(longer.last() == (rows@[i as int].0@, rows@[i as int].1@));
        text = text.concat(rows[i].0.as_str()).concat(",").concat(rows[i].1.as_str()).concat("\n");
    }
    assert(text_pairs(rows@).take(rows@.len() as int) =~= text_pairs(rows@));
    text
}

/// What a field of seconds was read as: no number at all, or a number and the
/// time that it stands for, where that can be represented.
#[derive(Clone, Copy, Debug)]
pub enum Reading<T> {
    NotNumber,
    Number { seconds: Scalar, elapsed: Option<T> },
}

/// What is wrong with a measurements file.
pub enum ReadFault {
    InvalidHeader,
    Unreadable { line: nat },
    InvalidLine { line: nat },
    NotInteger { text: Seq<char> },
    NotSequential,
    UnknownOrder { order: Seq<char> },
    NotNumber { text: Seq<char> },
    NotFinite,
    TooLarge,
    TooFew { count: nat },
    MissingOrder,
}

/// Why a measurements file cannot be read.
#[derive(Clone, Debug)]
pub enum ReadError {
    InvalidHeader,
    Unreadable { line: usize },
    InvalidLine { line: usize },
    NotInteger { text: String },
    NotSequential,
    UnknownOrder { order: String },
    NotNumber { text: String },
    NotFinite,
    TooLarge,
    TooFew { count: usize },
    MissingOrder,
}

/// What is said of a fault in the file at a path. Nothing is said of a text
/// that is no number, nor of a first line that cannot be read: there the cause
/// says it all.
pub open spec fn read_fault_text(fault: ReadFault, path: Seq<char>) -> Option<Seq<char>> {
    match fault {
        ReadFault::InvalidHeader => Some(path + " has an invalid measurements header."@),
        ReadFault::Unreadable { line } => if line == 1 {
            None
        } else {
            Some("Failed to read line "@ + decimal_text(line) + "."@)
        },
        ReadFault::InvalidLine { line } => Some(
            "Invalid measurements line "@ + decimal_text(line) + "."@,
        ),
        ReadFault::NotInteger { .. } => None,
        ReadFault::NotSequential => Some("Measurements repetitions must be sequential."@),
        ReadFault::UnknownOrder { order } => Some("Unknown run order `"@ + order + "`."@),
        ReadFault::NotNumber { .. } => None,
        ReadFault::NotFinite => Some("Measurement must be finite and nonnegative."@),
        ReadFault::TooLarge => Some("Measurement is too large to represent."@),
        ReadFault::TooFew { count } => Some(
            "At least "@ + decimal_text(MINIMUM_REPETITIONS as nat)
                + " repetitions are required, got "@ + decimal_text(count) + "."@,
        ),
        ReadFault::MissingOrder => Some("Both run orders are required."@),
    }
}

impl ReadError {
    pub open spec fn fault(self) -> ReadFault {
        match self {
            ReadError::InvalidHeader => ReadFault::InvalidHeader,
            ReadError::Unreadable { line } => ReadFault::Unreadable { line: line as nat },
            ReadError::InvalidLine { line } => ReadFault::InvalidLine { line: line as nat },
            ReadError::NotInteger { text } => ReadFault::NotInteger { text: text@ },
            ReadError::NotSequential => ReadFault::NotSequential,
            ReadError::UnknownOrder { order } => ReadFault::UnknownOrder { order: order@ },
            ReadError::NotNumber { text } => ReadFault::NotNumber { text: text@ },
            ReadError::NotFinite => ReadFault::NotFinite,
            ReadError::TooLarge => ReadFault::TooLarge,
            ReadError::TooFew { count } => ReadFault::TooFew { count: count as nat },
            ReadError::MissingOrder => ReadFault::MissingOrder,
        }
    }

    /// What is said of the error, where the file is at `path`. Of a text that
    /// is no number, what reads numbers has to say it, and of a first line that
    /// cannot be read, what reads lines.
    pub fn message(&self, path: &str) -> (text: Option<String>)
        ensures
            match read_fault_text(self.fault(), path@) {
                Some(said) => text matches Some(text) && text@ == said,
                None => text is None,
            },
            match self {
                ReadError::InvalidHeader => text matches Some(text) && text@ == path@
                    + " has an invalid measurements header."@,
                ReadError::Unreadable { line } => if *line == 1 {
                    text is None
                } else {
                    text matches Some(text) && text@ == "Failed to read line "@ + decimal_text(
                        *line as nat,
                    ) + "."@
                },
                ReadError::InvalidLine { line } => text matches Some(text) && text@
                    == "Invalid measurements line "@ + decimal_text(*line as nat) + "."@,
                ReadError::NotInteger { .. } => text is None,
                ReadError::NotSequential => text matches Some(text) && text@
                    == "Measurements repetitions must be sequential."@,
                ReadError::UnknownOrder { order } => text matches Some(text) && text@
                    == "Unknown run order `"@ + order@ + "`."@,
                ReadError::NotNumber { .. } => text is None,
                ReadError::NotFinite => text matches Some(text) && text@
                    == "Measurement must be finite and nonnegative."@,
                ReadError::TooLarge => text matches Some(text) && text@
                    == "Measurement is too large to represent."@,
                ReadError::TooFew { count } => text matches Some(text) && text@ == "At least "@
                    + decimal_text(10) + " repetitions are required, got "@ + decimal_text(
                    *count as nat,
                ) + "."@,
                ReadError::MissingOrder => text matches Some(text) && text@
                    == "Both run orders are required."@,
            },
    {
        Some(
            match self {
                ReadError::InvalidHeader => path.to_owned().concat(
                    " has an invalid measurements header.",
                ),
                ReadError::Unreadable { line } => {
                    if *line == 1 {
                        return None;
                    }
                    "Failed to read line ".to_owned().concat(
                        decimal(*line as u64).as_str(),
                    ).concat(".")
                },
                ReadError::InvalidLine { line } => "Invalid measurements line ".to_owned().concat(
                    decimal(*line as u64).as_str(),
                ).concat("."),
                ReadError::NotInteger { .. } => {
                    return None;
                },
                ReadError::NotSequential => {
                    "Measurements repetitions must be sequential.".to_owned()
                },
                ReadError::UnknownOrder { order } => "Unknown run order `".to_owned().concat(
                    order.as_str(),
                ).concat("`."),
                ReadError::NotNumber { .. } => {
                    return None;
                },
                ReadError::NotFinite => "Measurement must be finite and nonnegative.".to_owned(),
                ReadError::TooLarge => "Measurement is too large to represent.".to_owned(),
                ReadError::TooFew { count } => (RepetitionsError::TooFew {
                    count: *count,
                }).message(),
                ReadError::MissingOrder => RepetitionsError::MissingOrder.message(),
            },
        )
    }
}

/// The time that a field of seconds stands for.
pub open spec fn elapsed_of<T>(text: Seq<char>, reading: Reading<T>) -> Result<T, ReadFault> {
    match reading {
        Reading::NotNumber => Err(ReadFault::NotNumber { text }),
        Reading::Number { seconds, elapsed } => if !(seconds.finite() && seconds.position() >= 0) {
            Err(ReadFault::NotFinite)
        } else {
            match elapsed {
                Some(elapsed) => Ok(elapsed),
                None => Err(ReadFault::TooLarge),
            }
        },
    }
}

/// The time that a field of seconds stands for.
fn accept<T: Copy>(text: &str, reading: Reading<T>) -> (result: Result<T, ReadError>)
    ensures
        match result {
            Ok(elapsed) => elapsed_of(text@, reading) == Ok::<T, ReadFault>(elapsed),
            Err(error) => elapsed_of(text@, reading) == Err::<T, ReadFault>(error.fault()),
        },
{
    match reading {
        Reading::NotNumber => Err(ReadError::NotNumber { text: text.to_owned() }),
        Reading::Number { seconds, elapsed } => {
            if !seconds.is_finite() || seconds.is_below(Scalar { bits: 0 }) {
                Err(ReadError::NotFinite)
            } else {
                match elapsed {
                    Some(elapsed) => Ok(elapsed),
                    None => Err(ReadError::TooLarge),
                }
            }
        },
    }
}

/// The repetition that a line holds, which is the one at `index` of the file.
pub open spec fn read_row<T>(
    line: Option<Seq<char>>,
    index: nat,
    readings: (Reading<T>, Reading<T>),
) -> Result<Repetition<T>, ReadFault> {
    match line {
        None => Err(ReadFault::Unreadable { line: index + 2 }),
        Some(text) => {
            let fields = pieces(text, ',');
            if fields.len() != 4 || fields[3].len() == 0 {
                Err(ReadFault::InvalidLine { line: index + 2 })
            } else {
                match unsigned_value(fields[0]) {
                    Some(number) if number <= usize::MAX => if number != index + 1 {
                        Err(ReadFault::NotSequential)
                    } else {
                        match order_of(fields[1]) {
                            None => Err(ReadFault::UnknownOrder { order: fields[1] }),
                            Some(order) => match elapsed_of(fields[2], readings.0) {
                                Err(fault) => Err(fault),
                                Ok(baseline) => match elapsed_of(fields[3], readings.1) {
                                    Err(fault) => Err(fault),
                                    Ok(candidate) => Ok(
                                        Repetition { outputs: Pair { baseline, candidate }, order },
                                    ),
                                },
                            },
                        }
                    },
                    _ => Err(ReadFault::NotInteger { text: fields[0] }),
                }
            }
        },
    }
}

/// The repetitions of the first lines behind the header, or the first fault.
pub open spec fn read_rows<T>(
    lines: Seq<Option<Seq<char>>>,
    readings: Seq<(Reading<T>, Reading<T>)>,
    count: nat,
) -> Result<Seq<Repetition<T>>, ReadFault>
    decreases count,
{
    if count == 0 {
        Ok(Seq::empty())
    } else {
        match read_rows(lines, readings, (count - 1) as nat) {
            Err(fault) => Err(fault),
            Ok(before) => match read_row(lines[count as int], (count - 1) as nat, readings[count - 1]) {
                Err(fault) => Err(fault),
                Ok(row) => Ok(before.push(row)),
            },
        }
    }
}

/// What a measurements file holds, given what its fields of seconds were read as.
pub open spec fn read_file<T>(
    lines: Seq<Option<Seq<char>>>,
    readings: Seq<(Reading<T>, Reading<T>)>,
) -> Result<Seq<Repetition<T>>, ReadFault> {
    if lines.len() == 0 {
        Err(ReadFault::InvalidHeader)
    } else if lines[0] is None {
        Err(ReadFault::Unreadable { line: 1 })
    } else if lines[0] != Some(HEADER@) {
        Err(ReadFault::InvalidHeader)
    } else {
        match read_rows(lines, readings, (lines.len() - 1) as nat) {
            Err(fault) => Err(fault),
            Ok(rows) => if rows.len() < MINIMUM_REPETITIONS {
                Err(ReadFault::TooFew { count: rows.len() })
            } else if !has_order(rows, RunOrder::BaselineFirst) || !has_order(
                rows,
                RunOrder::CandidateFirst,
            ) {
                Err(ReadFault::MissingOrder)
            } else {
                Ok(rows)
            },
        }
    }
}

/// The texts of lines; one that could not be read has none.
pub open spec fn line_texts(lines: Seq<Option<String>>) -> Seq<Option<Seq<char>>> {
    lines.map_values(
        |line: Option<String>|
            match line {
                Some(text) => Some(text@),
                None => None,
            },
    )
}

/// The fields of seconds of a line, where it has as many fields as it should.
pub fn seconds_fields(line: &str) -> (fields: Option<(String, String)>)
    ensures
        match fields {
            Some((baseline, candidate)) => {
                let all = pieces(line@, ',');
                all.len() == 4 && all[2] == baseline@ && all[3] == candidate@
            },
            None => pieces(line@, ',').len() != 4,
        },
{
    let mut fields = split(line, ',');
    let ghost all = pieces(line@, ',');
    assert(texts(fields@).len() == fields@.len());
    if fields.len() != 4 {
        return None;
    }
    assert(texts(fields@)[2] == fields@[2]@);
    assert(texts(fields@)[3] == fields@[3]@);
    let candidate = fields.pop().unwrap();
    let baseline = fields.pop().unwrap();
    Some((baseline, candidate))
}

/// The repetition that a line holds.
fn read_line<T: Copy>(
    line: &Option<String>,
    index: usize,
    readings: (Reading<T>, Reading<T>),
) -> (result: Result<Repetition<T>, ReadError>)
    requires
        index + 2 <= usize::MAX,
    ensures
        match result {
            Ok(row) => read_row(
                match line {
                    Some(text) => Some(text@),
                    None => None,
                },
                index as nat,
                readings,
            ) == Ok::<Repetition<T>, ReadFault>(row),
            Err(error) => read_row(
                match line {
                    Some(text) => Some(text@),
                    None => None,
                },
                index as nat,
                readings,
            ) == Err::<Repetition<T>, ReadFault>(error.fault()),
        },
{
    let text = match line {
        None => {
            return Err(ReadError::Unreadable { line: index + 2 });
        },
        Some(text) => text.as_str(),
    };
    let fields = split(text, ',');
    let ghost all = pieces(text@, ',');
    assert(texts(fields@).len() == fields@.len());
    assert(forall|i: int| 0 <= i < fields@.len() ==> all[i] == (#[trigger] fields@[i])@);
    if fields.len() != 4 || fields[3].as_str().is_empty() {
        return Err(ReadError::InvalidLine { line: index + 2 });
    }
    match parse_usize(fields[0].as_str()) {
        None => {
            return Err(ReadError::NotInteger { text: fields[0].as_str().to_owned() });
        },
        Some(number) => if number != index + 1 {
            return Err(ReadError::NotSequential);
        },
    }
    let order = match read_order(fields[1].as_str()) {
        None => {
            return Err(ReadError::UnknownOrder { order: fields[1].as_str().to_owned() });
        },
        Some(order) => order,
    };
    let baseline = match accept(fields[2].as_str(), readings.0) {
        Ok(elapsed) => elapsed,
        Err(error) => {
            return Err(error);
        },
    };
    let candidate = match accept(fields[3].as_str(), readings.1) {
        Ok(elapsed) => elapsed,
        Err(error) => {
            return Err(error);
        },
    };
    Ok(Repetition { outputs: Pair { baseline, candidate }, order })
}

proof fn rows_stay_faulty<T>(
    lines: Seq<Option<Seq<char>>>,
    readings: Seq<(Reading<T>, Reading<T>)>,
    count: nat,
    total: nat,
)
    requires
        count <= total,
        read_rows(lines, readings, count) is Err,
    ensures
        read_rows(lines, readings, total) == read_rows(lines, readings, count),
    decreases total - count,
{
    if count < total {
        rows_stay_faulty(lines, readings, count, (total - 1) as nat);
    }
}

/// Reads a measurements file from its lines and from what the fields of
/// seconds of each line behind the header were read as.
pub fn read_measurements<T: Copy>(
    lines: &Vec<Option<String>>,
    readings: &Vec<(Reading<T>, Reading<T>)>,
) -> (result: Result<Repetitions<T>, ReadError>)
    requires
        lines@.len() <= readings@.len() + 1,
        lines@.len() < usize::MAX,
    ensures
        match result {
            Ok(repetitions) => read_file(line_texts(lines@), readings@) == Ok::<
                Seq<Repetition<T>>,
                ReadFault,
            >(repetitions@),
            Err(error) => read_file(line_texts(lines@), readings@) == Err::<
                Seq<Repetition<T>>,
                ReadFault,
            >(error.fault()),
        },
{
    let ghost given = line_texts(lines@);
    if lines.len() == 0 {
        return Err(ReadError::InvalidHeader);
    }
    assert(given[0] == (match lines@[0] {
        Some(text) => Some(text@),
        None => None,
    }));
    match &lines[0] {
        None => {
            return Err(ReadError::Unreadable { line: 1 });
        },
        Some(text) => if !same(text.as_str(), HEADER) {
            return Err(ReadError::InvalidHeader);
        },
    }
    let mut rows: Vec<Repetition<T>> = Vec::new();
    for index in 0..lines.len() - 1
        invariant
            given == line_texts(lines@),
            0 < lines@.len() <= readings@.len() + 1,
            lines@.len() < usize::MAX,
            given[0] == Some(HEADER@),
            read_rows(given, readings@, index as nat) == Ok::<Seq<Repetition<T>>, ReadFault>(
                rows@,
            ),
    {
        assert(given[index + 1] == (match lines@[index + 1] {
            Some(text) => Some(text@),
            None => None,
        }));
        match read_line(&lines[index + 1], index, readings[index]) {
            Ok(row) => {
                rows.push(row);
            },
            Err(error) => {
                proof {
                    rows_stay_faulty(
                        given,
                        readings@,
                        (index + 1) as nat,
                        (lines@.len() - 1) as nat,
                    );
                }
                return Err(error);
            },
        }
    }
    match Repetitions::try_from(rows) {
        Ok(repetitions) => Ok(repetitions),
        Err(RepetitionsError::TooFew { count }) => Err(ReadError::TooFew { count }),
        Err(RepetitionsError::MissingOrder) => Err(ReadError::MissingOrder),
    }
}

/// Whether a text can stand in a field: it breaks neither the line nor the field.
pub open spec fn is_field(text: Seq<char>) -> bool {
    !text.contains(',') && !text.contains('\n') && !text.contains('\r')
}

/// A measurements file with the given rows.
pub open spec fn file_text(rows: Seq<(RunOrder, Seq<char>, Seq<char>)>) -> Seq<char>
    decreases rows.len(),
{
    if rows.len() == 0 {
        HEADER@ + "\n"@
    } else {
        let last = rows.last();
        file_text(rows.drop_last()) + row_text(rows.len(), last.0, last.1, last.2)
    }
}

/// The fields of a row.
spec fn row_fields(number: nat, row: (RunOrder, Seq<char>, Seq<char>)) -> Seq<Seq<char>> {
    seq![decimal_text(number), order_text(row.0), row.1, row.2]
}

/// The lines of a measurements file with the given rows.
spec fn file_lines(rows: Seq<(RunOrder, Seq<char>, Seq<char>)>) -> Seq<Seq<char>> {
    Seq::new(
        rows.len() + 1,
        |i: int|
            if i == 0 {
                HEADER@
            } else {
                joined(row_fields(i as nat, rows[i - 1]), ',')
            },
    )
}

proof fn order_is_field(order: RunOrder)
    ensures
        is_field(order_text(order)),
        order_of(order_text(order)) == Some(order),
{
    reveal_strlit("baseline_first");
    reveal_strlit("candidate_first");
    assert("baseline_first"@[0] != "candidate_first"@[0]);
}

proof fn decimal_is_field(number: nat)
    ensures
        is_field(decimal_text(number)),
{
    decimal_text_denotes(number);
}

proof fn row_is_line(number: nat, row: (RunOrder, Seq<char>, Seq<char>))
    requires
        is_field(row.1),
        is_field(row.2),
    ensures
        row_text(number, row.0, row.1, row.2) == joined(row_fields(number, row), ',').push('\n'),
        pieces(joined(row_fields(number, row), ','), ',') == row_fields(number, row),
        !joined(row_fields(number, row), ',').contains('\n'),
        !joined(row_fields(number, row), ',').contains('\r'),
{
    let fields = row_fields(number, row);
    reveal_strlit(",");
    reveal_strlit("\n");
    order_is_field(row.0);
    decimal_is_field(number);
    joined_splits_back(fields, ',');
    let one = fields.take(1);
    let two = fields.take(2);
    let three = fields.take(3);
    assert(fields.drop_last() =~= three);
    assert(three.drop_last() =~= two);
    assert(two.drop_last() =~= one);
    let line = joined(fields, ',');
    assert(joined(one, ',') == decimal_text(number));
    assert(two.last() == order_text(row.0));
    assert(joined(two, ',') == decimal_text(number).push(',') + order_text(row.0));
    assert(joined(three, ',') == joined(two, ',').push(',') + row.1);
    assert(line == joined(three, ',').push(',') + row.2);
    assert(row_text(number, row.0, row.1, row.2) =~= line.push('\n'));
    assert forall|bad: char| bad == '\n' || bad == '\r' implies !#[trigger] line.contains(bad) by {
        if line.contains(bad) {
            let at = choose|at: int| 0 <= at < line.len() && line[at] == bad;
            let first = decimal_text(number).len() as int;
            let second = joined(two, ',').len() as int;
            let third = joined(three, ',').len() as int;
            if at < first {
                assert(decimal_text(number)[at] == bad);
            } else if first < at < second {
                assert(order_text(row.0)[at - first - 1] == bad);
            } else if second < at < third {
                assert(row.1[at - second - 1] == bad);
            } else if third < at {
                assert(row.2[at - third - 1] == bad);
            }
        }
    }
}

proof fn file_splits_into_lines(rows: Seq<(RunOrder, Seq<char>, Seq<char>)>)
    requires
        forall|i: int|
            0 <= i < rows.len() ==> is_field((#[trigger] rows[i]).1) && is_field(rows[i].2),
    ensures
        pieces(file_text(rows), '\n') == file_lines(rows).push(Seq::empty()),
    decreases rows.len(),
{
    let lines = file_lines(rows);
    reveal_strlit("\n");
    if rows.len() == 0 {
        reveal_strlit("repetition,order,baseline_seconds,candidate_seconds");
        let text = file_text(rows);
        pieces_append(Seq::empty(), HEADER@, '\n');
        assert(Seq::<char>::empty() + HEADER@ =~= HEADER@);
        assert(pieces(Seq::<char>::empty(), '\n') =~= seq![Seq::<char>::empty()]);
        assert(pieces(HEADER@, '\n') =~= seq![HEADER@]);
        assert(text =~= HEADER@.push('\n'));
        assert(text.drop_last() =~= HEADER@);
        assert(pieces(text, '\n') =~= lines.push(Seq::empty()));
    } else {
        let before = rows.drop_last();
        let row = rows.last();
        let number = rows.len();
        assert forall|i: int| 0 <= i < before.len() implies is_field((#[trigger] before[i]).1)
            && is_field(before[i].2) by {
            assert(before[i] == rows[i]);
        }
        file_splits_into_lines(before);
        assert(rows[rows.len() - 1] == row);
        row_is_line(number, row);
        let line = joined(row_fields(number, row), ',');
        let start = file_text(before);
        pieces_append(start, line, '\n');
        let most = start + line;
        assert(file_text(rows) =~= most.push('\n'));
        assert(most.push('\n').drop_last() =~= most);
        assert(pieces(start, '\n').drop_last() =~= file_lines(before));
        assert(Seq::<char>::empty() + line =~= line);
        assert(pieces(most, '\n') =~= file_lines(before).push(line));
        assert(file_lines(before).push(line) =~= lines) by {
            assert forall|i: int| 0 <= i < lines.len() implies file_lines(before).push(line)[i]
                == #[trigger] lines[i] by {
                if 0 < i < lines.len() - 1 {
                    assert(before[i - 1] == rows[i - 1]);
                }
            }
        }
    }
}

proof fn file_has_lines(rows: Seq<(RunOrder, Seq<char>, Seq<char>)>)
    requires
        forall|i: int|
            0 <= i < rows.len() ==> is_field((#[trigger] rows[i]).1) && is_field(rows[i].2),
    ensures
        lines_of(file_text(rows)) == file_lines(rows),
{
    file_splits_into_lines(rows);
    let parts = pieces(file_text(rows), '\n');
    let lines = file_lines(rows);
    assert(parts.last() =~= Seq::<char>::empty());
    reveal_strlit("repetition,order,baseline_seconds,candidate_seconds");
    assert forall|i: int| 0 <= i < lines.len() implies without_return(#[trigger] lines[i])
        == lines[i] by {
        if i > 0 {
            row_is_line(i as nat, rows[i - 1]);
            if lines[i].len() > 0 && lines[i].last() == '\r' {
                assert(lines[i].contains('\r'));
            }
        }
    }
    assert forall|i: int| 0 <= i < lines.len() implies #[trigger] parts[i] == lines[i] by {}
    assert(lines_of(file_text(rows)) =~= lines);
}

/// Whether what a row's seconds were read as are the times measured.
pub open spec fn reads_as<T>(readings: (Reading<T>, Reading<T>), outputs: Pair<T>) -> bool {
    &&& readings.0 matches Reading::Number { seconds, elapsed } && seconds.finite()
        && seconds.position() >= 0 && elapsed == Some(outputs.baseline)
    &&& readings.1 matches Reading::Number { seconds, elapsed } && seconds.finite()
        && seconds.position() >= 0 && elapsed == Some(outputs.candidate)
}

/// What is written of repetitions is read back: where the seconds that were
/// written are read as the times measured, the file holds the repetitions.
pub proof fn written_measurements_are_read_back<T>(
    rows: Seq<(RunOrder, Seq<char>, Seq<char>)>,
    repetitions: Seq<Repetition<T>>,
    readings: Seq<(Reading<T>, Reading<T>)>,
)
    requires
        repetitions.len() == rows.len(),
        readings.len() == rows.len(),
        rows.len() <= usize::MAX,
        forall|i: int|
            0 <= i < rows.len() ==> {
                &&& is_field((#[trigger] rows[i]).1)
                &&& is_field(rows[i].2)
                &&& rows[i].2.len() > 0
                &&& rows[i].0 == repetitions[i].order
                &&& reads_as(readings[i], repetitions[i].outputs)
            },
        repetitions.len() >= MINIMUM_REPETITIONS,
        has_order(repetitions, RunOrder::BaselineFirst),
        has_order(repetitions, RunOrder::CandidateFirst),
    ensures
        read_file(
            lines_of(file_text(rows)).map_values(|line: Seq<char>| Some(line)),
            readings,
        ) == Ok::<Seq<Repetition<T>>, ReadFault>(repetitions),
{
    let lines = lines_of(file_text(rows)).map_values(|line: Seq<char>| Some(line));
    file_has_lines(rows);
    rows_are_read_back(rows, repetitions, readings, lines, rows.len());
    assert(repetitions.take(repetitions.len() as int) =~= repetitions);
}

proof fn rows_are_read_back<T>(
    rows: Seq<(RunOrder, Seq<char>, Seq<char>)>,
    repetitions: Seq<Repetition<T>>,
    readings: Seq<(Reading<T>, Reading<T>)>,
    lines: Seq<Option<Seq<char>>>,
    count: nat,
)
    requires
        count <= rows.len(),
        repetitions.len() == rows.len(),
        readings.len() == rows.len(),
        rows.len() <= usize::MAX,
        lines == file_lines(rows).map_values(|line: Seq<char>| Some(line)),
        forall|i: int|
            0 <= i < rows.len() ==> {
                &&& is_field((#[trigger] rows[i]).1)
                &&& is_field(rows[i].2)
                &&& rows[i].2.len() > 0
                &&& rows[i].0 == repetitions[i].order
                &&& reads_as(readings[i], repetitions[i].outputs)
            },
    ensures
        read_rows(lines, readings, count) == Ok::<Seq<Repetition<T>>, ReadFault>(
            repetitions.take(count as int),
        ),
    decreases count,
{
    if count == 0 {
        assert(repetitions.take(0) =~= Seq::empty());
    } else {
        rows_are_read_back(rows, repetitions, readings, lines, (count - 1) as nat);
        let row = rows[count - 1];
        row_is_line(count, row);
        order_is_field(row.0);
        decimal_text_denotes(count);
        assert(lines[count as int] == Some(joined(row_fields(count, row), ',')));
        assert(repetitions.take(count as int) =~= repetitions.take(count - 1).push(
            repetitions[count - 1],
        ));
    }
}

/// Every error tells the fault of its name.
pub proof fn read_errors_tell_their_faults(error: ReadError)
    ensures
        error is InvalidHeader ==> error.fault() == ReadFault::InvalidHeader,
        error matches ReadError::Unreadable { line } ==> error.fault() == (ReadFault::Unreadable {
            line: line as nat,
        }),
        error matches ReadError::InvalidLine { line } ==> error.fault() == (
        ReadFault::InvalidLine { line: line as nat }),
        error matches ReadError::NotInteger { text } ==> error.fault() == (ReadFault::NotInteger {
            text: text@,
        }),
        error is NotSequential ==> error.fault() == ReadFault::NotSequential,
        error matches ReadError::UnknownOrder { order } ==> error.fault() == (
        ReadFault::UnknownOrder { order: order@ }),
        error matches ReadError::NotNumber { text } ==> error.fault() == (ReadFault::NotNumber {
            text: text@,
        }),
        error is NotFinite ==> error.fault() == ReadFault::NotFinite,
        error is TooLarge ==> error.fault() == ReadFault::TooLarge,
        error matches ReadError::TooFew { count } ==> error.fault() == (ReadFault::TooFew {
            count: count as nat,
        }),
        error is MissingOrder ==> error.fault() == ReadFault::MissingOrder,
{
}

/// The file of the draws is a line that names the unit of both columns, and
/// then a line for each draw, its baseline value before its candidate value.
pub proof fn every_draw_has_its_line(
    unit: Seq<char>,
    rows: Seq<(Seq<char>, Seq<char>)>,
    baseline: Seq<char>,
    candidate: Seq<char>,
)
    ensures
        posterior_text(unit, Seq::empty()) == "baseline_"@ + unit + ",candidate_"@ + unit + "\n"@,
        posterior_text(unit, rows.push((baseline, candidate))) == posterior_text(unit, rows)
            + baseline + ","@ + candidate + "\n"@,
{
    assert(rows.push((baseline, candidate)).drop_last() =~= rows);
}

/// A field of seconds stands for a time exactly where it is a finite number that
/// is not negative and that a time can hold; each way to miss that has its own
/// fault.
pub proof fn only_times_are_accepted<T>(text: Seq<char>, reading: Reading<T>, elapsed: T)
    ensures
        elapsed_of(text, reading) == Ok::<T, ReadFault>(elapsed) <==> (reading matches
            Reading::Number { seconds, elapsed: found } && (seconds.bits < 0x7FF0_0000_0000_0000
            || seconds.bits == 0x8000_0000_0000_0000) && found == Some(elapsed)),
        reading is NotNumber ==> elapsed_of(text, reading) == Err::<T, ReadFault>(
            ReadFault::NotNumber { text },
        ),
        reading matches Reading::Number { seconds, elapsed: found } ==> {
            &&& !(seconds.bits < 0x7FF0_0000_0000_0000 || seconds.bits == 0x8000_0000_0000_0000)
                ==> elapsed_of(text, reading) == Err::<T, ReadFault>(ReadFault::NotFinite)
            &&& (seconds.bits < 0x7FF0_0000_0000_0000 || seconds.bits == 0x8000_0000_0000_0000)
                && found is None ==> elapsed_of(text, reading) == Err::<T, ReadFault>(
                ReadFault::TooLarge,
            )
        },
{
}

/// What a line behind the header holds: four fields between commas, of which the
/// last is not empty. The first is the number of the row, the second names the
/// order, the third is the time of the baseline and the fourth that of the
/// candidate. The first field that is wrong is the fault.
pub proof fn a_line_holds_one_repetition<T>(
    text: Seq<char>,
    index: nat,
    readings: (Reading<T>, Reading<T>),
    row: Repetition<T>,
)
    requires
        index < usize::MAX,
    ensures
        ({
            let fields = pieces(text, ',');
            let result = read_row(Some(text), index, readings);
            let shaped = fields.len() == 4 && fields[3].len() > 0;
            let numbered = shaped && unsigned_value(fields[0]) == Some(index + 1);
            let ordered = numbered && (fields[1] == "baseline_first"@ || fields[1]
                == "candidate_first"@);
            &&& result == Ok::<Repetition<T>, ReadFault>(row) <==> {
                &&& ordered
                &&& row.order is BaselineFirst <==> fields[1] == "baseline_first"@
                &&& elapsed_of(fields[2], readings.0) == Ok::<T, ReadFault>(row.outputs.baseline)
                &&& elapsed_of(fields[3], readings.1) == Ok::<T, ReadFault>(row.outputs.candidate)
            }
            &&& !shaped ==> result == Err::<Repetition<T>, ReadFault>(
                ReadFault::InvalidLine { line: index + 2 },
            )
            &&& shaped && (unsigned_value(fields[0]) matches Some(number) && number <= usize::MAX
                && number != index + 1) ==> result == Err::<Repetition<T>, ReadFault>(
                ReadFault::NotSequential,
            )
            &&& shaped && (unsigned_value(fields[0]) matches Some(number) ==> number > usize::MAX)
                ==> result == Err::<Repetition<T>, ReadFault>(
                ReadFault::NotInteger { text: fields[0] },
            )
            &&& numbered && !ordered ==> result == Err::<Repetition<T>, ReadFault>(
                ReadFault::UnknownOrder { order: fields[1] },
            )
            &&& ordered ==> (elapsed_of(fields[2], readings.0) matches Err(fault) ==> result == Err::<
                Repetition<T>,
                ReadFault,
            >(fault))
            &&& ordered && elapsed_of(fields[2], readings.0) is Ok ==> (elapsed_of(
                fields[3],
                readings.1,
            ) matches Err(fault) ==> result == Err::<Repetition<T>, ReadFault>(fault))
            &&& read_row(None, index, readings) == Err::<Repetition<T>, ReadFault>(
                ReadFault::Unreadable { line: index + 2 },
            )
        }),
{
    reveal_strlit("baseline_first");
    reveal_strlit("candidate_first");
    assert("baseline_first"@[0] != "candidate_first"@[0]);
}

proof fn rows_are_read_in_order<T>(
    lines: Seq<Option<Seq<char>>>,
    readings: Seq<(Reading<T>, Reading<T>)>,
    count: nat,
)
    ensures
        match read_rows(lines, readings, count) {
            Ok(rows) => {
                &&& rows.len() == count
                &&& forall|i: int|
                    0 <= i < count ==> read_row(lines[i + 1], i as nat, readings[i]) == Ok::<
                        Repetition<T>,
                        ReadFault,
                    >(#[trigger] rows[i])
            },
            Err(fault) => exists|i: int|
                {
                    &&& 0 <= i < count
                    &&& read_row(lines[i + 1], i as nat, #[trigger] readings[i]) == Err::<
                        Repetition<T>,
                        ReadFault,
                    >(fault)
                    &&& forall|j: int|
                        0 <= j < i ==> read_row(lines[j + 1], j as nat, #[trigger] readings[j]) is Ok
                },
        },
    decreases count,
{
    if count > 0 {
        rows_are_read_in_order(lines, readings, (count - 1) as nat);
        if let Ok(before) = read_rows(lines, readings, (count - 1) as nat) {
            let last = readings[count - 1];
            assert forall|j: int| 0 <= j < count - 1 implies read_row(
                lines[j + 1],
                j as nat,
                #[trigger] readings[j],
            ) is Ok by {
                assert(read_row(lines[j + 1], j as nat, readings[j]) == Ok::<
                    Repetition<T>,
                    ReadFault,
                >(before[j]));
            }
        }
    }
}

/// What a measurements file holds: behind the header a repetition a line, in
/// their order, ten of them or more, of both orders.
pub proof fn a_file_holds_a_repetition_a_line<T>(
    lines: Seq<Option<Seq<char>>>,
    readings: Seq<(Reading<T>, Reading<T>)>,
)
    ensures
        lines.len() == 0 ==> read_file(lines, readings) == Err::<Seq<Repetition<T>>, ReadFault>(
            ReadFault::InvalidHeader,
        ),
        lines.len() > 0 && lines[0] is None ==> read_file(lines, readings) == Err::<
            Seq<Repetition<T>>,
            ReadFault,
        >(ReadFault::Unreadable { line: 1 }),
        lines.len() > 0 && (lines[0] matches Some(text) && text
            != "repetition,order,baseline_seconds,candidate_seconds"@) ==> read_file(
            lines,
            readings,
        ) == Err::<Seq<Repetition<T>>, ReadFault>(ReadFault::InvalidHeader),
        read_file(lines, readings) matches Ok(rows) ==> {
            &&& lines.len() > 0
            &&& lines[0] == Some("repetition,order,baseline_seconds,candidate_seconds"@)
            &&& rows.len() == lines.len() - 1
            &&& rows.len() >= 10
            &&& exists|i: int|
                0 <= i < rows.len() && (#[trigger] rows[i]).order == RunOrder::BaselineFirst
            &&& exists|i: int|
                0 <= i < rows.len() && (#[trigger] rows[i]).order == RunOrder::CandidateFirst
            &&& forall|i: int|
                0 <= i < rows.len() ==> read_row(lines[i + 1], i as nat, readings[i]) == Ok::<
                    Repetition<T>,
                    ReadFault,
                >(#[trigger] rows[i])
        },
        read_file(lines, readings) matches Err(ReadFault::TooFew { count }) ==> count
            == lines.len() - 1 && count < 10,
        (lines.len() > 0 && lines[0] == Some(
            "repetition,order,baseline_seconds,candidate_seconds"@,
        ) && forall|i: int|
            0 <= i < lines.len() - 1 ==> read_row(
                lines[i + 1],
                i as nat,
                #[trigger] readings[i],
            ) is Ok) ==> {
            &&& lines.len() < 11 ==> read_file(lines, readings) == Err::<
                Seq<Repetition<T>>,
                ReadFault,
            >(ReadFault::TooFew { count: (lines.len() - 1) as nat })
            &&& lines.len() >= 11 ==> read_file(lines, readings) is Ok || read_file(lines, readings)
                == Err::<Seq<Repetition<T>>, ReadFault>(ReadFault::MissingOrder)
        },
{
    if lines.len() > 0 {
        rows_are_read_in_order(lines, readings, (lines.len() - 1) as nat);
        if read_rows(lines, readings, (lines.len() - 1) as nat) is Err {
            let i = choose|i: int|
                0 <= i < lines.len() - 1 && read_row(
                    lines[i + 1],
                    i as nat,
                    #[trigger] readings[i],
                ) is Err;
            assert(read_row(lines[i + 1], i as nat, readings[i]) is Err);
        }
    }
}

/// Rows and lines are told one by one: both texts of a row in their order, and
/// the text of each line that could be read.
pub proof fn rows_and_lines_are_told_one_by_one(
    rows: Seq<(String, String)>,
    lines: Seq<Option<String>>,
    i: int,
)
    ensures
        text_pairs(rows).len() == rows.len(),
        0 <= i < rows.len() ==> text_pairs(rows)[i] == (rows[i].0@, rows[i].1@),
        line_texts(lines).len() == lines.len(),
        0 <= i < lines.len() ==> match lines[i] {
            Some(text) => line_texts(lines)[i] == Some(text@),
            None => line_texts(lines)[i] is None,
        },
{
}

/// A file with its header is at fault for the first of its lines that is.
pub proof fn the_first_line_at_fault_counts<T>(
    lines: Seq<Option<Seq<char>>>,
    readings: Seq<(Reading<T>, Reading<T>)>,
    i: int,
    fault: ReadFault,
)
    requires
        lines.len() > 0,
        lines[0] == Some("repetition,order,baseline_seconds,candidate_seconds"@),
        0 <= i < lines.len() - 1,
        read_row(lines[i + 1], i as nat, readings[i]) == Err::<Repetition<T>, ReadFault>(fault),
        forall|j: int|
            0 <= j < i ==> read_row(lines[j + 1], j as nat, #[trigger] readings[j]) is Ok,
    ensures
        read_file(lines, readings) == Err::<Seq<Repetition<T>>, ReadFault>(fault),
{
    rows_are_read_in_order(lines, readings, (lines.len() - 1) as nat);
    match read_rows(lines, readings, (lines.len() - 1) as nat) {
        Ok(rows) => {
            let row = rows[i];
            assert(rows.len() == lines.len() - 1);
            assert(read_row(lines[i + 1], i as nat, readings[i]) is Ok);
        },
        Err(found) => {
            let k = choose|k: int|
                {
                    &&& 0 <= k < lines.len() - 1
                    &&& read_row(lines[k + 1], k as nat, #[trigger] readings[k]) == Err::<
                        Repetition<T>,
                        ReadFault,
                    >(found)
                    &&& forall|j: int|
                        0 <= j < k ==> read_row(lines[j + 1], j as nat, #[trigger] readings[j]) is Ok
                };
            assert(readings[k] == readings[k] && readings[i] == readings[i]);
            assert(k == i);
        },
    }
}

/// A file whose lines are all repetitions, ten of them or more, is read exactly
/// where both orders are among them.
pub proof fn both_orders_are_needed<T>(
    lines: Seq<Option<Seq<char>>>,
    readings: Seq<(Reading<T>, Reading<T>)>,
    rows: Seq<Repetition<T>>,
)
    requires
        lines.len() == rows.len() + 1,
        lines[0] == Some("repetition,order,baseline_seconds,candidate_seconds"@),
        rows.len() >= 10,
        forall|i: int|
            0 <= i < rows.len() ==> read_row(lines[i + 1], i as nat, readings[i]) == Ok::<
                Repetition<T>,
                ReadFault,
            >(#[trigger] rows[i]),
    ensures
        (exists|i: int| 0 <= i < rows.len() && (#[trigger] rows[i]).order is BaselineFirst) && (
        exists|i: int| 0 <= i < rows.len() && (#[trigger] rows[i]).order is CandidateFirst)
            ==> read_file(lines, readings) == Ok::<Seq<Repetition<T>>, ReadFault>(rows),
        (forall|i: int| 0 <= i < rows.len() ==> (#[trigger] rows[i]).order is BaselineFirst) || (
        forall|i: int| 0 <= i < rows.len() ==> (#[trigger] rows[i]).order is CandidateFirst)
            ==> read_file(lines, readings) == Err::<Seq<Repetition<T>>, ReadFault>(
            ReadFault::MissingOrder,
        ),
{
    rows_are_read_in_order(lines, readings, rows.len());
    match read_rows(lines, readings, rows.len()) {
        Ok(found) => {
            assert forall|i: int| 0 <= i < rows.len() implies found[i] == rows[i] by {
                assert(rows[i] == rows[i] && found[i] == found[i]);
            }
            assert(found =~= rows);
            if exists|i: int| 0 <= i < rows.len() && (#[trigger] rows[i]).order is BaselineFirst {
                assert(has_order(rows, RunOrder::BaselineFirst));
            }
            if exists|i: int| 0 <= i < rows.len() && (#[trigger] rows[i]).order is CandidateFirst {
                assert(has_order(rows, RunOrder::CandidateFirst));
            }
        },
        Err(found) => {
            let k = choose|k: int|
                0 <= k < rows.len() && read_row(lines[k + 1], k as nat, #[trigger] readings[k])
                    == Err::<Repetition<T>, ReadFault>(found);
            assert(read_row(lines[k + 1], k as nat, readings[k]) == Ok::<Repetition<T>, ReadFault>(
                rows[k],
            ));
        },
    }
}

} // verus!
