//! The report of a benchmark, laid out around numbers as they are shown.

use crate::metric::Metric;
use crate::text::{characters, decimal, decimal_text, joined};
use vstd::prelude::*;

verus! {

/// The digits of a number, with a comma before each group of three from the
/// right.
pub open spec fn grouped(digits: Seq<char>) -> Seq<char>
    decreases digits.len(),
{
    if digits.len() <= 3 {
        digits
    } else {
        let head = digits.take(digits.len() - 3);
        grouped(head) + seq![','] + digits.skip(digits.len() - 3)
    }
}

/// The digits of a number before a position, with commas where the digits
/// behind the position make whole groups.
spec fn grouped_before(digits: Seq<char>, position: nat) -> Seq<char>
    decreases position,
{
    if position == 0 {
        Seq::empty()
    } else {
        let before = grouped_before(digits, (position - 1) as nat);
        if position > 1 && (digits.len() - (position - 1)) % 3 == 0 {
            before.push(',').push(digits[position - 1])
        } else {
            before.push(digits[position - 1])
        }
    }
}

proof fn grouped_before_shorter(digits: Seq<char>, head: Seq<char>, position: nat)
    requires
        digits.len() > 3,
        head == digits.take(digits.len() - 3),
        position <= head.len(),
    ensures
        grouped_before(digits, position) == grouped_before(head, position),
    decreases position,
{
    if position > 0 {
        grouped_before_shorter(digits, head, (position - 1) as nat);
        assert((digits.len() - (position - 1)) % 3 == (head.len() - (position - 1)) % 3);
    }
}

proof fn grouped_before_all(digits: Seq<char>)
    ensures
        grouped_before(digits, digits.len()) == grouped(digits),
    decreases digits.len(),
{
    let count = digits.len();
    reveal_with_fuel(grouped_before, 4);
    if count <= 3 {
        assert(grouped_before(digits, count) =~= digits);
    } else {
        let head = digits.take(count - 3);
        grouped_before_all(head);
        grouped_before_shorter(digits, head, head.len());
        let start = grouped_before(digits, (count - 3) as nat);
        assert(grouped_before(digits, (count - 2) as nat) == start.push(',').push(
            digits[count - 3],
        ));
        assert(grouped_before(digits, (count - 1) as nat) == start.push(',').push(
            digits[count - 3],
        ).push(digits[count - 2]));
        assert(grouped_before(digits, count) =~= grouped(digits));
    }
}

/// A count with its digits in groups of three.
pub fn thousands(count: usize) -> (text: String)
    ensures
        text@ == grouped(decimal_text(count as nat)),
{
    let digits = characters(decimal(count as u64).as_str());
    let ghost all = decimal_text(count as nat);
    let mut text = String::new();
    assert(text@ =~= grouped_before(all, 0));
    for position in 0..digits.len()
        invariant
            digits@ == all,
            text@ == grouped_before(all, position as nat),
    {
        if position > 0 && (digits.len() - position) % 3 == 0 {
            text.push(',');
        }
        text.push(digits[position]);
        assert(text@ =~= grouped_before(all, (position + 1) as nat));
    }
    proof {
        grouped_before_all(all);
    }
    text
}

/// The bounds of a change as they are shown: the width in percent, and the
/// absolute and the relative bounds.
#[derive(Clone, Debug)]
pub struct ShownBounds {
    pub percent: String,
    pub lower: String,
    pub upper: String,
    pub relative: Option<(String, String)>,
}

/// A summary as it is shown.
#[derive(Clone, Debug)]
pub struct ShownSummary {
    pub baseline: String,
    pub candidate: String,
    pub absolute: String,
    pub relative: Option<String>,
    pub bounds: Vec<ShownBounds>,
    pub percent_lower: String,
    /// How many draws have the candidate below the baseline.
    pub below: usize,
    pub draws: usize,
}

/// The line of the probability that the candidate is the lower one.
pub open spec fn probability_text(
    lower: Seq<char>,
    percent: Seq<char>,
    below: nat,
    draws: nat,
) -> Seq<char> {
    "P(candidate "@ + lower + "): "@ + percent + "% ("@ + grouped(decimal_text(below)) + " of "@
        + grouped(decimal_text(draws)) + " draws)"@
}

/// The line of one interval.
pub open spec fn bounds_text(bounds: ShownBounds) -> Seq<char> {
    let absolute = "  "@ + bounds.percent@ + "% CrI: ["@ + bounds.lower@ + ", "@ + bounds.upper@
        + "]"@;
    match bounds.relative {
        Some((lower, upper)) => absolute + " ("@ + lower@ + "%, "@ + upper@ + "%)"@ + "\n"@,
        None => absolute + "\n"@,
    }
}

/// The lines of the first intervals.
pub open spec fn intervals_text(bounds: Seq<ShownBounds>, count: nat) -> Seq<char>
    decreases count,
{
    if count == 0 {
        Seq::empty()
    } else {
        intervals_text(bounds, (count - 1) as nat) + bounds_text(bounds[count - 1])
    }
}

/// The line of the median change.
pub open spec fn change_text(absolute: Seq<char>, relative: Option<String>) -> Seq<char> {
    match relative {
        Some(relative) => "Change: "@ + absolute + " ("@ + relative@ + "%)"@ + "\n"@,
        None => "Change: "@ + absolute + "\n"@,
    }
}

/// A summary as it is printed.
pub open spec fn summary_text(lower: Seq<char>, summary: ShownSummary) -> Seq<char> {
    "Baseline:  "@ + summary.baseline@ + "\nCandidate: "@ + summary.candidate@ + "\n\n"@
        + change_text(summary.absolute@, summary.relative) + intervals_text(
        summary.bounds@,
        summary.bounds@.len(),
    ) + "\n"@ + probability_text(
        lower,
        summary.percent_lower@,
        summary.below as nat,
        summary.draws as nat,
    ) + "\n"@
}

fn bounds_line(bounds: &ShownBounds) -> (text: String)
    ensures
        text@ == bounds_text(*bounds),
{
    let absolute = "  ".to_owned().concat(bounds.percent.as_str()).concat("% CrI: [").concat(
        bounds.lower.as_str(),
    ).concat(", ").concat(bounds.upper.as_str()).concat("]");
    match &bounds.relative {
        Some((lower, upper)) => absolute.concat(" (").concat(lower.as_str()).concat("%, ").concat(
            upper.as_str(),
        ).concat("%)").concat("\n"),
        None => absolute.concat("\n"),
    }
}

fn change_line(absolute: &str, relative: &Option<String>) -> (text: String)
    ensures
        text@ == change_text(absolute@, *relative),
{
    match relative {
        Some(relative) => "Change: ".to_owned().concat(absolute).concat(" (").concat(
            relative.as_str(),
        ).concat("%)").concat("\n"),
        None => "Change: ".to_owned().concat(absolute).concat("\n"),
    }
}

/// The line of the probability that the candidate is the lower one.
pub fn probability<M: Metric>(percent: &str, below: usize, draws: usize) -> (text: String)
    ensures
        text@ == probability_text(M::lower_name(), percent@, below as nat, draws as nat),
        text@ == "P(candidate "@ + M::lower_name() + "): "@ + percent@ + "% ("@ + grouped(
            decimal_text(below as nat),
        ) + " of "@ + grouped(decimal_text(draws as nat)) + " draws)"@,
{
    "P(candidate ".to_owned().concat(M::lower()).concat("): ").concat(percent).concat(
        "% (",
    ).concat(thousands(below).as_str()).concat(" of ").concat(thousands(draws).as_str()).concat(
        " draws)",
    )
}

/// The line of an interval, without the end of the line.
spec fn bounds_line_text(bounds: ShownBounds) -> Seq<char> {
    "  "@ + bounds.percent@ + "% CrI: ["@ + bounds.lower@ + ", "@ + bounds.upper@ + "]"@
        + match bounds.relative {
        Some((lower, upper)) => " ("@ + lower@ + "%, "@ + upper@ + "%)"@,
        None => Seq::empty(),
    }
}

proof fn joined_with_one_more(lines: Seq<Seq<char>>, line: Seq<char>)
    requires
        lines.len() > 0,
    ensures
        joined(lines.push(line), '\n') == joined(lines, '\n') + "\n"@ + line,
{
    reveal_strlit("\n");
    assert(lines.push(line).drop_last() =~= lines);
    assert(joined(lines, '\n').push('\n') =~= joined(lines, '\n') + "\n"@);
}

proof fn interval_lines(start: Seq<Seq<char>>, bounds: Seq<ShownBounds>, count: nat)
    requires
        start.len() > 0,
        count <= bounds.len(),
    ensures
        joined(start + Seq::new(count, |i: int| bounds_line_text(bounds[i])), '\n') + "\n"@
            == joined(start, '\n') + "\n"@ + intervals_text(bounds, count),
    decreases count,
{
    let lines = start + Seq::new(count, |i: int| bounds_line_text(bounds[i]));
    if count == 0 {
        assert(lines =~= start);
        assert(joined(start, '\n') + "\n"@ + Seq::<char>::empty() =~= joined(start, '\n') + "\n"@);
    } else {
        let fewer = start + Seq::new((count - 1) as nat, |i: int| bounds_line_text(bounds[i]));
        let line = bounds_line_text(bounds[count - 1]);
        interval_lines(start, bounds, (count - 1) as nat);
        assert(lines =~= fewer.push(line));
        joined_with_one_more(fewer, line);
        assert(line + "\n"@ =~= bounds_text(bounds[count - 1]));
        assert(joined(lines, '\n') + "\n"@ =~= (joined(fewer, '\n') + "\n"@) + (line + "\n"@));
        assert(joined(start, '\n') + "\n"@ + intervals_text(bounds, count) =~= (joined(start, '\n')
            + "\n"@ + intervals_text(bounds, (count - 1) as nat)) + bounds_text(bounds[count - 1]));
    }
}

/// A printed summary is these lines, whatever it shows: the baseline, the
/// candidate, the change, an interval a line in their order, and the
/// probability, with an empty line before the change and behind the intervals.
pub proof fn a_summary_is_these_lines(lower: Seq<char>, shown: ShownSummary, text: Seq<char>)
    requires
        text == summary_text(lower, shown),
    ensures
        text == joined(
        (seq![
            "Baseline:  "@ + shown.baseline@,
            "Candidate: "@ + shown.candidate@,
            Seq::empty(),
            "Change: "@ + shown.absolute@ + match shown.relative {
                Some(relative) => " ("@ + relative@ + "%)"@,
                None => Seq::empty(),
            },
        ] + Seq::new(
            shown.bounds@.len(),
            |i: int|
                "  "@ + shown.bounds@[i].percent@ + "% CrI: ["@ + shown.bounds@[i].lower@ + ", "@
                    + shown.bounds@[i].upper@ + "]"@ + match shown.bounds@[i].relative {
                    Some((lower, upper)) => " ("@ + lower@ + "%, "@ + upper@ + "%)"@,
                    None => Seq::empty(),
                },
        ) + seq![
            Seq::empty(),
            "P(candidate "@ + lower + "): "@ + shown.percent_lower@ + "% ("@ + grouped(
                decimal_text(shown.below as nat),
            ) + " of "@ + grouped(decimal_text(shown.draws as nat)) + " draws)"@,
            Seq::empty(),
        ]),
        '\n',
    ),
{
    let nothing = Seq::<char>::empty();
    let first = "Baseline:  "@ + shown.baseline@;
    let second = "Candidate: "@ + shown.candidate@;
    let change = "Change: "@ + shown.absolute@ + match shown.relative {
        Some(relative) => " ("@ + relative@ + "%)"@,
        None => nothing,
    };
    let count = shown.bounds@.len();
    let lines = Seq::new(count, |i: int| bounds_line_text(shown.bounds@[i]));
    let chance = "P(candidate "@ + lower + "): "@ + shown.percent_lower@ + "% ("@ + grouped(
        decimal_text(shown.below as nat),
    ) + " of "@ + grouped(decimal_text(shown.draws as nat)) + " draws)"@;
    let start = seq![first, second, nothing, change];
    reveal_strlit("\n");
    reveal_strlit("\n\n");
    reveal_strlit("\nCandidate: ");
    reveal_strlit("Candidate: ");
    assert(joined(seq![first], '\n') == first);
    joined_with_one_more(seq![first], second);
    assert(seq![first].push(second) =~= seq![first, second]);
    joined_with_one_more(seq![first, second], nothing);
    assert(seq![first, second].push(nothing) =~= seq![first, second, nothing]);
    joined_with_one_more(seq![first, second, nothing], change);
    assert(seq![first, second, nothing].push(change) =~= start);
    assert(change + "\n"@ =~= change_text(shown.absolute@, shown.relative));
    assert("\nCandidate: "@ =~= "\n"@ + "Candidate: "@);
    assert("\n\n"@ =~= "\n"@ + "\n"@);
    let head = "Baseline:  "@ + shown.baseline@ + "\nCandidate: "@ + shown.candidate@ + "\n\n"@
        + change_text(shown.absolute@, shown.relative);
    assert(joined(start, '\n') + "\n"@ =~= head);
    interval_lines(start, shown.bounds@, count);
    let most = start + lines;
    joined_with_one_more(most, nothing);
    joined_with_one_more(most.push(nothing), chance);
    joined_with_one_more(most.push(nothing).push(chance), nothing);
    assert(text =~= joined(most.push(nothing).push(chance).push(nothing), '\n'));
    let all = (seq![
            "Baseline:  "@ + shown.baseline@,
            "Candidate: "@ + shown.candidate@,
            Seq::empty(),
            "Change: "@ + shown.absolute@ + match shown.relative {
                Some(relative) => " ("@ + relative@ + "%)"@,
                None => Seq::empty(),
            },
        ] + Seq::new(
            shown.bounds@.len(),
            |i: int|
                "  "@ + shown.bounds@[i].percent@ + "% CrI: ["@ + shown.bounds@[i].lower@ + ", "@
                    + shown.bounds@[i].upper@ + "]"@ + match shown.bounds@[i].relative {
                    Some((lower, upper)) => " ("@ + lower@ + "%, "@ + upper@ + "%)"@,
                    None => Seq::empty(),
                },
        ) + seq![
            Seq::empty(),
            "P(candidate "@ + lower + "): "@ + shown.percent_lower@ + "% ("@ + grouped(
                decimal_text(shown.below as nat),
            ) + " of "@ + grouped(decimal_text(shown.draws as nat)) + " draws)"@,
            Seq::empty(),
        ]);
    assert(all =~= most.push(nothing).push(chance).push(nothing));
}

/// A summary as it is printed.
pub fn summary<M: Metric>(shown: &ShownSummary) -> (text: String)
    ensures
        text@ == summary_text(M::lower_name(), *shown),
        text@ == joined(
        (seq![
            "Baseline:  "@ + shown.baseline@,
            "Candidate: "@ + shown.candidate@,
            Seq::empty(),
            "Change: "@ + shown.absolute@ + match shown.relative {
                Some(relative) => " ("@ + relative@ + "%)"@,
                None => Seq::empty(),
            },
        ] + Seq::new(
            shown.bounds@.len(),
            |i: int|
                "  "@ + shown.bounds@[i].percent@ + "% CrI: ["@ + shown.bounds@[i].lower@ + ", "@
                    + shown.bounds@[i].upper@ + "]"@ + match shown.bounds@[i].relative {
                    Some((lower, upper)) => " ("@ + lower@ + "%, "@ + upper@ + "%)"@,
                    None => Seq::empty(),
                },
        ) + seq![
            Seq::empty(),
            "P(candidate "@ + M::lower_name() + "): "@ + shown.percent_lower@ + "% ("@ + grouped(
                decimal_text(shown.below as nat),
            ) + " of "@ + grouped(decimal_text(shown.draws as nat)) + " draws)"@,
            Seq::empty(),
        ]),
        '\n',
    ),
{
    let mut intervals = String::new();
    for i in 0..shown.bounds.len()
        invariant
            intervals@ == intervals_text(shown.bounds@, i as nat),
    {
        intervals = intervals.concat(bounds_line(&shown.bounds[i]).as_str());
    }
    proof {
        a_summary_is_these_lines(
            M::lower_name(),
            *shown,
            summary_text(M::lower_name(), *shown),
        );
    }
    "Baseline:  ".to_owned().concat(shown.baseline.as_str()).concat("\nCandidate: ").concat(
        shown.candidate.as_str(),
    ).concat("\n\n").concat(change_line(shown.absolute.as_str(), &shown.relative).as_str()).concat(
        intervals.as_str(),
    ).concat("\n").concat(
        probability::<M>(shown.percent_lower.as_str(), shown.below, shown.draws).as_str(),
    ).concat("\n")
}

/// The report of a benchmark: a headline, led by the benchmark's name where it
/// has one, and the summary.
pub open spec fn report_text(
    name: Option<Seq<char>>,
    candidate: Seq<char>,
    baseline: Seq<char>,
    repetitions: nat,
    draws: nat,
    summary: Seq<char>,
) -> Seq<char> {
    let start = match name {
        Some(name) => name + ": "@,
        None => Seq::empty(),
    };
    start + "Comparing candidate ("@ + candidate + ") to baseline ("@ + baseline + ") with "@
        + decimal_text(repetitions) + " paired repetitions and "@ + decimal_text(draws)
        + " Bayesian bootstrap draws.\n\n"@ + summary
}

/// The report of a benchmark.
pub fn report(
    name: Option<&str>,
    candidate: &str,
    baseline: &str,
    repetitions: usize,
    draws: usize,
    summary: &str,
) -> (text: String)
    ensures
        text@ == report_text(
            match name {
                Some(name) => Some(name@),
                None => None,
            },
            candidate@,
            baseline@,
            repetitions as nat,
            draws as nat,
            summary@,
        ),
        name is None ==> text@ == "Comparing candidate ("@ + candidate@ + ") to baseline ("@
            + baseline@ + ") with "@ + decimal_text(repetitions as nat)
            + " paired repetitions and "@ + decimal_text(draws as nat)
            + " Bayesian bootstrap draws.\n\n"@ + summary@,
        name matches Some(called) ==> text@ == called@ + ": "@ + "Comparing candidate ("@
            + candidate@ + ") to baseline ("@ + baseline@ + ") with "@ + decimal_text(
            repetitions as nat,
        ) + " paired repetitions and "@ + decimal_text(draws as nat)
            + " Bayesian bootstrap draws.\n\n"@ + summary@,
{
    let start = match name {
        Some(name) => name.to_owned().concat(": "),
        None => String::new(),
    };
    start.concat("Comparing candidate (").concat(candidate).concat(") to baseline (").concat(
        baseline,
    ).concat(") with ").concat(decimal(repetitions as u64).as_str()).concat(
        " paired repetitions and ",
    ).concat(decimal(draws as u64).as_str()).concat(" Bayesian bootstrap draws.\n\n").concat(
        summary,
    )
}

/// What is printed for a report: a blank line parts it from the one before.
pub fn printed(first: bool, report: &str) -> (text: String)
    ensures
        text@ == (if first {
            report@
        } else {
            "\n"@ + report@
        }),
{
    if first {
        report.to_owned()
    } else {
        "\n".to_owned().concat(report)
    }
}

/// Grouping only adds commas: without them, the digits are back.
pub proof fn grouping_keeps_the_digits(digits: Seq<char>)
    requires
        !digits.contains(','),
    ensures
        grouped(digits).filter(|character: char| character != ',') == digits,
    decreases digits.len(),
{
    let keep = |character: char| character != ',';
    if digits.len() <= 3 {
        all_kept(digits);
    } else {
        let head = digits.take(digits.len() - 3);
        let tail = digits.skip(digits.len() - 3);
        assert forall|i: int| 0 <= i < head.len() implies head[i] != ',' by {
            assert(digits.contains(digits[i]));
        }
        assert forall|i: int| 0 <= i < tail.len() implies tail[i] != ',' by {
            assert(digits.contains(digits[digits.len() - 3 + i]));
        }
        grouping_keeps_the_digits(head);
        all_kept(tail);
        Seq::<char>::filter_distributes_over_add(grouped(head) + seq![','], tail, keep);
        Seq::<char>::filter_distributes_over_add(grouped(head), seq![','], keep);
        assert(seq![','].filter(keep) =~= Seq::empty()) by {
            reveal(Seq::filter);
            let comma = seq![','];
            assert(comma.drop_last() =~= Seq::<char>::empty());
            assert(comma.drop_last().filter(keep) =~= Seq::<char>::empty());
            assert(comma.last() == ',');
        }
        assert(head + tail =~= digits);
    }
}

proof fn all_kept(digits: Seq<char>)
    requires
        !digits.contains(','),
    ensures
        digits.filter(|character: char| character != ',') == digits,
    decreases digits.len(),
{
    reveal(Seq::filter);
    if digits.len() > 0 {
        let before = digits.drop_last();
        assert forall|i: int| 0 <= i < before.len() implies before[i] != ',' by {
            assert(digits.contains(digits[i]));
        }
        all_kept(before);
        assert(digits.contains(digits.last()));
        assert(before.push(digits.last()) =~= digits);
    }
}

/// A count below a thousand is told as it is. Of a larger one the thousands are
/// told, a comma, and then three digits for the rest.
pub proof fn thousands_are_parted_by_commas(count: nat)
    ensures
        count < 1000 ==> grouped(decimal_text(count)) == decimal_text(count),
        count >= 1000 ==> grouped(decimal_text(count)) == grouped(decimal_text(count / 1000))
            + seq![
            ',',
            (48 + count / 100 % 10) as char,
            (48 + count / 10 % 10) as char,
            (48 + count % 10) as char,
        ],
{
    reveal_with_fuel(decimal_text, 4);
    if count >= 1000 {
        let digits = decimal_text(count);
        let head = decimal_text(count / 1000);
        assert(count / 10 / 10 == count / 100);
        assert(count / 100 / 10 == count / 1000);
        crate::text::decimal_text_denotes(count / 1000);
        assert(digits =~= head.push((48 + count / 100 % 10) as char).push(
            (48 + count / 10 % 10) as char,
        ).push((48 + count % 10) as char));
        assert(digits.take(digits.len() - 3) =~= head);
        assert(grouped(digits) =~= grouped(head) + seq![
            ',',
            (48 + count / 100 % 10) as char,
            (48 + count / 10 % 10) as char,
            (48 + count % 10) as char,
        ]);
    }
}

} // verus!
