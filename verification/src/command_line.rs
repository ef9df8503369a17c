//! The command line of a Windows process: one row of UTF-16 units that the
//! process splits into its arguments again.

use vstd::prelude::*;

verus! {

pub const TAB: u16 = 9;

pub const SPACE: u16 = 32;

pub const QUOTE: u16 = 34;

pub const BACKSLASH: u16 = 92;

/// How many backslashes stand at the end of units.
pub open spec fn trailing(units: Seq<u16>) -> nat
    decreases units.len(),
{
    if units.len() > 0 && units.last() == BACKSLASH {
        trailing(units.drop_last()) + 1
    } else {
        0
    }
}

/// A row of backslashes.
pub open spec fn backslashes(count: nat) -> Seq<u16> {
    Seq::new(count, |i: int| BACKSLASH)
}

/// An argument without the backslashes at its end, where a quotation mark and
/// the backslashes before it are escaped.
pub open spec fn escaped(units: Seq<u16>) -> Seq<u16>
    decreases units.len(),
{
    if units.len() == 0 {
        Seq::empty()
    } else {
        let before = units.drop_last();
        let unit = units.last();
        if unit == BACKSLASH {
            escaped(before)
        } else if unit == QUOTE {
            escaped(before) + backslashes(2 * trailing(before) + 1) + seq![unit]
        } else {
            escaped(before) + backslashes(trailing(before)) + seq![unit]
        }
    }
}

/// Whether an argument has to stand in quotation marks.
pub open spec fn needs_quotes(units: Seq<u16>) -> bool {
    units.len() == 0 || units.contains(SPACE) || units.contains(TAB) || units.contains(QUOTE)
}

/// An argument as it stands in a command line.
pub open spec fn quoted(units: Seq<u16>) -> Seq<u16> {
    if needs_quotes(units) {
        seq![QUOTE] + escaped(units) + backslashes(2 * trailing(units)) + seq![QUOTE]
    } else {
        escaped(units) + backslashes(trailing(units))
    }
}

/// The arguments with a space between each two.
pub open spec fn spaced(arguments: Seq<Seq<u16>>) -> Seq<u16>
    decreases arguments.len(),
{
    if arguments.len() == 0 {
        Seq::empty()
    } else if arguments.len() == 1 {
        quoted(arguments[0])
    } else {
        spaced(arguments.drop_last()) + seq![SPACE] + quoted(arguments.last())
    }
}

/// Where a process stands in splitting its command line.
pub struct Splitting {
    /// The arguments before the current one.
    pub arguments: Seq<Seq<u16>>,
    /// What was read of the current argument.
    pub current: Seq<u16>,
    /// Whether a current argument has begun.
    pub begun: bool,
    /// Whether a quotation mark is open.
    pub open: bool,
    /// The backslashes that were read last.
    pub slashes: nat,
}

/// Reads one unit. Of backslashes before a quotation mark each two stand for
/// one, and one that is left over makes the mark part of the argument; all
/// other backslashes stand for themselves. Outside quotation marks, a space or
/// a tab ends an argument.
pub open spec fn read(state: Splitting, unit: u16) -> Splitting {
    if unit == BACKSLASH {
        Splitting { begun: true, slashes: state.slashes + 1, ..state }
    } else if unit == QUOTE {
        let current = state.current + backslashes(state.slashes / 2);
        if state.slashes % 2 == 1 {
            Splitting { current: current.push(QUOTE), begun: true, slashes: 0, ..state }
        } else {
            Splitting { current, begun: true, open: !state.open, slashes: 0, ..state }
        }
    } else {
        let current = state.current + backslashes(state.slashes);
        if (unit == SPACE || unit == TAB) && !state.open {
            if state.begun {
                Splitting {
                    arguments: state.arguments.push(current),
                    current: Seq::empty(),
                    begun: false,
                    slashes: 0,
                    ..state
                }
            } else {
                state
            }
        } else {
            Splitting { current: current.push(unit), begun: true, slashes: 0, ..state }
        }
    }
}

/// Reads units one after the other.
pub open spec fn read_all(state: Splitting, units: Seq<u16>) -> Splitting
    decreases units.len(),
{
    if units.len() == 0 {
        state
    } else {
        read(read_all(state, units.drop_last()), units.last())
    }
}

/// Before anything was read.
pub open spec fn unread() -> Splitting {
    Splitting {
        arguments: Seq::empty(),
        current: Seq::empty(),
        begun: false,
        open: false,
        slashes: 0,
    }
}

/// The arguments once everything was read.
pub open spec fn ended(state: Splitting) -> Seq<Seq<u16>> {
    if state.begun {
        state.arguments.push(state.current + backslashes(state.slashes))
    } else {
        state.arguments
    }
}

/// The arguments that a process reads from a command line.
pub open spec fn split_line(line: Seq<u16>) -> Seq<Seq<u16>> {
    ended(read_all(unread(), line))
}

proof fn read_all_joins(state: Splitting, one: Seq<u16>, other: Seq<u16>)
    ensures
        read_all(state, one + other) == read_all(read_all(state, one), other),
    decreases other.len(),
{
    if other.len() == 0 {
        assert(one + other =~= one);
    } else {
        read_all_joins(state, one, other.drop_last());
        assert((one + other).drop_last() =~= one + other.drop_last());
    }
}

proof fn read_all_backslashes(state: Splitting, count: nat)
    ensures
        read_all(state, backslashes(count)) == (Splitting {
            begun: state.begun || count > 0,
            slashes: state.slashes + count,
            ..state
        }),
    decreases count,
{
    let row = backslashes(count);
    if count > 0 {
        read_all_backslashes(state, (count - 1) as nat);
        assert(row.drop_last() =~= backslashes((count - 1) as nat));
    } else {
        assert(row =~= Seq::empty());
    }
}

proof fn read_one(state: Splitting, unit: u16)
    ensures
        read_all(state, seq![unit]) == read(state, unit),
{
    assert(seq![unit].drop_last() =~= Seq::empty());
    assert(read_all(state, Seq::<u16>::empty()) == state);
}

proof fn trailing_bound(units: Seq<u16>)
    ensures
        trailing(units) <= units.len(),
        forall|i: int| units.len() - trailing(units) <= i < units.len() ==> #[trigger] units[i]
            == BACKSLASH,
    decreases units.len(),
{
    if units.len() > 0 && units.last() == BACKSLASH {
        trailing_bound(units.drop_last());
        assert forall|i: int|
            units.len() - trailing(units) <= i < units.len() implies #[trigger] units[i]
            == BACKSLASH by {
            if i < units.len() - 1 {
                assert(units.drop_last()[i] == BACKSLASH);
            }
        }
    }
}

/// An argument without the backslashes at its end.
spec fn bare(units: Seq<u16>) -> Seq<u16> {
    units.take(units.len() - trailing(units))
}

proof fn bare_completes(units: Seq<u16>)
    ensures
        bare(units) + backslashes(trailing(units)) == units,
{
    trailing_bound(units);
    assert(bare(units) + backslashes(trailing(units)) =~= units);
}

proof fn escaped_reads_as(units: Seq<u16>, state: Splitting)
    requires
        state.current == Seq::<u16>::empty(),
        state.slashes == 0,
        state.open || !(units.contains(SPACE) || units.contains(TAB) || units.contains(QUOTE)),
    ensures
        read_all(state, escaped(units)) == (Splitting {
            current: bare(units),
            begun: state.begun || units.len() > trailing(units),
            ..state
        }),
    decreases units.len(),
{
    trailing_bound(units);
    if units.len() == 0 {
        assert(bare(units) =~= Seq::empty());
    } else {
        let before = units.drop_last();
        let unit = units.last();
        let count = trailing(before);
        trailing_bound(before);
        assert(units.contains(unit));
        assert forall|other: u16| #[trigger] before.contains(other) implies units.contains(
            other,
        ) by {
            let i = choose|i: int| 0 <= i < before.len() && before[i] == other;
            assert(units[i] == other);
        }
        escaped_reads_as(before, state);
        let after = read_all(state, escaped(before));
        bare_completes(before);
        if unit == BACKSLASH {
            assert(bare(units) =~= bare(before));
        } else {
            let row = if unit == QUOTE {
                2 * count + 1
            } else {
                count
            };
            let start = escaped(before) + backslashes(row);
            read_all_joins(state, escaped(before), backslashes(row));
            read_all_backslashes(after, row);
            read_all_joins(state, start, seq![unit]);
            read_one(read_all(state, start), unit);
            assert(bare(units) =~= units);
            assert(before.push(unit) =~= units);
            if unit == QUOTE {
                assert((2 * count + 1) / 2 == count);
                assert((2 * count + 1) % 2 == 1);
            }
        }
    }
}

/// What a process has read behind an argument in a command line.
spec fn behind(state: Splitting, units: Seq<u16>) -> Splitting {
    if needs_quotes(units) {
        Splitting { current: units, begun: true, ..state }
    } else {
        Splitting { current: bare(units), begun: true, slashes: trailing(units), ..state }
    }
}

proof fn quoted_reads_as(units: Seq<u16>, state: Splitting)
    requires
        state.current == Seq::<u16>::empty(),
        state.slashes == 0,
        !state.begun,
        !state.open,
    ensures
        read_all(state, quoted(units)) == behind(state, units),
        behind(state, units).current + backslashes(behind(state, units).slashes) == units,
{
    let count = trailing(units);
    bare_completes(units);
    trailing_bound(units);
    if needs_quotes(units) {
        let mark = seq![QUOTE];
        let inside = Splitting { begun: true, open: true, ..state };
        read_one(state, QUOTE);
        assert(state.current + backslashes(0) =~= state.current);
        assert(read_all(state, mark) == inside);
        escaped_reads_as(units, inside);
        read_all_joins(state, mark, escaped(units));
        let start = mark + escaped(units);
        read_all_joins(state, start, backslashes(2 * count));
        read_all_backslashes(read_all(state, start), 2 * count);
        read_all_joins(state, start + backslashes(2 * count), mark);
        read_one(read_all(state, start + backslashes(2 * count)), QUOTE);
        assert((2 * count) / 2 == count);
        assert(units + backslashes(0) =~= units);
    } else {
        escaped_reads_as(units, state);
        read_all_joins(state, escaped(units), backslashes(count));
        read_all_backslashes(read_all(state, escaped(units)), count);
    }
}

proof fn spaced_reads_as(arguments: Seq<Seq<u16>>)
    requires
        arguments.len() > 0,
    ensures
        read_all(unread(), spaced(arguments)) == behind(
            Splitting { arguments: arguments.drop_last(), ..unread() },
            arguments.last(),
        ),
    decreases arguments.len(),
{
    let last = arguments.last();
    if arguments.len() == 1 {
        quoted_reads_as(last, unread());
        assert(arguments.drop_last() =~= Seq::empty());
    } else {
        let before = arguments.drop_last();
        spaced_reads_as(before);
        let earlier = Splitting { arguments: before.drop_last(), ..unread() };
        let state = behind(earlier, before.last());
        quoted_reads_as(before.last(), earlier);
        read_all_joins(unread(), spaced(before), seq![SPACE]);
        read_one(state, SPACE);
        let next = Splitting { arguments: before, ..unread() };
        assert(before.drop_last().push(before.last()) =~= before);
        assert(read(state, SPACE) == next);
        read_all_joins(unread(), spaced(before) + seq![SPACE], quoted(last));
        quoted_reads_as(last, next);
    }
}

/// A process reads from its command line the arguments that it was given.
pub proof fn arguments_are_read_back(arguments: Seq<Seq<u16>>)
    requires
        arguments.len() > 0,
    ensures
        split_line(spaced(arguments)) == arguments,
{
    let state = Splitting { arguments: arguments.drop_last(), ..unread() };
    spaced_reads_as(arguments);
    quoted_reads_as(arguments.last(), state);
    assert(arguments.drop_last().push(arguments.last()) =~= arguments);
}

/// The units of each argument.
pub open spec fn units_of(arguments: Seq<Vec<u16>>) -> Seq<Seq<u16>> {
    arguments.map_values(|argument: Vec<u16>| argument@)
}

fn push_backslashes(line: &mut Vec<u16>, count: usize)
    ensures
        final(line)@ == old(line)@ + backslashes(count as nat),
{
    let ghost before = line@;
    assert(line@ =~= before + backslashes(0));
    for i in 0..count
        invariant
            line@ == before + backslashes(i as nat),
    {
        line.push(BACKSLASH);
        assert(line@ =~= before + backslashes((i + 1) as nat));
    }
}

/// Whether an argument has to stand in quotation marks.
fn is_quoted(argument: &Vec<u16>) -> (answer: bool)
    ensures
        answer == needs_quotes(argument@),
{
    for i in 0..argument.len()
        invariant
            forall|j: int|
                0 <= j < i ==> #[trigger] argument@[j] != SPACE && argument@[j] != TAB
                    && argument@[j] != QUOTE,
    {
        let unit = argument[i];
        assert(argument@.contains(argument@[i as int]));
        if unit == SPACE || unit == TAB || unit == QUOTE {
            return true;
        }
    }
    argument.len() == 0
}

/// Appends an argument as it stands in a command line.
fn push_quoted(line: &mut Vec<u16>, argument: &Vec<u16>)
    ensures
        final(line)@ == old(line)@ + quoted(argument@),
{
    let ghost before = line@;
    let marked = is_quoted(argument);
    let ghost mark: Seq<u16> = if marked {
        seq![QUOTE]
    } else {
        Seq::empty()
    };
    if marked {
        line.push(QUOTE);
    }
    let mut count: usize = 0;
    assert(line@ =~= before + mark + escaped(argument@.take(0)));
    for i in 0..argument.len()
        invariant
            count <= i,
            count == trailing(argument@.take(i as int)),
            line@ == before + mark + escaped(argument@.take(i as int)),
    {
        let unit = argument[i];
        let ghost longer = argument@.take(i + 1);
        assert(longer.drop_last() =~= argument@.take(i as int));
        assert(longer.last() == unit);
        let ghost start = line@;
        if unit == BACKSLASH {
            count += 1;
        } else {
            push_backslashes(line, count);
            if unit == QUOTE {
                push_backslashes(line, count);
                line.push(BACKSLASH);
                assert(line@ =~= start + backslashes(2 * count as nat + 1));
            }
            line.push(unit);
            count = 0;
            assert(line@ =~= before + mark + escaped(longer));
        }
    }
    assert(argument@.take(argument@.len() as int) =~= argument@);
    let ghost start = line@;
    push_backslashes(line, count);
    if marked {
        push_backslashes(line, count);
        assert(line@ =~= start + backslashes(2 * count as nat));
        line.push(QUOTE);
    }
    assert(line@ =~= before + quoted(argument@));
}

/// The command line for a program and its arguments, which ends in a zero
/// unit. A process splits it into just these arguments again.
pub fn command_line(arguments: &Vec<Vec<u16>>) -> (line: Vec<u16>)
    requires
        arguments@.len() > 0,
    ensures
        line@ == spaced(units_of(arguments@)).push(0),
        line@.last() == 0,
        split_line(line@.drop_last()) == units_of(arguments@),
{
    let ghost given = units_of(arguments@);
    let mut line: Vec<u16> = Vec::new();
    push_quoted(&mut line, &arguments[0]);
    assert(given.take(1)[0] == arguments@[0]@);
    assert(line@ =~= spaced(given.take(1)));
    for i in 1..arguments.len()
        invariant
            arguments@.len() > 0,
            given == units_of(arguments@),
            line@ == spaced(given.take(i as int)),
    {
        let ghost longer = given.take(i + 1);
        assert(longer.drop_last() =~= given.take(i as int));
        assert(longer.last() == arguments@[i as int]@);
        line.push(SPACE);
        push_quoted(&mut line, &arguments[i]);
        assert(line@ =~= spaced(longer));
    }
    assert(given.take(given.len() as int) =~= given);
    proof {
        arguments_are_read_back(given);
    }
    let ghost whole = line@;
    line.push(0);
    assert(line@.drop_last() =~= whole);
    line
}

/// How a process splits a command line, unit by unit. A backslash, 92, is kept
/// back. At a quotation mark, 34, each two of the backslashes kept back stand for
/// one; with one left over the mark is part of the argument, without it opens or
/// closes a quotation. At any other unit the backslashes stand for themselves,
/// and then a space, 32, or a tab, 9, outside a quotation ends the argument,
/// while any other unit is part of it.
pub proof fn a_process_splits_like_this(state: Splitting, unit: u16)
    ensures
        ({
            let next = read(state, unit);
            &&& unit == 92 ==> {
                &&& next.slashes == state.slashes + 1
                &&& next.current == state.current
                &&& next.arguments == state.arguments
                &&& next.open == state.open
                &&& next.begun
            }
            &&& unit == 34 ==> {
                &&& next.slashes == 0
                &&& next.arguments == state.arguments
                &&& next.begun
                &&& state.slashes % 2 == 0 ==> next.open == !state.open && next.current
                    == state.current + backslashes(state.slashes / 2)
                &&& state.slashes % 2 == 1 ==> next.open == state.open && next.current
                    == state.current + backslashes(state.slashes / 2) + seq![34u16]
            }
            &&& (unit == 32 || unit == 9) && !state.open && state.begun ==> {
                &&& next.arguments == state.arguments.push(
                    state.current + backslashes(state.slashes),
                )
                &&& next.current.len() == 0
                &&& next.slashes == 0
                &&& !next.begun
                &&& !next.open
            }
            &&& (unit == 32 || unit == 9) && !state.open && !state.begun ==> next == state
            &&& unit != 92 && unit != 34 && (state.open || (unit != 32 && unit != 9)) ==> {
                &&& next.arguments == state.arguments
                &&& next.current == state.current + backslashes(state.slashes) + seq![unit]
                &&& next.slashes == 0
                &&& next.begun
                &&& next.open == state.open
            }
        }),
        forall|count: nat, i: int| 0 <= i < count ==> #[trigger] backslashes(count)[i] == 92,
        forall|count: nat| #[trigger] backslashes(count).len() == count,
        ended(state) == (if state.begun {
            state.arguments.push(state.current + backslashes(state.slashes))
        } else {
            state.arguments
        }),
        unread().arguments.len() == 0 && unread().current.len() == 0 && unread().slashes == 0
            && !unread().begun && !unread().open,
{
    let current = state.current + backslashes(state.slashes / 2);
    assert(current.push(34u16) =~= current + seq![34u16]);
    let whole = state.current + backslashes(state.slashes);
    assert(whole.push(unit) =~= whole + seq![unit]);
}

/// A process splits a line unit by unit, from its start.
pub proof fn a_line_is_read_unit_by_unit(line: Seq<u16>, unit: u16)
    ensures
        split_line(line) == ended(read_all(unread(), line)),
        read_all(unread(), Seq::empty()) == unread(),
        read_all(unread(), line.push(unit)) == read(read_all(unread(), line), unit),
{
    assert(line.push(unit).drop_last() =~= line);
}

proof fn plain_units_stay(units: Seq<u16>)
    requires
        !units.contains(34),
    ensures
        escaped(units) + backslashes(trailing(units)) == units,
    decreases units.len(),
{
    if units.len() == 0 {
        assert(escaped(units) + backslashes(trailing(units)) =~= units);
    } else {
        let before = units.drop_last();
        let unit = units.last();
        assert(units.contains(unit));
        assert forall|i: int| 0 <= i < before.len() implies before[i] != 34 by {
            assert(units.contains(units[i]));
        }
        plain_units_stay(before);
        assert(before.push(unit) =~= units);
        if unit == BACKSLASH {
            assert(backslashes(trailing(units)) =~= backslashes(trailing(before)).push(unit));
            assert(escaped(units) + backslashes(trailing(units)) =~= (escaped(before) + backslashes(
                trailing(before),
            )).push(unit));
        } else {
            assert(escaped(units) + backslashes(0) =~= (escaped(before) + backslashes(
                trailing(before),
            )).push(unit));
        }
    }
}

/// Only an argument that is empty or that holds a space, a tab or a quotation
/// mark is put in quotation marks; any other one stands in the line as it is.
/// Arguments have one space between each two.
pub proof fn plain_arguments_stay_as_they_are(
    arguments: Seq<Seq<u16>>,
    units: Seq<u16>,
)
    ensures
        units.len() > 0 && !units.contains(32) && !units.contains(9) && !units.contains(34)
            ==> quoted(units) == units,
        units.len() == 0 || units.contains(32) || units.contains(9) || units.contains(34) ==> {
            &&& quoted(units).len() >= 2
            &&& quoted(units)[0] == 34
            &&& quoted(units).last() == 34
        },
        spaced(seq![units]) == quoted(units),
        arguments.len() > 0 ==> spaced(arguments.push(units)) == spaced(arguments) + seq![32u16]
            + quoted(units),
{
    if !units.contains(34) {
        plain_units_stay(units);
    }
    assert(arguments.push(units).drop_last() =~= arguments);
}

/// Arguments are told one by one.
pub proof fn units_are_told_one_by_one(arguments: Seq<Vec<u16>>, i: int)
    requires
        0 <= i < arguments.len(),
    ensures
        units_of(arguments).len() == arguments.len(),
        units_of(arguments)[i] == arguments[i]@,
{
}

} // verus!
