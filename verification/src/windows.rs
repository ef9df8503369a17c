//! What starting a process on Windows decides: its environment, its
//! executable, and how long it is waited for.

use vstd::prelude::*;

verus! {

/// An environment variable in UTF-16. Names that differ only in case, as
/// Windows compares them, have the same rank, and ranks order names as Windows
/// does.
#[derive(Clone, Debug)]
pub struct Variable {
    pub name: Vec<u16>,
    pub value: Vec<u16>,
    pub rank: usize,
}

/// A variable as its units.
pub struct Definition {
    pub name: Seq<u16>,
    pub value: Seq<u16>,
    pub rank: int,
}

impl View for Variable {
    type V = Definition;

    open spec fn view(&self) -> Definition {
        Definition { name: self.name@, value: self.value@, rank: self.rank as int }
    }
}

/// The variables of a list.
pub open spec fn definitions(variables: Seq<Variable>) -> Seq<Definition> {
    variables.map_values(|variable: Variable| variable@)
}

/// The variables but those with a rank.
pub open spec fn without_rank(variables: Seq<Definition>, rank: int) -> Seq<Definition>
    decreases variables.len(),
{
    if variables.len() == 0 {
        Seq::empty()
    } else {
        let before = without_rank(variables.drop_last(), rank);
        if variables.last().rank == rank {
            before
        } else {
            before.push(variables.last())
        }
    }
}

/// The variables with others put in: each takes the place of those that have
/// its name.
pub open spec fn merged(existing: Seq<Definition>, overrides: Seq<Definition>) -> Seq<Definition>
    decreases overrides.len(),
{
    if overrides.len() == 0 {
        existing
    } else {
        let last = overrides.last();
        without_rank(merged(existing, overrides.drop_last()), last.rank).push(last)
    }
}

/// A variable put behind all that do not come after it.
pub open spec fn placed(variables: Seq<Definition>, variable: Definition) -> Seq<Definition>
    decreases variables.len(),
{
    if variables.len() == 0 || variables.last().rank <= variable.rank {
        variables.push(variable)
    } else {
        placed(variables.drop_last(), variable).push(variables.last())
    }
}

/// The variables in the order of their ranks; equal ones keep their order.
pub open spec fn arranged(variables: Seq<Definition>) -> Seq<Definition>
    decreases variables.len(),
{
    if variables.len() == 0 {
        Seq::empty()
    } else {
        placed(arranged(variables.drop_last()), variables.last())
    }
}

/// The variables as a process is given them: each as `name=value` and a zero
/// unit.
pub open spec fn block(variables: Seq<Definition>) -> Seq<u16>
    decreases variables.len(),
{
    if variables.len() == 0 {
        Seq::empty()
    } else {
        block(variables.drop_last()) + variables.last().name + seq![61u16]
            + variables.last().value + seq![0u16]
    }
}

fn append(units: &mut Vec<u16>, more: &Vec<u16>)
    ensures
        final(units)@ == old(units)@ + more@,
{
    let ghost before = units@;
    assert(units@ =~= before + more@.take(0));
    for i in 0..more.len()
        invariant
            units@ == before + more@.take(i as int),
    {
        units.push(more[i]);
        assert(units@ =~= before + more@.take(i + 1));
    }
    assert(more@.take(more@.len() as int) =~= more@);
}

fn copy(variable: &Variable) -> (copy: Variable)
    ensures
        copy@ == variable@,
{
    let mut name: Vec<u16> = Vec::new();
    append(&mut name, &variable.name);
    let mut value: Vec<u16> = Vec::new();
    append(&mut value, &variable.value);
    assert(name@ =~= variable.name@);
    assert(value@ =~= variable.value@);
    Variable { name, value, rank: variable.rank }
}

fn override_variable(variables: &Vec<Variable>, variable: &Variable) -> (changed: Vec<Variable>)
    ensures
        definitions(changed@) == without_rank(definitions(variables@), variable@.rank).push(
            variable@,
        ),
{
    let mut changed: Vec<Variable> = Vec::new();
    let ghost given = definitions(variables@);
    assert(definitions(changed@) =~= without_rank(given.take(0), variable@.rank));
    for i in 0..variables.len()
        invariant
            given == definitions(variables@),
            definitions(changed@) == without_rank(given.take(i as int), variable@.rank),
    {
        let ghost longer = given.take(i + 1);
        let ghost before = definitions(changed@);
        assert(longer.drop_last() =~= given.take(i as int));
        assert(longer.last() == variables@[i as int]@);
        if variables[i].rank != variable.rank {
            changed.push(copy(&variables[i]));
            assert(definitions(changed@) =~= before.push(variables@[i as int]@));
        }
    }
    assert(given.take(given.len() as int) =~= given);
    let ghost before = definitions(changed@);
    changed.push(copy(variable));
    assert(definitions(changed@) =~= before.push(variable@));
    changed
}

proof fn placed_is_inserted(variables: Seq<Definition>, variable: Definition, position: int)
    requires
        0 <= position <= variables.len(),
        forall|i: int| position <= i < variables.len() ==> (#[trigger] variables[i]).rank
            > variable.rank,
        position > 0 ==> variables[position - 1].rank <= variable.rank,
    ensures
        placed(variables, variable) == variables.insert(position, variable),
    decreases variables.len(),
{
    if position == variables.len() {
        assert(placed(variables, variable) =~= variables.insert(position, variable));
    } else {
        let before = variables.drop_last();
        assert(variables[variables.len() - 1].rank > variable.rank);
        assert forall|i: int| position <= i < before.len() implies (#[trigger] before[i]).rank
            > variable.rank by {
            assert(before[i] == variables[i]);
        }
        placed_is_inserted(before, variable, position);
        assert(placed(variables, variable) =~= variables.insert(position, variable));
    }
}

fn place(variables: &mut Vec<Variable>, variable: Variable)
    ensures
        definitions(final(variables)@) == placed(definitions(old(variables)@), variable@),
{
    let ghost given = definitions(variables@);
    let mut position: usize = variables.len();
    while position > 0 && variables[position - 1].rank > variable.rank
        invariant
            given == definitions(variables@),
            position <= variables@.len(),
            forall|i: int| position <= i < given.len() ==> (#[trigger] given[i]).rank
                > variable@.rank,
        decreases position,
    {
        position -= 1;
        assert(given[position as int] == variables@[position as int]@);
    }
    proof {
        if position > 0 {
            assert(given[position - 1] == variables@[position - 1]@);
        }
        placed_is_inserted(given, variable@, position as int);
    }
    variables.insert(position, variable);
    assert(definitions(variables@) =~= given.insert(position as int, variable@));
}

/// The environment of a process: its parent's where nothing is overridden,
/// else the variables with the overrides put in, in the order of their names.
pub fn environment_block(existing: &Vec<Variable>, overrides: &Vec<Variable>) -> (environment:
    Option<Vec<u16>>)
    ensures
        match environment {
            None => overrides@.len() == 0,
            Some(units) => overrides@.len() > 0 && units@ == block(
                arranged(merged(definitions(existing@), definitions(overrides@))),
            ).push(0),
        },
        environment is None <==> overrides@.len() == 0,
{
    if overrides.len() == 0 {
        return None;
    }
    let ghost own = definitions(existing@);
    let ghost given = definitions(overrides@);
    let mut variables: Vec<Variable> = Vec::new();
    for i in 0..existing.len()
        invariant
            definitions(variables@) == definitions(existing@).take(i as int),
    {
        let ghost before = definitions(variables@);
        variables.push(copy(&existing[i]));
        assert(definitions(variables@) =~= before.push(existing@[i as int]@));
        assert(definitions(variables@) =~= definitions(existing@).take(i + 1));
    }
    assert(own.take(own.len() as int) =~= own);
    assert(definitions(variables@) =~= merged(own, given.take(0)));
    for i in 0..overrides.len()
        invariant
            given == definitions(overrides@),
            definitions(variables@) == merged(own, given.take(i as int)),
    {
        let ghost longer = given.take(i + 1);
        assert(longer.drop_last() =~= given.take(i as int));
        assert(longer.last() == overrides@[i as int]@);
        variables = override_variable(&variables, &overrides[i]);
    }
    assert(given.take(given.len() as int) =~= given);
    let ghost all = definitions(variables@);
    let mut sorted: Vec<Variable> = Vec::new();
    assert(definitions(sorted@) =~= arranged(all.take(0)));
    for i in 0..variables.len()
        invariant
            all == definitions(variables@),
            definitions(sorted@) == arranged(all.take(i as int)),
    {
        let ghost longer = all.take(i + 1);
        assert(longer.drop_last() =~= all.take(i as int));
        assert(longer.last() == variables@[i as int]@);
        place(&mut sorted, copy(&variables[i]));
    }
    assert(all.take(all.len() as int) =~= all);
    let ghost row = definitions(sorted@);
    let mut units: Vec<u16> = Vec::new();
    assert(units@ =~= block(row.take(0)));
    for i in 0..sorted.len()
        invariant
            row == definitions(sorted@),
            units@ == block(row.take(i as int)),
    {
        let ghost longer = row.take(i + 1);
        assert(longer.drop_last() =~= row.take(i as int));
        assert(longer.last() == sorted@[i as int]@);
        append(&mut units, &sorted[i].name);
        units.push(61);
        append(&mut units, &sorted[i].value);
        units.push(0);
        assert(units@ =~= block(longer));
    }
    assert(row.take(row.len() as int) =~= row);
    units.push(0);
    Some(units)
}

/// Whether variables stand in the order of their ranks.
pub open spec fn ordered(variables: Seq<Definition>) -> bool {
    forall|i: int, j: int|
        0 <= i <= j < variables.len() ==> (#[trigger] variables[i]).rank <= (
        #[trigger] variables[j]).rank
}

proof fn placed_keeps_order(variables: Seq<Definition>, variable: Definition)
    requires
        ordered(variables),
    ensures
        ordered(placed(variables, variable)),
        placed(variables, variable).to_multiset() == variables.to_multiset().insert(variable),
        placed(variables, variable).last().rank == if variables.len() > 0 && variables.last().rank
            > variable.rank {
            variables.last().rank
        } else {
            variable.rank
        },
    decreases variables.len(),
{
    broadcast use vstd::seq_lib::group_to_multiset_ensures;

    let after = placed(variables, variable);
    if variables.len() == 0 || variables.last().rank <= variable.rank {
        assert forall|i: int, j: int| 0 <= i <= j < after.len() implies (#[trigger] after[i]).rank
            <= (#[trigger] after[j]).rank by {
            if j == variables.len() && i < j {
                assert(variables[i].rank <= variables[variables.len() - 1].rank);
            }
        }
    } else {
        let before = variables.drop_last();
        assert forall|i: int, j: int| 0 <= i <= j < before.len() implies (#[trigger] before[i]).rank
            <= (#[trigger] before[j]).rank by {
            assert(variables[i].rank <= variables[j].rank);
        }
        placed_keeps_order(before, variable);
        let inner = placed(before, variable);
        assert forall|i: int, j: int| 0 <= i <= j < after.len() implies (#[trigger] after[i]).rank
            <= (#[trigger] after[j]).rank by {
            if j < inner.len() {
                assert(inner[i].rank <= inner[j].rank);
            } else if i < inner.len() {
                assert(inner[i].rank <= inner[inner.len() - 1].rank);
                if before.len() > 0 {
                    assert(variables[before.len() - 1].rank <= variables[variables.len() - 1].rank);
                }
            }
        }
        assert(before.push(variables.last()) =~= variables);
        assert(after.to_multiset() =~= variables.to_multiset().insert(variable));
    }
}

/// Arranging loses and adds nothing, and puts the variables in order.
pub proof fn arranged_is_ordered(variables: Seq<Definition>)
    ensures
        ordered(arranged(variables)),
        arranged(variables).to_multiset() == variables.to_multiset(),
    decreases variables.len(),
{
    broadcast use vstd::seq_lib::group_to_multiset_ensures;

    if variables.len() > 0 {
        let before = variables.drop_last();
        arranged_is_ordered(before);
        placed_keeps_order(arranged(before), variables.last());
        assert(before.push(variables.last()) =~= variables);
    } else {
        assert(arranged(variables) =~= variables);
    }
}

proof fn without_rank_holds(variables: Seq<Definition>, rank: int, variable: Definition)
    ensures
        without_rank(variables, rank).contains(variable) <==> variables.contains(variable)
            && variable.rank != rank,
    decreases variables.len(),
{
    if variables.len() > 0 {
        let before = variables.drop_last();
        let kept = without_rank(before, rank);
        without_rank_holds(before, rank, variable);
        assert(before.push(variables.last()) =~= variables);
        pushed_contains(before, variables.last(), variable);
        pushed_contains(kept, variables.last(), variable);
    }
}

proof fn pushed_contains(variables: Seq<Definition>, last: Definition, variable: Definition)
    ensures
        variables.push(last).contains(variable) <==> variables.contains(variable) || variable
            == last,
{
    let longer = variables.push(last);
    if variables.contains(variable) {
        let i = choose|i: int| 0 <= i < variables.len() && variables[i] == variable;
        assert(longer[i] == variable);
    }
    assert(longer[variables.len() as int] == last);
}

/// An override wins over the variables of the parent and over the overrides
/// before it, and what is not overridden stays.
pub proof fn overrides_win(
    existing: Seq<Definition>,
    overrides: Seq<Definition>,
    variable: Definition,
)
    ensures
        merged(existing, overrides).contains(variable) <==> {
            ||| exists|i: int|
                0 <= i < overrides.len() && #[trigger] overrides[i] == variable && (forall|j: int|
                    i < j < overrides.len() ==> (#[trigger] overrides[j]).rank != variable.rank)
            ||| existing.contains(variable) && (forall|j: int|
                0 <= j < overrides.len() ==> (#[trigger] overrides[j]).rank != variable.rank)
        },
    decreases overrides.len(),
{
    if overrides.len() > 0 {
        let before = overrides.drop_last();
        let last = overrides.last();
        let earlier = merged(existing, before);
        overrides_win(existing, before, variable);
        without_rank_holds(earlier, last.rank, variable);
        pushed_contains(without_rank(earlier, last.rank), last, variable);
        assert(forall|j: int| 0 <= j < before.len() ==> before[j] == #[trigger] overrides[j]);
        assert(forall|j: int| 0 <= j < before.len() ==> #[trigger] before[j] == overrides[j]);
        assert(overrides[overrides.len() - 1] == last);
    }
}

/// A process is given its variables one behind the other, each as its name, an
/// equals sign, its value and a zero unit.
pub proof fn every_variable_ends_in_a_zero(variables: Seq<Definition>, variable: Definition)
    ensures
        block(Seq::empty()) == Seq::<u16>::empty(),
        block(variables.push(variable)) == block(variables) + variable.name + seq![61u16]
            + variable.value + seq![0u16],
{
    assert(variables.push(variable).drop_last() =~= variables);
}

proof fn placed_stands_behind_its_equals(
    variables: Seq<Definition>,
    variable: Definition,
) -> (position: int)
    requires
        ordered(variables),
    ensures
        0 <= position <= variables.len(),
        placed(variables, variable) == variables.insert(position, variable),
        forall|i: int| 0 <= i < position ==> (#[trigger] variables[i]).rank <= variable.rank,
        forall|i: int| position <= i < variables.len() ==> (#[trigger] variables[i]).rank
            > variable.rank,
    decreases variables.len(),
{
    if variables.len() == 0 || variables.last().rank <= variable.rank {
        assert forall|i: int| 0 <= i < variables.len() implies (#[trigger] variables[i]).rank
            <= variable.rank by {
            assert(variables[i].rank <= variables[variables.len() - 1].rank);
        }
        assert(variables.push(variable) =~= variables.insert(variables.len() as int, variable));
        variables.len() as int
    } else {
        let before = variables.drop_last();
        assert forall|i: int, j: int| 0 <= i <= j < before.len() implies (#[trigger] before[i]).rank
            <= (#[trigger] before[j]).rank by {
            assert(variables[i].rank <= variables[j].rank);
        }
        let position = placed_stands_behind_its_equals(before, variable);
        assert forall|i: int| position <= i < variables.len() implies (
        #[trigger] variables[i]).rank > variable.rank by {
            if i < before.len() {
                assert(before[i] == variables[i]);
            }
        }
        assert forall|i: int| 0 <= i < position implies (#[trigger] variables[i]).rank
            <= variable.rank by {
            assert(before[i] == variables[i]);
        }
        assert(before.insert(position, variable).push(variables.last()) =~= variables.insert(
            position,
            variable,
        ));
        position
    }
}

/// Arranging one more variable puts it behind all that do not come after it and
/// before all others, which keep their order.
pub proof fn arranging_is_stable(variables: Seq<Definition>, variable: Definition) -> (position: int)
    ensures
        0 <= position <= arranged(variables).len(),
        arranged(variables.push(variable)) == arranged(variables).insert(position, variable),
        forall|i: int| 0 <= i < position ==> (#[trigger] arranged(variables)[i]).rank
            <= variable.rank,
        forall|i: int| position <= i < arranged(variables).len() ==> (
        #[trigger] arranged(variables)[i]).rank > variable.rank,
{
    arranged_is_ordered(variables);
    assert(variables.push(variable).drop_last() =~= variables);
    placed_stands_behind_its_equals(arranged(variables), variable)
}

/// Variables are told one by one, each with its name, its value and its rank.
pub proof fn variables_are_told_one_by_one(variables: Seq<Variable>, i: int)
    requires
        0 <= i < variables.len(),
    ensures
        definitions(variables).len() == variables.len(),
        definitions(variables)[i].name == variables[i].name@,
        definitions(variables)[i].value == variables[i].value@,
        definitions(variables)[i].rank == variables[i].rank,
{
}

proof fn without_rank_filters(variables: Seq<Definition>, rank: int)
    ensures
        without_rank(variables, rank) == variables.filter(
            |variable: Definition| variable.rank != rank,
        ),
    decreases variables.len(),
{
    reveal(Seq::filter);
    if variables.len() > 0 {
        without_rank_filters(variables.drop_last(), rank);
    }
}

/// An override goes behind the variables, and those with its name leave; all
/// others stay in their order. Without overrides nothing changes.
pub proof fn an_override_replaces_its_name(
    existing: Seq<Definition>,
    overrides: Seq<Definition>,
    variable: Definition,
)
    ensures
        merged(existing, Seq::empty()) == existing,
        merged(existing, overrides.push(variable)) == merged(existing, overrides).filter(
            |other: Definition| other.rank != variable.rank,
        ).push(variable),
{
    assert(overrides.push(variable).drop_last() =~= overrides);
    without_rank_filters(merged(existing, overrides), variable.rank);
}

} // verus!
