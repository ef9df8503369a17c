//! Carrying out a plan of fallible tasks: the first failure ends the work,
//! and every scope that was opened is still cleaned up.

use vstd::prelude::*;

verus! {

/// What a task is to the plan that it stands in.
#[derive(Clone, Copy, Debug, PartialEq, Eq, Structural)]
pub enum Role {
    /// Skipped once something failed.
    Work,
    /// Cleans up the scope that opens before the task at `opened`. It is
    /// carried out whenever that scope was opened, whatever failed since. The
    /// failure of one that is `held` waits for the cleanup that follows it.
    Cleanup { opened: usize, held: bool },
}

/// A task of a plan.
#[derive(Clone, Copy, Debug, PartialEq, Eq, Structural)]
pub struct Entry<T> {
    pub task: T,
    pub role: Role,
}

/// Whether the failure of a task waits for the cleanup that follows it.
pub open spec fn is_held(role: Role) -> bool {
    role matches Role::Cleanup { held, .. } && held
}

/// Whether the task at a position is carried out, given where the first
/// failure was: all work up to the failure, and the cleanup of every scope
/// that was opened by then.
pub open spec fn carried_out<T>(plan: Seq<Entry<T>>, failed: Option<int>, position: int) -> bool {
    match failed {
        None => true,
        Some(failure) => {
            ||| position <= failure
            ||| plan[position].role matches Role::Cleanup { opened, .. } && opened <= failure
        },
    }
}

/// The first position from `from` on whose task is carried out.
pub open spec fn next_position<T>(plan: Seq<Entry<T>>, failed: Option<int>, from: int) -> int
    decreases plan.len() - from,
{
    if from >= plan.len() {
        plan.len() as int
    } else if carried_out(plan, failed, from) {
        from
    } else {
        next_position(plan, failed, from + 1)
    }
}

/// Whether a plan can be carried out: a scope opens before its cleanup, and a
/// held cleanup is followed by another of the same scope that is not held.
pub open spec fn well_formed<T>(plan: Seq<Entry<T>>) -> bool {
    forall|i: int| 0 <= i < plan.len() ==> well_placed(plan, i)
}

/// Whether the entry at a position fits the plan around it.
pub open spec fn well_placed<T>(plan: Seq<Entry<T>>, position: int) -> bool {
    plan[position].role matches Role::Cleanup { opened, held } ==> {
        &&& opened <= position
        &&& held ==> {
            &&& position + 1 < plan.len()
            &&& plan[position + 1].role == Role::Cleanup { opened, held: false }
        }
    }
}

/// What becomes of failures when a task ends: the failure that stays primary,
/// the one that waits, and those to report now.
pub struct Settlement<E> {
    pub primary: Option<E>,
    pub waiting: Option<E>,
    pub reported: Seq<E>,
}

/// Takes a failure in: the first stays primary, a later one is reported.
pub open spec fn admitted<E>(primary: Option<E>, failure: E) -> Settlement<E> {
    match primary {
        None => Settlement { primary: Some(failure), waiting: None, reported: Seq::empty() },
        Some(first) => Settlement {
            primary: Some(first),
            waiting: None,
            reported: seq![failure],
        },
    }
}

/// What becomes of failures when a task ends. Of two failed cleanups of which
/// the first waited, the second is reported first.
pub open spec fn settled<E>(
    primary: Option<E>,
    waiting: Option<E>,
    role: Role,
    failure: Option<E>,
) -> Settlement<E> {
    if is_held(role) {
        Settlement { primary, waiting: failure, reported: Seq::empty() }
    } else {
        match (waiting, failure) {
            (None, None) => Settlement { primary, waiting: None, reported: Seq::empty() },
            (None, Some(error)) => admitted(primary, error),
            (Some(error), None) => admitted(primary, error),
            (Some(first), Some(second)) => {
                let rest = admitted(primary, first);
                Settlement {
                    primary: rest.primary,
                    waiting: None,
                    reported: seq![second] + rest.reported,
                }
            },
        }
    }
}

/// A plan being carried out.
pub struct Execution<T, E> {
    plan: Vec<Entry<T>>,
    position: usize,
    failed: Option<usize>,
    primary: Option<E>,
    waiting: Option<E>,
}

impl<T: Copy, E> Execution<T, E> {
    /// The plan.
    pub closed spec fn entries(self) -> Seq<Entry<T>> {
        self.plan@
    }

    /// The position of the task to carry out next; past the plan when none is left.
    pub closed spec fn at(self) -> int {
        self.position as int
    }

    /// Where the first failure was.
    pub closed spec fn failure(self) -> Option<int> {
        match self.failed {
            Some(failed) => Some(failed as int),
            None => None,
        }
    }

    /// The first failure.
    pub closed spec fn first(self) -> Option<E> {
        self.primary
    }

    /// A cleanup failure that waits for the cleanup that follows.
    pub closed spec fn kept(self) -> Option<E> {
        self.waiting
    }

    /// The invariant of an execution.
    pub open spec fn valid(self) -> bool {
        &&& well_formed(self.entries())
        &&& 0 <= self.at() <= self.entries().len()
        &&& self.at() < self.entries().len() ==> carried_out(
            self.entries(),
            self.failure(),
            self.at(),
        )
        &&& self.failure() is Some <==> self.first() is Some || self.kept() is Some
        &&& self.failure() matches Some(failed) ==> 0 <= failed < self.at()
        &&& self.kept() is Some ==> self.at() > 0 && is_held(self.entries()[self.at() - 1].role)
    }

    /// Starts to carry out a plan.
    pub fn new(plan: Vec<Entry<T>>) -> (execution: Execution<T, E>)
        requires
            well_formed(plan@),
        ensures
            execution.valid(),
            execution.entries() == plan@,
            execution.at() == 0,
            execution.failure() is None,
            execution.first() is None,
            execution.kept() is None,
    {
        Execution { plan, position: 0, failed: None, primary: None, waiting: None }
    }

    /// The task to carry out next.
    pub fn next(&self) -> (task: Option<T>)
        requires
            self.valid(),
        ensures
            task == (if self.at() < self.entries().len() {
                Some(self.entries()[self.at()].task)
            } else {
                None
            }),
    {
        if self.position < self.plan.len() {
            Some(self.plan[self.position].task)
        } else {
            None
        }
    }

    /// Takes the outcome of the task that `next` gave, and returns the
    /// failures to report now.
    pub fn answer(&mut self, outcome: Result<(), E>) -> (reported: Vec<E>)
        requires
            old(self).valid(),
            old(self).at() < old(self).entries().len(),
        ensures
            final(self).valid(),
            final(self).entries() == old(self).entries(),
            final(self).failure() == (if old(self).failure() is None && outcome is Err {
                Some(old(self).at())
            } else {
                old(self).failure()
            }),
            final(self).at() == next_position(
                old(self).entries(),
                final(self).failure(),
                old(self).at() + 1,
            ),
            (Settlement {
                primary: final(self).first(),
                waiting: final(self).kept(),
                reported: reported@,
            }) == settled(
                old(self).first(),
                old(self).kept(),
                old(self).entries()[old(self).at()].role,
                match outcome {
                    Ok(_) => None,
                    Err(error) => Some(error),
                },
            ),
            old(self).at() < final(self).at() <= old(self).entries().len(),
            forall|i: int|
                old(self).at() < i < final(self).at() ==> final(self).failure() is Some && match (
                #[trigger] old(self).entries()[i]).role {
                    Role::Work => true,
                    Role::Cleanup { opened, .. } => opened > final(self).failure()->0,
                },
            final(self).at() < old(self).entries().len() && final(self).failure() is Some ==> (
            old(self).entries()[final(self).at()].role matches Role::Cleanup { opened, .. } && opened
                <= final(self).failure()->0),
            old(self).entries()[old(self).at()].role matches Role::Cleanup { held: true, .. } ==> {
                &&& final(self).first() == old(self).first()
                &&& reported@.len() == 0
                &&& match outcome {
                    Ok(_) => final(self).kept() is None,
                    Err(error) => final(self).kept() == Some(error),
                }
            },
            !(old(self).entries()[old(self).at()].role matches Role::Cleanup { held: true, .. })
                ==> {
                &&& final(self).kept() is None
                &&& match (old(self).first(), old(self).kept(), outcome) {
                    (first, None, Ok(_)) => final(self).first() == first && reported@.len() == 0,
                    (None, None, Err(error)) => final(self).first() == Some(error)
                        && reported@.len() == 0,
                    (None, Some(error), Ok(_)) => final(self).first() == Some(error)
                        && reported@.len() == 0,
                    (None, Some(error), Err(later)) => final(self).first() == Some(error)
                        && reported@ =~= seq![later],
                    (Some(first), None, Err(error)) => final(self).first() == Some(first)
                        && reported@ =~= seq![error],
                    (Some(first), Some(error), Ok(_)) => final(self).first() == Some(first)
                        && reported@ =~= seq![error],
                    (Some(first), Some(error), Err(later)) => final(self).first() == Some(first)
                        && reported@ =~= seq![later, error],
                }
            },
    {
        let ghost given = outcome;
        let here = self.position;
        let role = self.plan[here].role;
        assert(well_placed(self.plan@, here as int));
        assert(here > 0 ==> well_placed(self.plan@, here - 1));
        let mut reported: Vec<E> = Vec::new();
        if self.failed.is_none() && outcome.is_err() {
            self.failed = Some(here);
        }
        let holds = match role {
            Role::Cleanup { held, .. } => held,
            Role::Work => false,
        };
        if holds {
            match outcome {
                Ok(_) => {
                    self.waiting = None;
                },
                Err(error) => {
                    self.waiting = Some(error);
                },
            }
        } else {
            if let Err(error) = outcome {
                if self.waiting.is_some() || self.primary.is_some() {
                    reported.push(error);
                } else {
                    self.primary = Some(error);
                }
            }
            let waited = self.waiting.take();
            if let Some(error) = waited {
                if self.primary.is_some() {
                    reported.push(error);
                } else {
                    self.primary = Some(error);
                }
            }
        }
        assert(here < self.plan.len());
        let ghost ended = settled(
            old(self).first(),
            old(self).kept(),
            role,
            match given {
                Ok(_) => None,
                Err(error) => Some(error),
            },
        );
        assert(reported@ =~= ended.reported);
        assert(self.first() == ended.primary && self.kept() == ended.waiting);
        assert(self.failure() is Some <==> self.first() is Some || self.kept() is Some);
        assert(self.kept() is Some ==> holds);
        let ghost changed = *self;
        let mut position: usize = here + 1;
        let ghost failure = self.failure();
        proof {
            if holds && self.waiting is Some {
                assert(carried_out(self.plan@, failure, here + 1));
            }
        }
        while position < self.plan.len() && !is_carried_out(&self.plan, &self.failed, position)
            invariant
                *self == changed,
                here < position <= self.plan@.len(),
                failure == (match self.failed {
                    Some(failed) => Some(failed as int),
                    None => None,
                }),
                next_position(self.plan@, failure, here + 1) == next_position(
                    self.plan@,
                    failure,
                    position as int,
                ),
            decreases self.plan@.len() - position,
        {
            position += 1;
        }
        assert(position < self.plan@.len() ==> carried_out(self.plan@, failure, position as int));
        proof {
            next_position_found(self.plan@, failure, here + 1);
            assert forall|i: int| here < i < position implies failure is Some && match (
            #[trigger] self.plan@[i]).role {
                Role::Work => true,
                Role::Cleanup { opened, .. } => opened > failure->0,
            } by {
                assert(!carried_out(self.plan@, failure, i));
            }
        }
        self.position = position;
        reported
    }

    /// How the plan ended: with its first failure, if there was one.
    pub fn outcome(self) -> (outcome: Result<(), E>)
        requires
            self.valid(),
            self.at() == self.entries().len(),
        ensures
            match outcome {
                Ok(_) => self.failure() is None,
                Err(error) => self.failure() is Some && self.first() == Some(error),
            },
    {
        assert(self.at() > 0 ==> well_placed(self.entries(), self.at() - 1));
        match self.primary {
            Some(error) => Err(error),
            None => Ok(()),
        }
    }
}

/// Whether the task at a position is carried out.
fn is_carried_out<T>(plan: &Vec<Entry<T>>, failed: &Option<usize>, position: usize) -> (answer:
    bool)
    requires
        position < plan@.len(),
    ensures
        answer == carried_out(
            plan@,
            match failed {
                Some(failed) => Some(*failed as int),
                None => None,
            },
            position as int,
        ),
{
    match failed {
        None => true,
        Some(failure) => {
            position <= *failure || match plan[position].role {
                Role::Cleanup { opened, .. } => opened <= *failure,
                Role::Work => false,
            }
        },
    }
}

proof fn next_position_found<T>(plan: Seq<Entry<T>>, failed: Option<int>, from: int)
    requires
        0 <= from <= plan.len(),
    ensures
        from <= next_position(plan, failed, from) <= plan.len(),
        next_position(plan, failed, from) < plan.len() ==> carried_out(
            plan,
            failed,
            next_position(plan, failed, from),
        ),
        forall|i: int|
            from <= i < next_position(plan, failed, from) ==> !#[trigger] carried_out(
                plan,
                failed,
                i,
            ),
    decreases plan.len() - from,
{
    if from < plan.len() && !carried_out(plan, failed, from) {
        next_position_found(plan, failed, from + 1);
    }
}

/// Where the first failure is once the task at a position ended.
pub open spec fn failure_after(failed: Option<int>, position: int, fails: bool) -> Option<int> {
    if failed is None && fails {
        Some(position)
    } else {
        failed
    }
}

/// The positions whose tasks an execution carries out from a position on, in
/// order, where `fails` says which tasks fail when they are carried out.
pub open spec fn walk<T>(
    plan: Seq<Entry<T>>,
    fails: spec_fn(int) -> bool,
    position: int,
    failed: Option<int>,
) -> Seq<int>
    decreases plan.len() - position,
    via walk_ends::<T>
{
    if position < 0 || position >= plan.len() {
        Seq::empty()
    } else {
        let after = failure_after(failed, position, fails(position));
        let next = next_position(plan, after, position + 1);
        seq![position] + walk(plan, fails, next, after)
    }
}

#[via_fn]
proof fn walk_ends<T>(
    plan: Seq<Entry<T>>,
    fails: spec_fn(int) -> bool,
    position: int,
    failed: Option<int>,
) {
    if 0 <= position < plan.len() {
        next_position_found(plan, failure_after(failed, position, fails(position)), position + 1);
    }
}

/// The first position from `from` on whose task fails.
pub open spec fn first_failure(fails: spec_fn(int) -> bool, from: int, len: int) -> Option<int>
    decreases len - from,
{
    if from >= len {
        None
    } else if fails(from) {
        Some(from)
    } else {
        first_failure(fails, from + 1, len)
    }
}

/// Where the first failure of an execution is, given where it stands.
pub open spec fn failure_of(
    fails: spec_fn(int) -> bool,
    position: int,
    failed: Option<int>,
    len: int,
) -> Option<int> {
    if failed is Some {
        failed
    } else {
        first_failure(fails, position, len)
    }
}

/// The first failure is the least position whose task fails.
pub proof fn first_failure_found(fails: spec_fn(int) -> bool, from: int, len: int)
    ensures
        match first_failure(fails, from, len) {
            Some(failure) => {
                &&& from <= failure < len
                &&& fails(failure)
                &&& forall|i: int| from <= i < failure ==> !#[trigger] fails(i)
            },
            None => forall|i: int| from <= i < len ==> !#[trigger] fails(i),
        },
    decreases len - from,
{
    if from < len && !fails(from) {
        first_failure_found(fails, from + 1, len);
    }
}

proof fn walk_is_exact<T>(
    plan: Seq<Entry<T>>,
    fails: spec_fn(int) -> bool,
    position: int,
    failed: Option<int>,
)
    requires
        0 <= position <= plan.len(),
        failed matches Some(failure) ==> failure < position,
    ensures
        ({
            let steps = walk(plan, fails, position, failed);
            let failure = failure_of(fails, position, failed, plan.len() as int);
            &&& position < plan.len() ==> steps.len() > 0 && steps[0] == position
            &&& forall|i: int|
                position < i < plan.len() ==> (steps.contains(i) <==> #[trigger] carried_out(
                    plan,
                    failure,
                    i,
                ))
            &&& forall|k: int| 0 <= k < steps.len() ==> position <= #[trigger] steps[k] < plan.len()
            &&& forall|k: int, l: int| 0 <= k < l < steps.len() ==> steps[k] < steps[l]
        }),
    decreases plan.len() - position,
{
    if position < plan.len() {
        let after = failure_after(failed, position, fails(position));
        let next = next_position(plan, after, position + 1);
        next_position_found(plan, after, position + 1);
        walk_is_exact(plan, fails, next, after);
        let rest = walk(plan, fails, next, after);
        let steps = walk(plan, fails, position, failed);
        let failure = failure_of(fails, position, failed, plan.len() as int);
        first_failure_found(fails, position, plan.len() as int);
        assert(steps =~= seq![position] + rest);
        assert(failure == failure_of(fails, next, after, plan.len() as int));
        assert forall|i: int| position < i < plan.len() implies (steps.contains(i)
            <==> #[trigger] carried_out(plan, failure, i)) by {
            if steps.contains(i) {
                let k = choose|k: int| 0 <= k < steps.len() && steps[k] == i;
                assert(rest[k - 1] == i);
                assert(rest.contains(i));
                if i == next {
                    assert(carried_out(plan, after, i));
                }
            }
            if carried_out(plan, failure, i) {
                if i < next {
                    assert(!carried_out(plan, after, i));
                } else if i == next {
                    assert(rest[0] == i);
                    assert(steps[1] == i);
                } else {
                    assert(rest.contains(i));
                    let k = choose|k: int| 0 <= k < rest.len() && rest[k] == i;
                    assert(steps[k + 1] == i);
                }
            }
        }
        assert forall|k: int| 0 <= k < steps.len() implies position <= #[trigger] steps[k]
            < plan.len() by {
            if k > 0 {
                assert(steps[k] == rest[k - 1]);
            }
        }
        assert forall|k: int, l: int| 0 <= k < l < steps.len() implies steps[k] < steps[l] by {
            assert(steps[l] == rest[l - 1]);
            if k > 0 {
                assert(steps[k] == rest[k - 1]);
            }
        }
    }
}

/// An execution carries out each task at most once and in the order of the
/// plan: all tasks where none fails; else those up to the first failure, and
/// the cleanup of every scope opened by then.
pub proof fn execution_follows_the_plan<T>(plan: Seq<Entry<T>>, fails: spec_fn(int) -> bool)
    ensures
        ({
            let steps = walk(plan, fails, 0, None);
            let failure = first_failure(fails, 0, plan.len() as int);
            &&& forall|i: int|
                0 <= i < plan.len() ==> (steps.contains(i) <==> #[trigger] carried_out(
                    plan,
                    failure,
                    i,
                ))
            &&& forall|k: int| 0 <= k < steps.len() ==> 0 <= #[trigger] steps[k] < plan.len()
            &&& forall|k: int, l: int| 0 <= k < l < steps.len() ==> steps[k] < steps[l]
        }),
{
    walk_is_exact(plan, fails, 0, None);
    let steps = walk(plan, fails, 0, None);
    let failure = first_failure(fails, 0, plan.len() as int);
    first_failure_found(fails, 0, plan.len() as int);
    assert forall|i: int| 0 <= i < plan.len() implies (steps.contains(i) <==> #[trigger] carried_out(
        plan,
        failure,
        i,
    )) by {
        if i == 0 {
            assert(steps[0] == 0);
        }
    }
}

/// A scope that was opened is cleaned up whatever fails, and one that was not
/// opened is not: its cleanup is carried out exactly where no task failed
/// before the scope opened.
pub proof fn opened_scopes_are_cleaned_up<T>(
    plan: Seq<Entry<T>>,
    fails: spec_fn(int) -> bool,
    cleanup: int,
    opened: usize,
    held: bool,
)
    requires
        well_formed(plan),
        0 <= cleanup < plan.len(),
        plan[cleanup].role == (Role::Cleanup { opened, held }),
    ensures
        walk(plan, fails, 0, None).contains(cleanup) <==> (forall|i: int|
            0 <= i < opened ==> !#[trigger] fails(i)),
{
    execution_follows_the_plan(plan, fails);
    first_failure_found(fails, 0, plan.len() as int);
    assert(well_placed(plan, cleanup));
    let failure = first_failure(fails, 0, plan.len() as int);
    assert(walk(plan, fails, 0, None).contains(cleanup) <==> carried_out(plan, failure, cleanup));
}

/// Work is done exactly as long as nothing failed before it.
pub proof fn work_ends_with_the_first_failure<T>(
    plan: Seq<Entry<T>>,
    fails: spec_fn(int) -> bool,
    position: int,
)
    requires
        0 <= position < plan.len(),
        plan[position].role == Role::Work,
    ensures
        walk(plan, fails, 0, None).contains(position) <==> (forall|i: int|
            0 <= i < position ==> !#[trigger] fails(i)),
{
    execution_follows_the_plan(plan, fails);
    first_failure_found(fails, 0, plan.len() as int);
    let failure = first_failure(fails, 0, plan.len() as int);
    assert(walk(plan, fails, 0, None).contains(position) <==> carried_out(plan, failure, position));
}

/// How many failures there are in an option.
pub open spec fn tally<E>(failure: Option<E>) -> nat {
    if failure is Some {
        1
    } else {
        0
    }
}

/// The first failure stays the primary one, and no failure is lost: each is
/// the primary one, waits, or is reported.
pub proof fn no_failure_is_lost<E>(
    primary: Option<E>,
    waiting: Option<E>,
    role: Role,
    failure: Option<E>,
)
    requires
        is_held(role) ==> waiting is None,
    ensures
        ({
            let end = settled(primary, waiting, role, failure);
            &&& primary is Some ==> end.primary == primary
            &&& primary is None && waiting is Some ==> end.primary == waiting
            &&& primary is None && waiting is None && failure is Some ==> end.primary == failure
                || end.waiting == failure
            &&& tally(end.primary) + tally(end.waiting) + end.reported.len() == tally(primary)
                + tally(waiting) + tally(failure)
        }),
{
}

} // verus!
