//! The behaviour automaton of recorded traffic: phases of similar packet sizes and
//! how often one follows another.
use crate::float_bits::single_is_nan;
use crate::mask::{
    law_steps_follow_transitions, state_models, step, transitions_of, FSMState, FSMTransition,
    State, Transition, TransitionCondition,
};
use crate::single::{
    distance, law_distance_to_itself, law_root_is_not_negative, less, of_int, over, plus, times,
    zero, Single,
};
use crate::stats::{
    deviation, law_share_is_a_fraction, mean, mean_between, share, share_of, squared_distances,
    std_dev_u16,
};
use vstd::prelude::*;

verus! {

/// The number of packets on either side of a possible change.
pub const WINDOW: usize = 20;

/// The distance between the mean sizes before and after a position.
pub open spec fn shift_at(sizes: Seq<u16>, i: int) -> Single {
    distance(
        mean(sizes.subrange(i - WINDOW, i)),
        mean(sizes.subrange(i, i + WINDOW)),
    )
}

/// The shift above which a position counts as a change: two standard deviations.
pub open spec fn shift_limit(sizes: Seq<u16>) -> Single {
    times(of_int(2), deviation(sizes))
}

/// The positions from [`WINDOW`] up to `n` at which the mean size changes, each
/// more than ten behind the one before it.
pub open spec fn changes_below(sizes: Seq<u16>, n: nat) -> Seq<usize>
    decreases n,
{
    if n <= WINDOW {
        Seq::empty()
    } else {
        let i = n - 1;
        let before = changes_below(sizes, i as nat);
        if less(shift_limit(sizes), shift_at(sizes, i)) && (before.len() == 0 || i - before.last()
            > 10) {
            before.push(i as usize)
        } else {
            before
        }
    }
}

/// The positions at which the mean size changes.
pub open spec fn changes(sizes: Seq<u16>) -> Seq<usize> {
    changes_below(sizes, (sizes.len() - WINDOW) as nat)
}

/// The start of a phase.
pub open spec fn phase_start(sizes: Seq<u16>, k: int) -> int {
    if k == 0 {
        0
    } else {
        changes(sizes)[k - 1] as int
    }
}

/// The end of a phase.
pub open spec fn phase_end(sizes: Seq<u16>, k: int) -> int {
    if k == changes(sizes).len() {
        sizes.len() as int
    } else {
        changes(sizes)[k] as int
    }
}

/// The mean sizes of the phases: the stretches between the changes.
pub open spec fn phase_means(sizes: Seq<u16>) -> Seq<Single> {
    Seq::new(
        changes(sizes).len() + 1,
        |k: int| mean(sizes.subrange(phase_start(sizes, k), phase_end(sizes, k))),
    )
}

/// The sum of the means of a group of phases.
pub open spec fn sum_of_means(group: Seq<usize>, means: Seq<Single>) -> Single
    decreases group.len(),
{
    if group.len() == 0 {
        zero()
    } else {
        plus(sum_of_means(group.drop_last(), means), means[group.last() as int])
    }
}

/// The mean of a group of phases.
pub open spec fn group_mean(group: Seq<usize>, means: Seq<Single>) -> Single {
    over(sum_of_means(group, means), of_int(group.len()))
}

/// A mean lies less than a hundred bytes from the mean of a group.
pub open spec fn is_near(group: Seq<usize>, means: Seq<Single>, m: Single) -> bool {
    less(distance(m, group_mean(group, means)), of_int(100))
}

/// The first group from the `k`-th on that a mean is near to; the number of groups
/// where there is none.
pub open spec fn near_group(groups: Seq<Seq<usize>>, means: Seq<Single>, m: Single, k: nat) -> nat
    decreases groups.len() - k,
{
    if k >= groups.len() {
        groups.len()
    } else if is_near(groups[k as int], means, m) {
        k
    } else {
        near_group(groups, means, m, k + 1)
    }
}

/// The groups of the first `n` phases: each phase joins the first group that it is
/// near to, or starts a new one.
pub open spec fn groups_of(means: Seq<Single>, n: nat) -> Seq<Seq<usize>>
    decreases n,
{
    if n == 0 {
        Seq::empty()
    } else {
        let i = (n - 1) as nat;
        let before = groups_of(means, i);
        let k = near_group(before, means, means[i as int], 0);
        if k < before.len() {
            before.update(k as int, before[k as int].push(i as usize))
        } else {
            before.push(seq![i as usize])
        }
    }
}

/// The largest number of states.
pub const MAX_STATES: usize = 8;

/// The groups that become states: the first eight.
pub open spec fn kept_groups(means: Seq<Single>) -> Seq<Seq<usize>> {
    let groups = groups_of(means, means.len());
    if groups.len() > MAX_STATES {
        groups.take(MAX_STATES as int)
    } else {
        groups
    }
}

/// The first group from the `k`-th on that holds a phase; zero where none does.
pub open spec fn group_with(groups: Seq<Seq<usize>>, phase: usize, k: nat) -> nat
    decreases groups.len() - k,
{
    if k >= groups.len() {
        0
    } else if groups[k as int].contains(phase) {
        k
    } else {
        group_with(groups, phase, k + 1)
    }
}

/// The first entry of a tally from the `k`-th on for a state; the number of entries
/// where there is none.
pub open spec fn entry_for(tally: Seq<(u16, nat)>, state: u16, k: nat) -> nat
    decreases tally.len() - k,
{
    if k >= tally.len() {
        tally.len()
    } else if tally[k as int].0 == state {
        k
    } else {
        entry_for(tally, state, k + 1)
    }
}

/// A tally with one more step to a state.
pub open spec fn tallied(tally: Seq<(u16, nat)>, state: u16) -> Seq<(u16, nat)> {
    let k = entry_for(tally, state, 0);
    if k < tally.len() {
        tally.update(k as int, (state, tally[k as int].1 + 1))
    } else {
        tally.push((state, 1))
    }
}

/// The steps between the first `n + 1` phases: for each state, to which states they
/// lead and how often.
pub open spec fn tallies(groups: Seq<Seq<usize>>, n: nat) -> Seq<Seq<(u16, nat)>>
    decreases n,
{
    if n == 0 {
        Seq::new(groups.len(), |k: int| Seq::empty())
    } else {
        let before = tallies(groups, (n - 1) as nat);
        let source = group_with(groups, (n - 1) as usize, 0) as int;
        let target = group_with(groups, n as usize, 0) as u16;
        before.update(source, tallied(before[source], target))
    }
}

/// The number of steps in a tally.
pub open spec fn steps(tally: Seq<(u16, nat)>) -> nat
    decreases tally.len(),
{
    if tally.len() == 0 {
        0
    } else {
        steps(tally.drop_last()) + tally.last().1
    }
}

/// The transitions of a tally: each with its share of the steps as probability.
pub open spec fn tally_transitions(tally: Seq<(u16, nat)>) -> Seq<Transition> {
    Seq::new(
        tally.len(),
        |k: int|
            Transition {
                condition: TransitionCondition::Random(share(tally[k].1, steps(tally)).bits),
                next_state: tally[k].0,
                size_override: None,
                iat_override: None,
                padding_override: None,
            },
    )
}

/// The automaton of packet sizes: one state per group of phases; for fewer than
/// fifty sizes one state without transitions.
pub open spec fn automaton(sizes: Seq<u16>) -> Seq<State> {
    if sizes.len() < 50 {
        seq![State { state_id: 0, transitions: Seq::empty() }]
    } else {
        let means = phase_means(sizes);
        let groups = kept_groups(means);
        let counted = tallies(groups, changes(sizes).len());
        Seq::new(
            groups.len(),
            |k: int|
                State { state_id: k as u16, transitions: tally_transitions(counted[k]) },
        )
    }
}

/// Changes lie in increasing order, more than ten apart, with a whole window on
/// either side.
pub proof fn law_changes_are_apart(sizes: Seq<u16>, n: nat)
    requires
        n <= usize::MAX,
    ensures
        forall|k: int|
            0 <= k < changes_below(sizes, n).len() ==> WINDOW <= #[trigger] changes_below(
                sizes,
                n,
            )[k] < n,
        forall|j: int, k: int|
            0 <= j < k < changes_below(sizes, n).len() ==> #[trigger] changes_below(sizes, n)[j]
                + 10 < #[trigger] changes_below(sizes, n)[k],
        changes_below(sizes, n).len() <= n,
    decreases n,
{
    if n > WINDOW {
        law_changes_are_apart(sizes, (n - 1) as nat);
    }
}

/// The positions at which the mean size changes.
fn find_changes(sizes: &[u16]) -> (r: Vec<usize>)
    requires
        sizes@.len() >= 50,
    ensures
        r@ == changes(sizes@),
{
    let deviation = std_dev_u16(sizes);
    let limit = Single::from_int(2).times(deviation);
    let mut found: Vec<usize> = Vec::new();
    let mut i: usize = WINDOW;
    while i < sizes.len() - WINDOW
        invariant
            sizes@.len() >= 50,
            WINDOW <= i <= sizes@.len() - WINDOW,
            limit == shift_limit(sizes@),
            found@ == changes_below(sizes@, i as nat),
            forall|k: int| 0 <= k < found@.len() ==> #[trigger] found@[k] < i,
        decreases sizes@.len() - i,
    {
        let before = mean_between(sizes, i - WINDOW, i);
        let after = mean_between(sizes, i, i + WINDOW);
        let shift = before.distance(after);
        if limit.less(shift) && (found.len() == 0 || i - found[found.len() - 1] > 10) {
            found.push(i);
        }
        i = i + 1;
    }
    found
}

/// The mean sizes of the phases.
fn find_means(sizes: &[u16], found: &Vec<usize>) -> (r: Vec<Single>)
    requires
        sizes@.len() >= 50,
        found@ == changes(sizes@),
    ensures
        r@ == phase_means(sizes@),
{
    let len: usize = sizes.len();
    proof {
        law_changes_are_apart(sizes@, (len - WINDOW) as nat);
    }
    let mut means: Vec<Single> = Vec::new();
    let mut start: usize = 0;
    while means.len() < found.len()
        invariant
            len == sizes@.len(),
            means@.len() <= found@.len(),
            found@ == changes(sizes@),
            start == phase_start(sizes@, means@.len() as int),
            start < len,
            forall|j: int| 0 <= j < found@.len() ==> WINDOW <= #[trigger] found@[j] < len,
            forall|i: int, j: int|
                0 <= i < j < found@.len() ==> #[trigger] found@[i] + 10 < #[trigger] found@[j],
            forall|j: int|
                0 <= j < means@.len() ==> #[trigger] means@[j] == phase_means(sizes@)[j],
        decreases found@.len() - means@.len(),
    {
        let end: usize = found[means.len()];
        let m = mean_between(sizes, start, end);
        means.push(m);
        start = end;
    }
    let m = mean_between(sizes, start, len);
    means.push(m);
    assert(means@ =~= phase_means(sizes@));
    means
}

/// The models of groups of phases.
pub open spec fn group_models(groups: Seq<Vec<usize>>) -> Seq<Seq<usize>> {
    groups.map_values(|g: Vec<usize>| g@)
}

/// The mean of a group of phases.
fn mean_of_group(group: &Vec<usize>, means: &Vec<Single>) -> (r: Single)
    requires
        forall|k: int| 0 <= k < group@.len() ==> #[trigger] group@[k] < means@.len(),
    ensures
        r == group_mean(group@, means@),
{
    let mut sum = Single { bits: 0 };
    let mut i: usize = 0;
    assert(group@.take(0) =~= Seq::<usize>::empty());
    while i < group.len()
        invariant
            i <= group@.len(),
            forall|k: int| 0 <= k < group@.len() ==> #[trigger] group@[k] < means@.len(),
            sum == sum_of_means(group@.take(i as int), means@),
        decreases group@.len() - i,
    {
        proof {
            let next = group@.take(i + 1);
            assert(next.drop_last() =~= group@.take(i as int));
            assert(next.last() == group@[i as int]);
        }
        sum = sum.plus(means[group[i]]);
        i = i + 1;
    }
    assert(group@.take(i as int) =~= group@);
    sum.over(Single::from_int(group.len() as u64))
}

/// The first group that a mean is near to; the number of groups where there is none.
fn find_near(groups: &Vec<Vec<usize>>, means: &Vec<Single>, m: Single) -> (r: usize)
    requires
        groups_valid(group_models(groups@), means@.len()),
    ensures
        r == near_group(group_models(groups@), means@, m, 0),
        r <= groups@.len(),
{
    let ghost models = group_models(groups@);
    let mut k: usize = 0;
    while k < groups.len()
        invariant
            k <= groups@.len(),
            models == group_models(groups@),
            groups_valid(models, means@.len()),
            near_group(models, means@, m, 0) == near_group(models, means@, m, k as nat),
        decreases groups@.len() - k,
    {
        assert(models[k as int] == groups@[k as int]@);
        let centre = mean_of_group(&groups[k], means);
        if m.distance(centre).less(Single::from_int(100)) {
            return k;
        }
        k = k + 1;
    }
    k
}

/// Groups that are not empty and hold phases below `n` only.
pub open spec fn groups_valid(groups: Seq<Seq<usize>>, n: nat) -> bool {
    forall|k: int|
        0 <= k < groups.len() ==> (#[trigger] groups[k]).len() > 0 && forall|j: int|
            0 <= j < groups[k].len() ==> #[trigger] groups[k][j] < n
}

/// The groups of all phases.
fn find_groups(means: &Vec<Single>) -> (r: Vec<Vec<usize>>)
    ensures
        group_models(r@) == groups_of(means@, means@.len()),
{
    let mut groups: Vec<Vec<usize>> = Vec::new();
    let mut i: usize = 0;
    assert(group_models(groups@) =~= Seq::<Seq<usize>>::empty());
    while i < means.len()
        invariant
            i <= means@.len(),
            group_models(groups@) == groups_of(means@, i as nat),
            groups_valid(group_models(groups@), i as nat),
        decreases means@.len() - i,
    {
        let ghost before = group_models(groups@);
        let k = find_near(&groups, means, means[i]);
        if k < groups.len() {
            assert(before[k as int] == groups@[k as int]@);
            groups[k].push(i);
            assert(group_models(groups@) =~= before.update(k as int, before[k as int].push(i)));
        } else {
            let single: Vec<usize> = vec![i];
            assert(single@ =~= seq![i]);
            groups.push(single);
            assert(group_models(groups@) =~= before.push(seq![i]));
        }
        i = i + 1;
    }
    groups
}

/// Tests whether a group holds a phase.
fn holds(group: &Vec<usize>, phase: usize) -> (r: bool)
    ensures
        r == group@.contains(phase),
{
    let mut i: usize = 0;
    while i < group.len()
        invariant
            i <= group@.len(),
            forall|k: int| 0 <= k < i ==> group@[k] != phase,
        decreases group@.len() - i,
    {
        if group[i] == phase {
            return true;
        }
        i = i + 1;
    }
    false
}

/// The first group that holds a phase; zero where none does.
fn find_group(groups: &Vec<Vec<usize>>, phase: usize) -> (r: usize)
    ensures
        r == group_with(group_models(groups@), phase, 0),
        groups@.len() > 0 ==> r < groups@.len(),
{
    let ghost models = group_models(groups@);
    let mut k: usize = 0;
    while k < groups.len()
        invariant
            k <= groups@.len(),
            models == group_models(groups@),
            group_with(models, phase, 0) == group_with(models, phase, k as nat),
        decreases groups@.len() - k,
    {
        assert(models[k as int] == groups@[k as int]@);
        if holds(&groups[k], phase) {
            return k;
        }
        k = k + 1;
    }
    0
}

/// The model of a tally.
pub open spec fn tally_model(tally: Seq<(u16, u64)>) -> Seq<(u16, nat)> {
    tally.map_values(|e: (u16, u64)| (e.0, e.1 as nat))
}

/// The models of tallies.
pub open spec fn tally_models(list: Seq<Vec<(u16, u64)>>) -> Seq<Seq<(u16, nat)>> {
    list.map_values(|t: Vec<(u16, u64)>| tally_model(t@))
}

/// Every entry of a tally is at most the number of its steps.
proof fn lemma_entry_bounded(tally: Seq<(u16, nat)>, k: int)
    requires
        0 <= k < tally.len(),
    ensures
        tally[k].1 <= steps(tally),
    decreases tally.len(),
{
    if k < tally.len() - 1 {
        lemma_entry_bounded(tally.drop_last(), k);
    }
}

/// Raising one entry by one raises the number of steps by one.
proof fn lemma_steps_raised(tally: Seq<(u16, nat)>, k: int)
    requires
        0 <= k < tally.len(),
    ensures
        steps(tally.update(k, (tally[k].0, tally[k].1 + 1))) == steps(tally) + 1,
    decreases tally.len(),
{
    let raised = tally.update(k, (tally[k].0, tally[k].1 + 1));
    if k == tally.len() - 1 {
        assert(raised.drop_last() =~= tally.drop_last());
    } else {
        assert(raised.drop_last() =~= tally.drop_last().update(k, (tally[k].0, tally[k].1 + 1)));
        lemma_steps_raised(tally.drop_last(), k);
    }
}

/// The entry that is found for a state is one for that state.
proof fn lemma_entry_for(tally: Seq<(u16, nat)>, state: u16, k: nat)
    requires
        k <= tally.len(),
    ensures
        entry_for(tally, state, k) <= tally.len(),
        entry_for(tally, state, k) < tally.len() ==> tally[entry_for(tally, state, k) as int].0
            == state,
    decreases tally.len() - k,
{
    if k < tally.len() && tally[k as int].0 != state {
        lemma_entry_for(tally, state, k + 1);
    }
}

/// One more step in a tally is one more step.
pub proof fn law_tally_counts_steps(tally: Seq<(u16, nat)>, state: u16)
    ensures
        steps(tallied(tally, state)) == steps(tally) + 1,
{
    let k = entry_for(tally, state, 0);
    lemma_entry_for(tally, state, 0);
    if k < tally.len() {
        lemma_steps_raised(tally, k as int);
    } else {
        assert(tally.push((state, 1)).drop_last() =~= tally);
    }
}

/// Adds a step to a tally.
fn add_step(tally: &mut Vec<(u16, u64)>, state: u16)
    requires
        steps(tally_model(old(tally)@)) < u64::MAX,
    ensures
        tally_model(final(tally)@) == tallied(tally_model(old(tally)@), state),
{
    let ghost model = tally_model(tally@);
    let mut k: usize = 0;
    while k < tally.len()
        invariant
            k <= tally@.len(),
            tally@ == old(tally)@,
            model == tally_model(tally@),
            steps(model) < u64::MAX,
            entry_for(model, state, 0) == entry_for(model, state, k as nat),
        decreases tally@.len() - k,
    {
        let (next, count) = tally[k];
        assert(model[k as int] == (next, count as nat));
        if next == state {
            proof {
                lemma_entry_bounded(model, k as int);
            }
            tally.set(k, (state, count + 1));
            assert(tally_model(tally@) =~= tallied(model, state));
            return;
        }
        k = k + 1;
    }
    tally.push((state, 1));
    assert(tally_model(tally@) =~= tallied(model, state));
}

/// No tally has more steps than there were.
proof fn lemma_tallies_bounded(groups: Seq<Seq<usize>>, n: nat, k: int)
    requires
        0 <= k < groups.len(),
    ensures
        tallies(groups, n).len() == groups.len(),
        steps(tallies(groups, n)[k]) <= n,
    decreases n,
{
    if n > 0 {
        let before = tallies(groups, (n - 1) as nat);
        let source = group_with(groups, (n - 1) as usize, 0) as int;
        let target = group_with(groups, n as usize, 0) as u16;
        lemma_tallies_bounded(groups, (n - 1) as nat, k);
        lemma_group_with_bounded(groups, (n - 1) as usize, 0);
        law_tally_counts_steps(before[source], target);
    }
}

/// Every phase is assigned to one of the groups.
proof fn lemma_group_with_bounded(groups: Seq<Seq<usize>>, phase: usize, k: nat)
    requires
        groups.len() > 0,
    ensures
        group_with(groups, phase, k) < groups.len(),
    decreases groups.len() - k,
{
    if k < groups.len() {
        lemma_group_with_bounded(groups, phase, k + 1);
    }
}

/// The steps between phases, counted for each state.
fn count_steps(groups: &Vec<Vec<usize>>, n: usize) -> (r: Vec<Vec<(u16, u64)>>)
    requires
        0 < groups@.len() <= MAX_STATES,
    ensures
        tally_models(r@) == tallies(group_models(groups@), n as nat),
{
    let ghost models = group_models(groups@);
    let mut counted: Vec<Vec<(u16, u64)>> = Vec::new();
    while counted.len() < groups.len()
        invariant
            counted@.len() <= groups@.len(),
            models == group_models(groups@),
            tally_models(counted@) == tallies(models, 0).take(counted@.len() as int),
        decreases groups@.len() - counted@.len(),
    {
        let ghost before = counted@;
        let none: Vec<(u16, u64)> = Vec::new();
        assert(tally_model(none@) =~= Seq::<(u16, nat)>::empty());
        counted.push(none);
        assert(tally_models(counted@) =~= tally_models(before).push(tally_model(none@)));
        assert(tally_models(counted@) =~= tallies(models, 0).take(counted@.len() as int));
    }
    assert(tally_models(counted@) =~= tallies(models, 0));
    let mut i: usize = 0;
    while i < n
        invariant
            i <= n,
            0 < groups@.len() <= MAX_STATES,
            counted@.len() == groups@.len(),
            models == group_models(groups@),
            tally_models(counted@) == tallies(models, i as nat),
        decreases n - i,
    {
        let source: usize = find_group(groups, i);
        let target: usize = find_group(groups, i + 1);
        let ghost before = tally_models(counted@);
        proof {
            lemma_tallies_bounded(models, i as nat, source as int);
            assert(before[source as int] == tally_model(counted@[source as int]@));
        }
        let state: u16 = target as u16;
        add_step(&mut counted[source], state);
        assert(tally_models(counted@) =~= before.update(
            source as int,
            tallied(before[source as int], state),
        ));
        i = i + 1;
    }
    counted
}

/// The number of steps in a tally.
fn total_steps(tally: &Vec<(u16, u64)>) -> (r: u64)
    requires
        steps(tally_model(tally@)) <= u64::MAX,
    ensures
        r == steps(tally_model(tally@)),
{
    let ghost model = tally_model(tally@);
    let mut sum: u64 = 0;
    let mut i: usize = 0;
    assert(model.take(0) =~= Seq::<(u16, nat)>::empty());
    while i < tally.len()
        invariant
            i <= tally@.len(),
            model == tally_model(tally@),
            steps(model) <= u64::MAX,
            sum == steps(model.take(i as int)),
        decreases tally@.len() - i,
    {
        proof {
            let next = model.take(i + 1);
            assert(next.drop_last() =~= model.take(i as int));
            assert(next.last() == (tally@[i as int].0, tally@[i as int].1 as nat));
            lemma_steps_prefix(model, i + 1);
        }
        sum = sum + tally[i].1;
        i = i + 1;
    }
    assert(model.take(i as int) =~= model);
    sum
}

/// The steps of the first entries of a tally are no more than all of them.
proof fn lemma_steps_prefix(tally: Seq<(u16, nat)>, k: int)
    requires
        0 <= k <= tally.len(),
    ensures
        steps(tally.take(k)) <= steps(tally),
    decreases tally.len(),
{
    if k == tally.len() {
        assert(tally.take(k) =~= tally);
    } else {
        assert(tally.drop_last().take(k) =~= tally.take(k));
        lemma_steps_prefix(tally.drop_last(), k);
    }
}

/// The transitions of a tally.
fn build_transitions(tally: &Vec<(u16, u64)>) -> (r: Vec<FSMTransition>)
    requires
        steps(tally_model(tally@)) <= u64::MAX,
        forall|k: int| 0 <= k < tally@.len() ==> (#[trigger] tally@[k]).1 > 0,
    ensures
        r@.map_values(|t: FSMTransition| t@) == tally_transitions(tally_model(tally@)),
{
    let ghost model = tally_model(tally@);
    let total = total_steps(tally);
    let mut list: Vec<FSMTransition> = Vec::new();
    while list.len() < tally.len()
        invariant
            list@.len() <= tally@.len(),
            model == tally_model(tally@),
            total == steps(model),
            forall|k: int| 0 <= k < tally@.len() ==> (#[trigger] tally@[k]).1 > 0,
            list@.map_values(|t: FSMTransition| t@) == tally_transitions(model).take(
                list@.len() as int,
            ),
        decreases tally@.len() - list@.len(),
    {
        let (next_state, count) = tally[list.len()];
        let ghost before = list@;
        proof {
            assert(model[before.len() as int] == (next_state, count as nat));
            lemma_entry_bounded(model, before.len() as int);
        }
        let probability = share_of(count, total);
        list.push(
            FSMTransition {
                condition: TransitionCondition::Random(probability.bits),
                next_state,
                size_override: None,
                iat_override: None,
                padding_override: None,
            },
        );
        assert(list@.last()@ == tally_transitions(model)[before.len() as int]);
        assert(list@.map_values(|t: FSMTransition| t@) =~= before.map_values(
            |t: FSMTransition| t@,
        ).push(list@.last()@));
        assert(list@.map_values(|t: FSMTransition| t@) =~= tally_transitions(model).take(
            list@.len() as int,
        ));
    }
    assert(list@.map_values(|t: FSMTransition| t@) =~= tally_transitions(model));
    list
}

/// A tally whose entries lead to states below `n` and count at least one step each,
/// with one entry per state.
pub open spec fn tally_valid(tally: Seq<(u16, nat)>, n: nat) -> bool {
    &&& forall|j: int|
        0 <= j < tally.len() ==> (#[trigger] tally[j]).0 < n && tally[j].1 > 0
    &&& forall|i: int, j: int|
        0 <= i < j < tally.len() ==> (#[trigger] tally[i]).0 != (#[trigger] tally[j]).0
}

/// No entry before the one that is found is for the state.
proof fn lemma_no_entry(tally: Seq<(u16, nat)>, state: u16, k: nat, j: int)
    requires
        k <= j < entry_for(tally, state, k),
        k <= tally.len(),
    ensures
        j < tally.len(),
        tally[j].0 != state,
    decreases tally.len() - k,
{
    lemma_entry_for(tally, state, k);
    if k < tally.len() && tally[k as int].0 != state && j > k {
        lemma_no_entry(tally, state, k + 1, j);
    }
}

/// One more step keeps a tally in order.
proof fn lemma_tallied_valid(tally: Seq<(u16, nat)>, state: u16, n: nat)
    requires
        tally_valid(tally, n),
        state < n,
    ensures
        tally_valid(tallied(tally, state), n),
{
    let k = entry_for(tally, state, 0);
    lemma_entry_for(tally, state, 0);
    if k == tally.len() {
        assert forall|j: int| 0 <= j < tally.len() implies (#[trigger] tally[j]).0 != state by {
            lemma_no_entry(tally, state, 0, j);
        }
    }
}

/// The tallies of all states are in order.
proof fn lemma_tallies_valid(groups: Seq<Seq<usize>>, n: nat, k: int)
    requires
        0 <= k < groups.len() <= MAX_STATES,
    ensures
        tallies(groups, n).len() == groups.len(),
        tally_valid(tallies(groups, n)[k], groups.len()),
    decreases n,
{
    if n > 0 {
        let source = group_with(groups, (n - 1) as usize, 0) as int;
        let target = group_with(groups, n as usize, 0) as u16;
        lemma_tallies_valid(groups, (n - 1) as nat, k);
        lemma_group_with_bounded(groups, (n - 1) as usize, 0);
        lemma_group_with_bounded(groups, n as usize, 0);
        if k == source {
            lemma_tallied_valid(tallies(groups, (n - 1) as nat)[k], target, groups.len());
        }
    }
}

/// Where there are phases, there are groups.
proof fn lemma_groups_exist(means: Seq<Single>, n: nat)
    ensures
        n > 0 ==> groups_of(means, n).len() > 0,
    decreases n,
{
    if n > 0 {
        lemma_groups_exist(means, (n - 1) as nat);
    }
}

/// The behaviour automaton of packet sizes, and the state in which it starts.
pub fn build_fsm_from_sizes(sizes: &[u16]) -> (r: (Vec<FSMState>, u16))
    ensures
        state_models(r.0@) == automaton(sizes@),
        r.1 == 0,
{
    let mut states: Vec<FSMState> = Vec::new();
    if sizes.len() < 50 {
        let transitions: Vec<FSMTransition> = Vec::new();
        let state = FSMState { state_id: 0, transitions };
        assert(state@.transitions =~= Seq::<Transition>::empty());
        states.push(state);
        assert(state_models(states@) =~= automaton(sizes@));
        return (states, 0);
    }
    let found = find_changes(sizes);
    let means = find_means(sizes, &found);
    let mut groups = find_groups(&means);
    proof {
        lemma_groups_exist(means@, means@.len());
    }
    groups.truncate(MAX_STATES);
    let ghost kept = group_models(groups@);
    assert(kept =~= kept_groups(means@));
    let step_count: usize = found.len();
    let counted = count_steps(&groups, step_count);
    let ghost lists = tallies(kept, step_count as nat);
    while states.len() < groups.len()
        invariant
            states@.len() <= groups@.len() <= MAX_STATES,
            sizes@.len() >= 50,
            kept == group_models(groups@),
            kept == kept_groups(phase_means(sizes@)),
            step_count == changes(sizes@).len(),
            lists == tallies(kept, step_count as nat),
            tally_models(counted@) == lists,
            state_models(states@) == automaton(sizes@).take(states@.len() as int),
        decreases groups@.len() - states@.len(),
    {
        let k: usize = states.len();
        let ghost before = states@;
        proof {
            lemma_tallies_valid(kept, step_count as nat, k as int);
            lemma_tallies_bounded(kept, step_count as nat, k as int);
            let list = counted@[k as int]@;
            assert(lists[k as int] == tally_model(list));
            assert forall|j: int| 0 <= j < list.len() implies (#[trigger] list[j]).1 > 0 by {
                assert(lists[k as int][j] == (list[j].0, list[j].1 as nat));
            }
        }
        let transitions = build_transitions(&counted[k]);
        states.push(FSMState { state_id: k as u16, transitions });
        assert(states@.last()@ == automaton(sizes@)[k as int]);
        assert(state_models(states@) =~= state_models(before).push(states@.last()@));
        assert(state_models(states@) =~= automaton(sizes@).take(states@.len() as int));
    }
    assert(state_models(states@) =~= automaton(sizes@));
    (states, 0)
}

/// An automaton has between one and eight states, numbered in order, and every
/// transition leads to one of them.
pub proof fn law_automaton_is_closed(sizes: Seq<u16>)
    ensures
        1 <= automaton(sizes).len() <= MAX_STATES,
        forall|k: int|
            0 <= k < automaton(sizes).len() ==> (#[trigger] automaton(sizes)[k]).state_id == k,
        forall|k: int, j: int|
            0 <= k < automaton(sizes).len() && 0 <= j < automaton(sizes)[k].transitions.len()
                ==> (#[trigger] automaton(sizes)[k].transitions[j]).next_state < automaton(
                sizes,
            ).len(),
{
    if sizes.len() >= 50 {
        let means = phase_means(sizes);
        let groups = kept_groups(means);
        lemma_groups_exist(means, means.len());
        let counted = tallies(groups, changes(sizes).len());
        assert forall|k: int, j: int|
            0 <= k < groups.len() && 0 <= j < automaton(sizes)[k].transitions.len() implies (
        #[trigger] automaton(sizes)[k].transitions[j]).next_state < groups.len() by {
            lemma_tallies_valid(groups, changes(sizes).len(), k);
            assert(counted[k][j].0 < groups.len());
        }
    }
}

/// The number of phases below `n` that belong to a state.
pub open spec fn phases_in(groups: Seq<Seq<usize>>, state: int, n: nat) -> nat
    decreases n,
{
    if n == 0 {
        0
    } else {
        phases_in(groups, state, (n - 1) as nat) + if group_with(groups, (n - 1) as usize, 0)
            == state {
            1nat
        } else {
            0
        }
    }
}

/// The steps that leave a state are as many as the phases in it that another phase
/// follows.
pub proof fn law_steps_leave_phases(groups: Seq<Seq<usize>>, state: int, n: nat)
    requires
        0 <= state < groups.len(),
    ensures
        steps(tallies(groups, n)[state]) == phases_in(groups, state, n),
    decreases n,
{
    if n > 0 {
        let before = tallies(groups, (n - 1) as nat);
        let source = group_with(groups, (n - 1) as usize, 0) as int;
        let target = group_with(groups, n as usize, 0) as u16;
        law_steps_leave_phases(groups, state, (n - 1) as nat);
        lemma_group_with_bounded(groups, (n - 1) as usize, 0);
        lemma_tallies_bounded(groups, (n - 1) as nat, state);
        law_tally_counts_steps(before[source], target);
    }
}

/// A probability: a number above zero and at most one.
pub open spec fn is_probability(p: Single) -> bool {
    !single_is_nan(p.bits) && less(zero(), p) && !less(of_int(1), p)
}

/// The steps that leave the `k`-th state of an automaton, counted by where they lead.
pub open spec fn tally_of(sizes: Seq<u16>, k: int) -> Seq<(u16, nat)> {
    if sizes.len() < 50 {
        Seq::empty()
    } else {
        tallies(kept_groups(phase_means(sizes)), changes(sizes).len())[k]
    }
}

/// Within a state of an automaton no two transitions lead to the same state. Every
/// transition is taken with a probability above zero and at most one: the share that the
/// steps to its state have in all steps that leave. These add up to as many as there are
/// phases of the state that another phase follows.
pub proof fn law_transitions_are_probabilities(sizes: Seq<u16>, k: int)
    requires
        sizes.len() <= usize::MAX,
        0 <= k < automaton(sizes).len(),
    ensures
        ({
            let transitions = automaton(sizes)[k].transitions;
            let tally = tally_of(sizes, k);
            &&& transitions.len() == tally.len()
            &&& forall|j: int|
                0 <= j < transitions.len() ==> #[trigger] transitions[j].next_state == tally[j].0
                    && tally[j].1 > 0 && transitions[j].condition == TransitionCondition::Random(
                    share(tally[j].1, steps(tally)).bits,
                ) && is_probability(share(tally[j].1, steps(tally)))
            &&& forall|i: int, j: int|
                0 <= i < j < transitions.len() ==> #[trigger] transitions[i].next_state
                    != #[trigger] transitions[j].next_state
            &&& sizes.len() >= 50 ==> steps(tally) == phases_in(
                kept_groups(phase_means(sizes)),
                k,
                changes(sizes).len(),
            )
        }),
{
    if sizes.len() >= 50 {
        let groups = kept_groups(phase_means(sizes));
        let n = changes(sizes).len();
        let tally = tally_of(sizes, k);
        let transitions = automaton(sizes)[k].transitions;
        law_changes_are_apart(sizes, (sizes.len() - WINDOW) as nat);
        lemma_groups_exist(phase_means(sizes), phase_means(sizes).len());
        lemma_tallies_valid(groups, n, k);
        lemma_tallies_bounded(groups, n, k);
        law_steps_leave_phases(groups, k, n);
        assert forall|j: int| 0 <= j < transitions.len() implies #[trigger] transitions[j].next_state
            == tally[j].0 && tally[j].1 > 0 && transitions[j].condition
            == TransitionCondition::Random(share(tally[j].1, steps(tally)).bits) && is_probability(
            share(tally[j].1, steps(tally)),
        ) by {
            lemma_entry_bounded(tally, j);
            assert(tally[j].1 > 0);
            law_share_is_a_fraction(tally[j].1, steps(tally));
        }
        assert forall|i: int, j: int| 0 <= i < j < transitions.len() implies #[trigger] transitions[
            i
        ].next_state != #[trigger] transitions[j].next_state by {
            assert(tally[i].0 != tally[j].0);
        }
    }
}

/// A walk through the automaton never leaves it: from one of its states, every step
/// leads to one of its states, whatever is drawn.
pub proof fn law_walk_stays_inside(
    sizes: Seq<u16>,
    current_state: u16,
    packets_in_state: u32,
    duration_in_state_ms: u64,
    draws: Seq<u32>,
)
    requires
        current_state < automaton(sizes).len(),
    ensures
        step(
            automaton(sizes),
            current_state,
            packets_in_state,
            duration_in_state_ms,
            draws,
        ).next_state < automaton(sizes).len(),
{
    let states = automaton(sizes);
    law_automaton_is_closed(sizes);
    lemma_transitions_found(states, 0, current_state);
    law_steps_follow_transitions(
        states[current_state as int].transitions,
        0,
        current_state,
        packets_in_state,
        duration_in_state_ms,
        draws,
    );
}

/// Where states are numbered in order, the transitions of a number are those of the
/// state with that number.
proof fn lemma_transitions_found(states: Seq<State>, i: nat, id: u16)
    requires
        i <= id < states.len(),
        forall|k: int| 0 <= k < states.len() ==> (#[trigger] states[k]).state_id == k,
    ensures
        transitions_of(states, i, id) == states[id as int].transitions,
    decreases states.len() - i,
{
    assert(states[i as int].state_id == i);
    if i < id {
        lemma_transitions_found(states, i + 1, id);
    }
}

/// Packets that all have the same size give an automaton of one state without
/// transitions.
pub proof fn law_constant_sizes_have_one_state(sizes: Seq<u16>, size: u16)
    requires
        forall|i: int| 0 <= i < sizes.len() ==> #[trigger] sizes[i] == size,
    ensures
        automaton(sizes) == seq![State { state_id: 0, transitions: Seq::empty() }],
{
    if sizes.len() >= 50 {
        lemma_constant_unchanged(sizes, size, (sizes.len() - WINDOW) as nat);
        let means = phase_means(sizes);
        let groups = kept_groups(means);
        assert(groups_of(means, 0) =~= Seq::<Seq<usize>>::empty());
        assert(near_group(Seq::empty(), means, means[0], 0) == 0);
        assert(groups_of(means, 1) =~= seq![seq![0usize]]);
        assert(groups.len() == 1);
        assert(tally_transitions(tallies(groups, 0)[0]) =~= Seq::<Transition>::empty());
        assert(automaton(sizes) =~= seq![State { state_id: 0, transitions: Seq::empty() }]);
    }
}

/// Sizes that are all the same have no change.
proof fn lemma_constant_unchanged(sizes: Seq<u16>, size: u16, n: nat)
    requires
        forall|i: int| 0 <= i < sizes.len() ==> #[trigger] sizes[i] == size,
        n + WINDOW <= sizes.len(),
    ensures
        changes_below(sizes, n) == Seq::<usize>::empty(),
    decreases n,
{
    if n > WINDOW {
        let i = n - 1;
        lemma_constant_unchanged(sizes, size, i as nat);
        assert(sizes.subrange(i - WINDOW, i) =~= sizes.subrange(i, i + WINDOW));
        let x = mean(sizes.subrange(i, i + WINDOW));
        let variance = over(squared_distances(sizes, mean(sizes)), of_int(sizes.len()));
        law_distance_to_itself(x);
        law_root_is_not_negative(variance);
        reveal(less);
    }
}

/// The mean of the twenty sizes before a position differs from that of the twenty sizes from
/// it on by more than two standard deviations of all sizes.
pub open spec fn is_shift(sizes: Seq<u16>, i: int) -> bool {
    less(
        times(of_int(2), deviation(sizes)),
        distance(mean(sizes.subrange(i - 20, i)), mean(sizes.subrange(i, i + 20))),
    )
}

/// A position is a change exactly if the mean size shifts there, twenty sizes or more stand
/// before it and more than twenty from it on, and no change lies among the ten positions before it.
pub proof fn law_changes_are_shifts(sizes: Seq<u16>, i: usize)
    requires
        50 <= sizes.len() <= usize::MAX,
    ensures
        changes(sizes).contains(i) <==> {
            &&& 20 <= i < sizes.len() - 20
            &&& is_shift(sizes, i as int)
            &&& forall|c: usize| #[trigger] changes(sizes).contains(c) ==> !(c < i <= c + 10)
        },
{
    lemma_changes_exact(sizes, (sizes.len() - WINDOW) as nat, i);
}

/// The changes below a bound.
proof fn lemma_changes_exact(sizes: Seq<u16>, n: nat, i: usize)
    requires
        n <= usize::MAX,
    ensures
        changes_below(sizes, n).contains(i) <==> {
            &&& 20 <= i < n
            &&& is_shift(sizes, i as int)
            &&& forall|c: usize| #[trigger]
                changes_below(sizes, n).contains(c) ==> !(c < i <= c + 10)
        },
    decreases n,
{
    law_changes_are_apart(sizes, n);
    let all = changes_below(sizes, n);
    if n > WINDOW {
        let last = (n - 1) as usize;
        let before = changes_below(sizes, last as nat);
        law_changes_are_apart(sizes, last as nat);
        lemma_changes_exact(sizes, last as nat, i);
        let taken = all == before.push(last);
        assert forall|c: usize| #[trigger] all.contains(c) <==> before.contains(c) || (all
            != before && c == last) by {
            if all == before.push(last) && all != before {
                if before.contains(c) {
                    let k = choose|k: int| 0 <= k < before.len() && before[k] == c;
                    assert(all[k] == c);
                }
                if all.contains(c) {
                    let k = choose|k: int| 0 <= k < all.len() && all[k] == c;
                    if k < before.len() {
                        assert(before[k] == c);
                    }
                }
                assert(all[all.len() - 1] == last);
            }
        }
        if before.push(last) == before {
            assert(before.push(last).len() == before.len() + 1);
        }
        assert forall|c: usize| before.contains(c) implies c < last && c <= before.last() by {
            let k = choose|k: int| 0 <= k < before.len() && before[k] == c;
            if k < before.len() - 1 {
                assert(before[k] + 10 < before[before.len() - 1]);
            }
        }
        if before.len() > 0 {
            assert(before.contains(before[before.len() - 1]));
            assert(all.contains(before.last()));
        }
        if i == last {
            assert(!before.contains(i));
            if all != before {
                assert forall|c: usize| #[trigger] all.contains(c) implies !(c < i <= c + 10) by {}
            }
        } else if i < last {
            if before.contains(i) {
                assert forall|c: usize| #[trigger] all.contains(c) implies !(c < i <= c + 10) by {
                    if before.contains(c) {
                    }
                }
            } else if 20 <= i && is_shift(sizes, i as int) {
                let c = choose|c: usize| #[trigger] before.contains(c) && c < i <= c + 10;
                assert(all.contains(c));
            }
        }
    } else {
        assert(!all.contains(i));
    }
}

/// The phases lie between the changes: the first one starts at the first size, the last one
/// ends at the last, and each has the mean of its sizes.
pub proof fn law_phases_lie_between_changes(sizes: Seq<u16>, k: int)
    requires
        50 <= sizes.len() <= usize::MAX,
        0 <= k <= changes(sizes).len(),
    ensures
        phase_means(sizes).len() == changes(sizes).len() + 1,
        ({
            let start = if k == 0 {
                0
            } else {
                changes(sizes)[k - 1] as int
            };
            let end = if k == changes(sizes).len() {
                sizes.len() as int
            } else {
                changes(sizes)[k] as int
            };
            &&& 0 <= start < end <= sizes.len()
            &&& phase_means(sizes)[k] == mean(sizes.subrange(start, end))
        }),
{
    law_changes_are_apart(sizes, (sizes.len() - WINDOW) as nat);
    if 0 < k < changes(sizes).len() {
        assert(changes(sizes)[k - 1] + 10 < changes(sizes)[k]);
    }
}

/// A phase joins the first group whose mean lies less than a hundred bytes from its own, as the
/// groups are when its turn comes; where there is none, it starts a group. All other groups
/// stay as they are.
pub proof fn law_phases_join_near_groups(means: Seq<Single>, i: nat, k: int)
    requires
        i < means.len() <= usize::MAX,
        0 <= k <= groups_of(means, i).len(),
        forall|j: int|
            0 <= j < k ==> !less(
                distance(means[i as int], group_mean(#[trigger] groups_of(means, i)[j], means)),
                of_int(100),
            ),
        k < groups_of(means, i).len() ==> less(
            distance(means[i as int], group_mean(groups_of(means, i)[k], means)),
            of_int(100),
        ),
    ensures
        ({
            let before = groups_of(means, i);
            let after = groups_of(means, i + 1);
            &&& k < before.len() ==> after.len() == before.len() && after[k] == before[k].push(
                i as usize,
            )
            &&& k == before.len() ==> after.len() == before.len() + 1 && after[k] == seq![
                i as usize,
            ]
            &&& forall|j: int| 0 <= j < before.len() && j != k ==> #[trigger] after[j] == before[j]
        }),
{
    let before = groups_of(means, i);
    lemma_near_group(before, means, means[i as int], 0, k);
}

/// The first near group.
proof fn lemma_near_group(groups: Seq<Seq<usize>>, means: Seq<Single>, m: Single, from: nat, k: int)
    requires
        from <= k <= groups.len(),
        forall|j: int| from <= j < k ==> !is_near(#[trigger] groups[j], means, m),
        k < groups.len() ==> is_near(groups[k], means, m),
    ensures
        near_group(groups, means, m, from) == k,
    decreases groups.len() - from,
{
    if from < k {
        assert(!is_near(groups[from as int], means, m));
        lemma_near_group(groups, means, m, from + 1, k);
    }
}

/// The mean of a group adds up the means of its phases, in their order, and divides by their
/// number.
pub proof fn law_group_mean_is_of_its_phases(group: Seq<usize>, means: Seq<Single>)
    ensures
        group_mean(group, means) == over(
            group.fold_left(zero(), |sum: Single, phase: usize| plus(sum, means[phase as int])),
            of_int(group.len()),
        ),
{
    lemma_sum_folded(group, means);
}

/// The sum of the means of a group, added from the first to the last.
proof fn lemma_sum_folded(group: Seq<usize>, means: Seq<Single>)
    ensures
        sum_of_means(group, means) == group.fold_left(
            zero(),
            |sum: Single, phase: usize| plus(sum, means[phase as int]),
        ),
    decreases group.len(),
{
    reveal(Seq::fold_left);
    if group.len() > 0 {
        lemma_sum_folded(group.drop_last(), means);
    }
}

/// A phase belongs to the state of the first of the kept groups that holds it; a phase of none
/// of them belongs to the first state. At most eight groups are kept, the first ones.
pub proof fn law_phases_belong_to_states(groups: Seq<Seq<usize>>, phase: usize, means: Seq<Single>)
    ensures
        ({
            let state = group_with(groups, phase, 0) as int;
            ||| 0 <= state < groups.len() && groups[state].contains(phase) && forall|j: int|
                0 <= j < state ==> !(#[trigger] groups[j]).contains(phase)
            ||| state == 0 && forall|j: int|
                0 <= j < groups.len() ==> !(#[trigger] groups[j]).contains(phase)
        }),
        kept_groups(means).len() == if groups_of(means, means.len()).len() > 8 {
            8
        } else {
            groups_of(means, means.len()).len()
        },
        forall|j: int|
            0 <= j < kept_groups(means).len() ==> #[trigger] kept_groups(means)[j] == groups_of(
                means,
                means.len(),
            )[j],
{
    lemma_group_with(groups, phase, 0);
}

/// The first group from a position on that holds a phase.
proof fn lemma_group_with(groups: Seq<Seq<usize>>, phase: usize, from: nat)
    requires
        from <= groups.len(),
    ensures
        ({
            let state = group_with(groups, phase, from) as int;
            ||| from <= state < groups.len() && groups[state].contains(phase) && forall|j: int|
                from <= j < state ==> !(#[trigger] groups[j]).contains(phase)
            ||| state == 0 && forall|j: int|
                from <= j < groups.len() ==> !(#[trigger] groups[j]).contains(phase)
        }),
    decreases groups.len() - from,
{
    if from < groups.len() && !groups[from as int].contains(phase) {
        lemma_group_with(groups, phase, from + 1);
    }
}

/// The number of steps among the first `n` that lead from a state to another.
pub open spec fn steps_between(groups: Seq<Seq<usize>>, n: nat, source: int, target: int) -> nat {
    Seq::new(n, |i: int| i).filter(
        |i: int|
            group_with(groups, i as usize, 0) == source && group_with(groups, (i + 1) as usize, 0)
                == target,
    ).len()
}

/// The number of steps among the first `n` that leave a state.
pub open spec fn steps_from(groups: Seq<Seq<usize>>, n: nat, source: int) -> nat {
    Seq::new(n, |i: int| i).filter(|i: int| group_with(groups, i as usize, 0) == source).len()
}

/// One step more.
proof fn lemma_steps_between(groups: Seq<Seq<usize>>, n: nat, source: int, target: int)
    ensures
        steps_between(groups, 0, source, target) == 0,
        steps_from(groups, 0, source) == 0,
        n > 0 ==> steps_between(groups, n, source, target) == steps_between(
            groups,
            (n - 1) as nat,
            source,
            target,
        ) + (if group_with(groups, (n - 1) as usize, 0) == source && group_with(
            groups,
            n as usize,
            0,
        ) == target {
            1nat
        } else {
            0
        }),
        n > 0 ==> steps_from(groups, n, source) == steps_from(groups, (n - 1) as nat, source) + (
        if group_with(groups, (n - 1) as usize, 0) == source {
            1nat
        } else {
            0
        }),
{
    reveal(Seq::filter);
    if n > 0 {
        let all = Seq::new(n, |i: int| i);
        assert(all.drop_last() =~= Seq::new((n - 1) as nat, |i: int| i));
        assert(all.last() == n - 1);
    }
}

/// What a tally counts for a state.
spec fn counted_for(tally: Seq<(u16, nat)>, state: u16) -> nat {
    let k = entry_for(tally, state, 0);
    if k < tally.len() {
        tally[k as int].1
    } else {
        0
    }
}

/// The entry for a state is where it stands.
proof fn lemma_entry_found(tally: Seq<(u16, nat)>, from: nat, j: int)
    requires
        from <= j < tally.len(),
        forall|i: int| from <= i < j ==> (#[trigger] tally[i]).0 != tally[j].0,
    ensures
        entry_for(tally, tally[j].0, from) == j,
    decreases tally.len() - from,
{
    if from < j {
        assert(tally[from as int].0 != tally[j].0);
        lemma_entry_found(tally, from + 1, j);
    }
}

/// One more step to a state is counted for that state alone.
proof fn lemma_counted_for(tally: Seq<(u16, nat)>, state: u16, other: u16, n: nat)
    requires
        tally_valid(tally, n),
        state < n,
    ensures
        counted_for(tallied(tally, state), other) == counted_for(tally, other) + (if other
            == state {
            1nat
        } else {
            0
        }),
{
    let after = tallied(tally, state);
    let k = entry_for(tally, state, 0);
    lemma_entry_for(tally, state, 0);
    lemma_tallied_valid(tally, state, n);
    lemma_entry_for(tally, other, 0);
    lemma_entry_for(after, other, 0);
    let e = entry_for(tally, other, 0);
    if e < tally.len() {
        assert(after[e as int].0 == other);
        lemma_entry_found(after, 0, e as int);
    } else {
        assert forall|j: int| 0 <= j < tally.len() implies (#[trigger] tally[j]).0 != other by {
            lemma_no_entry(tally, other, 0, j);
        }
        if other == state {
            assert(after.last() == (state, 1nat));
            lemma_entry_found(after, 0, tally.len() as int);
        } else {
            let f = entry_for(after, other, 0);
            if f < after.len() {
                assert(after[f as int].0 == other);
                if f < tally.len() {
                    assert(tally[f as int].0 != other);
                }
            }
        }
    }
}

/// The tallies count the steps between states.
proof fn lemma_tallies_count(groups: Seq<Seq<usize>>, n: nat, source: int, target: u16)
    requires
        0 <= source < groups.len() <= MAX_STATES,
        n <= usize::MAX,
        target < groups.len(),
    ensures
        counted_for(tallies(groups, n)[source], target) == steps_between(
            groups,
            n,
            source,
            target as int,
        ),
        steps(tallies(groups, n)[source]) == steps_from(groups, n, source),
    decreases n,
{
    lemma_steps_between(groups, n, source, target as int);
    if n > 0 {
        let i = (n - 1) as nat;
        let before = tallies(groups, i);
        lemma_tallies_count(groups, i, source, target);
        lemma_tallies_valid(groups, i, source);
        let here = group_with(groups, i as usize, 0) as int;
        let there = group_with(groups, n as usize, 0) as u16;
        lemma_group_with_bounded(groups, i as usize, 0);
        lemma_group_with_bounded(groups, n as usize, 0);
        if here == source {
            lemma_counted_for(before[source], there, target, groups.len());
            law_tally_counts_steps(before[source], there);
        }
    } else {
        assert(tallies(groups, 0)[source] =~= Seq::<(u16, nat)>::empty());
    }
}

/// Each transition of a state leads to another with the share that the steps between phases
/// of the two have in all steps that leave the state, and every step has its transition.
pub proof fn law_transitions_count_steps(sizes: Seq<u16>, k: int, target: u16)
    requires
        50 <= sizes.len() <= usize::MAX,
        0 <= k < automaton(sizes).len(),
        target < automaton(sizes).len(),
    ensures
        ({
            let groups = kept_groups(phase_means(sizes));
            let n = changes(sizes).len();
            let transitions = automaton(sizes)[k].transitions;
            &&& automaton(sizes).len() == groups.len()
            &&& forall|j: int|
                0 <= j < transitions.len() && #[trigger] transitions[j].next_state == target
                    ==> transitions[j].condition == TransitionCondition::Random(
                    share(
                        steps_between(groups, n, k, target as int),
                        steps_from(groups, n, k),
                    ).bits,
                ) && transitions[j].size_override is None && transitions[j].iat_override is None
                    && transitions[j].padding_override is None
            &&& steps_between(groups, n, k, target as int) > 0 ==> exists|j: int|
                0 <= j < transitions.len() && #[trigger] transitions[j].next_state == target
        }),
{
    let groups = kept_groups(phase_means(sizes));
    let n = changes(sizes).len();
    let transitions = automaton(sizes)[k].transitions;
    let tally = tallies(groups, n)[k];
    law_changes_are_apart(sizes, (sizes.len() - WINDOW) as nat);
    lemma_groups_exist(phase_means(sizes), phase_means(sizes).len());
    lemma_tallies_count(groups, n, k, target);
    lemma_tallies_valid(groups, n, k);
    assert forall|j: int|
        0 <= j < transitions.len() && #[trigger] transitions[j].next_state
            == target implies transitions[j].condition == TransitionCondition::Random(
        share(steps_between(groups, n, k, target as int), steps_from(groups, n, k)).bits,
    ) by {
        assert(tally[j].0 == target);
        assert forall|i: int| 0 <= i < j implies (#[trigger] tally[i]).0 != tally[j].0 by {
            assert(tally[i].0 != tally[j].0);
        }
        lemma_entry_found(tally, 0, j);
    }
    if steps_between(groups, n, k, target as int) > 0 {
        let e = entry_for(tally, target, 0) as int;
        lemma_entry_for(tally, target, 0);
        assert(transitions[e].next_state == target);
    }
}

/// Fewer than fifty sizes have one state without transitions.
pub proof fn law_few_sizes_have_one_state(sizes: Seq<u16>)
    requires
        sizes.len() < 50,
    ensures
        automaton(sizes) == seq![State { state_id: 0, transitions: Seq::empty() }],
{
}

} // verus!
