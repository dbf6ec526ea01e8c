//! The convergence scheduler: batches of playouts for every action of every
//! state, repeated until each mean is known to the target precision or the
//! rounds run out.

use crate::deck::{get_hand_for_state, is_card, state_cards, Hand, PlayerState};
use crate::engine::{
    batch_outcome, extends, legal_actions, playable, Action, BatchOutcome, BlackjackEngine,
};
use crate::stats::{lemma_mean_order_transitive, ActionStats, Tally};
use rayon::iter::{IntoParallelRefIterator, ParallelIterator};
use vstd::prelude::*;

verus! {

/// One batch of playouts to run: an action from a state, and the hand that
/// stands for the state.
#[derive(Clone, Copy)]
pub struct SimulationTask {
    pub state: PlayerState,
    pub action: Action,
    pub hand: Hand,
}

/// What is known of one action in one state.
#[derive(Debug, Clone, Copy)]
pub struct StatsEntry {
    pub state: PlayerState,
    pub action: Action,
    /// The record of all batches merged so far.
    pub stats: ActionStats,
    /// How many batches were merged.
    pub batches: u32,
    /// Whether the standard error was under the target after the last batch.
    pub converged: bool,
}

/// Whether a state has a starting hand: a soft hand that is no pair holds an
/// ace beside its other card, so it totals 11 or more.
pub open spec fn has_hand(state: PlayerState) -> bool {
    state.is_soft && !state.is_pair ==> state.total >= 11
}

/// The legal actions of one state, each paired with the state.
pub open spec fn state_keys(state: PlayerState) -> Seq<(PlayerState, Action)> {
    Seq::new(
        legal_actions(state.is_pair).len(),
        |j: int| (state, legal_actions(state.is_pair)[j]),
    )
}

/// Every state with each of its legal actions, state by state in the order
/// given.
pub open spec fn task_keys(states: Seq<PlayerState>) -> Seq<(PlayerState, Action)>
    decreases states.len(),
{
    if states.len() == 0 {
        Seq::empty()
    } else {
        task_keys(states.drop_last()) + state_keys(states.last())
    }
}

/// How many entries from position `from` onwards have not converged.
pub open spec fn pending_from(table: Seq<StatsEntry>, from: int) -> nat
    decreases table.len() - from,
{
    if from < 0 || from >= table.len() {
        0
    } else {
        pending_from(table, from + 1) + if table[from].converged {
            0nat
        } else {
            1nat
        }
    }
}

/// How many entries before position `i` have not converged: the place of
/// entry `i` among the pending ones.
pub open spec fn pending_rank(table: Seq<StatsEntry>, i: int) -> int {
    pending_from(table, 0) - pending_from(table, i)
}

/// Whether a task is the batch to run for an entry.
pub open spec fn task_matches(task: SimulationTask, entry: StatsEntry) -> bool {
    &&& task.state == entry.state
    &&& task.action == entry.action
    &&& task.hand@ == state_cards(entry.state.total, entry.state.is_soft, entry.state.is_pair)
}

/// The pending count never grows towards the end of the table.
pub proof fn lemma_pending_from_monotonic(table: Seq<StatsEntry>, i: int, j: int)
    requires
        0 <= i <= j <= table.len(),
    ensures
        pending_from(table, j) <= pending_from(table, i),
    decreases j - i,
{
    if i < j {
        lemma_pending_from_monotonic(table, i + 1, j);
    }
}

/// The table to start from: one entry with an empty record for each legal
/// action of each state.
pub fn initial_table(states: &Vec<PlayerState>) -> (table: Vec<StatsEntry>)
    ensures
        table@.len() == task_keys(states@).len(),
        forall|i: int|
            0 <= i < table@.len() ==> {
                &&& (#[trigger] table@[i]).state == task_keys(states@)[i].0
                &&& table@[i].action == task_keys(states@)[i].1
                &&& table@[i].stats@ == Tally::empty()
                &&& table@[i].batches == 0
                &&& !table@[i].converged
            },
{
    let mut table: Vec<StatsEntry> = Vec::new();
    let mut i: usize = 0;
    while i < states.len()
        invariant
            i <= states.len(),
            table@.len() == task_keys(states@.take(i as int)).len(),
            forall|m: int|
                0 <= m < table@.len() ==> {
                    &&& (#[trigger] table@[m]).state == task_keys(states@.take(i as int))[m].0
                    &&& table@[m].action == task_keys(states@.take(i as int))[m].1
                    &&& table@[m].stats@ == Tally::empty()
                    &&& table@[m].batches == 0
                    &&& !table@[m].converged
                },
        decreases states.len() - i,
    {
        let state = states[i];
        let actions = Action::valid_actions(state.is_pair);
        let ghost done = task_keys(states@.take(i as int));
        assert(states@.take(i + 1).drop_last() =~= states@.take(i as int));
        assert(task_keys(states@.take(i + 1)) == done + state_keys(state));
        let mut j: usize = 0;
        while j < actions.len()
            invariant
                j <= actions.len(),
                i < states.len(),
                state == states@[i as int],
                actions@ == legal_actions(state.is_pair),
                done == task_keys(states@.take(i as int)),
                task_keys(states@.take(i + 1)) == done + state_keys(state),
                table@.len() == done.len() + j,
                forall|m: int|
                    0 <= m < table@.len() ==> {
                        &&& (#[trigger] table@[m]).state == task_keys(states@.take(i + 1))[m].0
                        &&& table@[m].action == task_keys(states@.take(i + 1))[m].1
                        &&& table@[m].stats@ == Tally::empty()
                        &&& table@[m].batches == 0
                        &&& !table@[m].converged
                    },
            decreases actions.len() - j,
        {
            table.push(
                StatsEntry {
                    state,
                    action: actions[j],
                    stats: ActionStats::new(),
                    batches: 0,
                    converged: false,
                },
            );
            j += 1;
        }
        i += 1;
    }
    assert(states@.take(i as int) =~= states@);
    table
}

/// The batches to run next: one task for each entry that has not converged,
/// in the order of the table.
pub fn pending_tasks(table: &Vec<StatsEntry>) -> (tasks: Vec<SimulationTask>)
    requires
        forall|i: int| 0 <= i < table@.len() ==> has_hand(#[trigger] table@[i].state),
    ensures
        tasks@.len() == pending_from(table@, 0),
        forall|i: int|
            0 <= i < table@.len() && !(#[trigger] table@[i]).converged ==> {
                &&& 0 <= pending_rank(table@, i) < tasks@.len()
                &&& task_matches(tasks@[pending_rank(table@, i)], table@[i])
            },
{
    let mut tasks: Vec<SimulationTask> = Vec::new();
    let mut i: usize = 0;
    while i < table.len()
        invariant
            i <= table.len(),
            forall|m: int| 0 <= m < table@.len() ==> has_hand(#[trigger] table@[m].state),
            tasks@.len() == pending_rank(table@, i as int),
            forall|m: int|
                0 <= m < i && !(#[trigger] table@[m]).converged ==> {
                    &&& 0 <= pending_rank(table@, m) < tasks@.len()
                    &&& task_matches(tasks@[pending_rank(table@, m)], table@[m])
                },
        decreases table.len() - i,
    {
        let entry = table[i];
        proof {
            lemma_pending_from_monotonic(table@, 0, i as int);
        }
        if !entry.converged {
            let hand = get_hand_for_state(
                entry.state.total,
                entry.state.is_soft,
                entry.state.is_pair,
            );
            tasks.push(SimulationTask { state: entry.state, action: entry.action, hand });
        }
        i += 1;
    }
    tasks
}

/// Whether the batch of a task can be run.
pub open spec fn task_playable(task: SimulationTask) -> bool {
    playable(task.hand@, task.action)
}

/// Whether every item of `cards` is a card that the deck deals.
pub open spec fn all_cards(cards: Seq<u8>) -> bool {
    forall|i: int| 0 <= i < cards.len() ==> is_card(#[trigger] cards[i])
}

/// Whether `tally` can be what one batch comes to: the tally of `batch_size`
/// playouts of `action` from `hand` that, one after the other, take all of
/// some run of cards.
pub open spec fn is_batch_tally(
    hand: Seq<u8>,
    dealer_upcard: u8,
    action: Action,
    batch_size: u32,
    tally: Tally,
) -> bool {
    exists|cards: Seq<u8>|
        all_cards(cards) && #[trigger] batch_outcome(
            hand,
            dealer_upcard,
            action,
            cards,
            0,
            batch_size as nat,
        ) == (BatchOutcome { tally, next: cards.len() as int })
}

/// Whether `stats` can be the record of the task's batch.
pub open spec fn batch_record(task: SimulationTask, batch_size: u32, stats: ActionStats) -> bool {
    &&& stats.wf()
    &&& stats.n == batch_size
    &&& is_batch_tally(task.hand@, task.state.dealer_upcard, task.action, batch_size, stats@)
}

/// Whether `tally` can be what `batches` batches for one action of one state
/// come to when merged, each played from the hand that stands for the state,
/// and each merged only while the standard error was not yet under the
/// target.
pub open spec fn made_of_batches(
    state: PlayerState,
    action: Action,
    batch_size: u32,
    target_millis: u32,
    batches: nat,
    tally: Tally,
) -> bool
    decreases batches,
{
    if batches == 0 {
        tally == Tally::empty()
    } else {
        exists|before: Tally, batch: Tally|
            {
                &&& made_of_batches(
                    state,
                    action,
                    batch_size,
                    target_millis,
                    (batches - 1) as nat,
                    before,
                )
                &&& !before.sem_below(target_millis as nat)
                &&& is_batch_tally(
                    state_cards(state.total, state.is_soft, state.is_pair),
                    state.dealer_upcard,
                    action,
                    batch_size,
                    batch,
                )
                &&& tally == #[trigger] before.merge(batch)
            }
    }
}

/// Runs the batch of one task on an engine of its own and returns its record.
pub fn simulate_task(task: &SimulationTask, batch_size: u32) -> (stats: ActionStats)
    requires
        task_playable(*task),
    ensures
        batch_record(*task, batch_size, stats),
{
    let mut engine = BlackjackEngine::new();
    match engine.simulate_batch(&task.hand, task.state.dealer_upcard, task.action, batch_size) {
        Ok(stats) => {
            proof {
                let cards = engine.dealt();
                assert(extends(cards, cards));
                assert(all_cards(cards));
                assert(batch_outcome(
                    task.hand@,
                    task.state.dealer_upcard,
                    task.action,
                    cards,
                    0,
                    batch_size as nat,
                ) == (BatchOutcome { tally: stats@, next: cards.len() as int }));
                assert(is_batch_tally(
                    task.hand@,
                    task.state.dealer_upcard,
                    task.action,
                    batch_size,
                    stats@,
                ));
            }
            stats
        },
        Err(_) => ActionStats::new(),
    }
}

/// Runs the batch of every task, spread over rayon's worker threads, with
/// `par_iter`, `map` and `collect` of rayon's `ParallelIterator`. The claim is
/// that the records come back one for each task and in the tasks' order, each
/// being what `simulate_task` returned for its task, of which only what
/// `simulate_task` itself ensures is known.
#[verifier::external_body]
fn run_batches(tasks: &Vec<SimulationTask>, batch_size: u32) -> (results: Vec<ActionStats>)
    requires
        forall|k: int| 0 <= k < tasks@.len() ==> task_playable(#[trigger] tasks@[k]),
    ensures
        results@.len() == tasks@.len(),
        forall|k: int|
            0 <= k < results@.len() ==> batch_record(tasks@[k], batch_size, #[trigger] results@[k]),
{
    tasks.par_iter().map(|task| simulate_task(task, batch_size)).collect()
}

/// What an entry becomes when the record of one more batch is merged into it:
/// the batch is counted, and the entry has converged where the standard error
/// of the merged record is under the target.
pub open spec fn absorbed(
    after: StatsEntry,
    before: StatsEntry,
    result: Tally,
    target_millis: u32,
) -> bool {
    &&& after.state == before.state
    &&& after.action == before.action
    &&& after.stats@ == before.stats@.merge(result)
    &&& after.batches == before.batches + 1
    &&& after.converged == after.stats@.sem_below(target_millis as nat)
}

/// Merges the records of one round into the table and marks what has
/// converged. The records are those of the pending entries, in the order of
/// the table; an entry that had converged before stays as it is.
pub fn absorb_results(
    table: &mut Vec<StatsEntry>,
    results: &Vec<ActionStats>,
    target_millis: u32,
)
    requires
        results@.len() == pending_from(old(table)@, 0),
        forall|k: int| 0 <= k < results@.len() ==> (#[trigger] results@[k]).wf(),
        forall|i: int|
            0 <= i < old(table)@.len() && !(#[trigger] old(table)@[i]).converged ==> {
                &&& old(table)@[i].stats.wf()
                &&& old(table)@[i].batches < u32::MAX
                &&& 0 <= pending_rank(old(table)@, i) < results@.len() ==> old(table)@[i].stats.n
                    + results@[pending_rank(old(table)@, i)].n <= u64::MAX
            },
    ensures
        final(table)@.len() == old(table)@.len(),
        forall|i: int|
            0 <= i < old(table)@.len() ==> if (#[trigger] old(table)@[i]).converged {
                final(table)@[i] == old(table)@[i]
            } else {
                &&& 0 <= pending_rank(old(table)@, i) < results@.len()
                &&& absorbed(
                    final(table)@[i],
                    old(table)@[i],
                    results@[pending_rank(old(table)@, i)]@,
                    target_millis,
                )
                &&& final(table)@[i].stats.wf()
            },
{
    let ghost first = table@;
    let mut next: usize = 0;
    let mut i: usize = 0;
    while i < table.len()
        invariant
            first == old(table)@,
            table@.len() == first.len(),
            i <= table@.len(),
            results@.len() == pending_from(first, 0),
            next == pending_rank(first, i as int),
            forall|k: int| 0 <= k < results@.len() ==> (#[trigger] results@[k]).wf(),
            forall|m: int|
                0 <= m < first.len() && !(#[trigger] first[m]).converged ==> {
                    &&& first[m].stats.wf()
                    &&& first[m].batches < u32::MAX
                    &&& 0 <= pending_rank(first, m) < results@.len() ==> first[m].stats.n
                        + results@[pending_rank(first, m)].n <= u64::MAX
                },
            forall|m: int| i <= m < first.len() ==> table@[m] == first[m],
            forall|m: int|
                0 <= m < i ==> if (#[trigger] first[m]).converged {
                    table@[m] == first[m]
                } else {
                    &&& 0 <= pending_rank(first, m) < results@.len()
                    &&& absorbed(
                        table@[m],
                        first[m],
                        results@[pending_rank(first, m)]@,
                        target_millis,
                    )
                    &&& table@[m].stats.wf()
                },
        decreases table.len() - i,
    {
        let mut entry: StatsEntry = table[i];
        proof {
            lemma_pending_from_monotonic(first, 0, i as int);
        }
        if !entry.converged {
            assert(!first[i as int].converged);
            assert(next < results.len());
            let mut stats: ActionStats = entry.stats;
            stats.merge(&results[next]);
            entry.stats = stats;
            entry.batches = entry.batches + 1;
            entry.converged = stats.sem_below(target_millis);
            table.set(i, entry);
            next += 1;
        }
        i += 1;
    }
}

/// What holds of an entry after `rounds` rounds of batches of `batch_size`
/// playouts: its record is that of a whole number of batches played for its
/// state and action, none of them after it had converged; it has converged
/// exactly where its standard error is under the target; and it was in every
/// round so far unless it has converged.
pub open spec fn entry_settled(
    entry: StatsEntry,
    target_millis: u32,
    batch_size: u32,
    rounds: u32,
) -> bool {
    &&& entry.stats.wf()
    &&& entry.stats.n == entry.batches * batch_size
    &&& made_of_batches(
        entry.state,
        entry.action,
        batch_size,
        target_millis,
        entry.batches as nat,
        entry.stats@,
    )
    &&& entry.batches <= rounds
    &&& entry.converged == entry.stats@.sem_below(target_millis as nat)
    &&& !entry.converged ==> entry.batches == rounds
}

/// Estimates every legal action of every state.
///
/// Each round runs one batch of `batch_size` playouts for every entry that
/// has not converged, merges the batches into the table, and marks the
/// entries whose standard error, in bets, is now under `target_millis`
/// thousandths. The rounds end when every entry has converged or
/// `max_iterations` of them were run.
///
/// The table that comes back has one entry for each legal action of each state,
/// in the order of `task_keys`. An entry that has not converged was in every
/// round; running out of rounds is no error.
pub fn run_to_convergence(
    states: &Vec<PlayerState>,
    target_millis: u32,
    batch_size: u32,
    max_iterations: u32,
) -> (table: Vec<StatsEntry>)
    requires
        forall|i: int| 0 <= i < states@.len() ==> has_hand(#[trigger] states@[i]),
    ensures
        table@.len() == task_keys(states@).len(),
        forall|i: int|
            0 <= i < table@.len() ==> {
                &&& (#[trigger] table@[i]).state == task_keys(states@)[i].0
                &&& table@[i].action == task_keys(states@)[i].1
                &&& entry_settled(table@[i], target_millis, batch_size, max_iterations)
            },
{
    let mut table = initial_table(states);
    let ghost keys = task_keys(states@);
    proof {
        lemma_task_keys_legal(states@);
    }
    let mut rounds: u32 = 0;
    while rounds < max_iterations
        invariant
            rounds <= max_iterations,
            keys == task_keys(states@),
            table@.len() == keys.len(),
            forall|i: int|
                0 <= i < keys.len() ==> {
                    &&& has_hand((#[trigger] keys[i]).0)
                    &&& keys[i].1 == Action::Split ==> keys[i].0.is_pair
                },
            forall|i: int|
                0 <= i < table@.len() ==> {
                    &&& (#[trigger] table@[i]).state == keys[i].0
                    &&& table@[i].action == keys[i].1
                    &&& entry_settled(table@[i], target_millis, batch_size, rounds)
                },
        ensures
            rounds == max_iterations || forall|i: int|
                0 <= i < table@.len() ==> (#[trigger] table@[i]).converged,
        decreases max_iterations - rounds,
    {
        let tasks = pending_tasks(&table);
        if tasks.len() == 0 {
            proof {
                lemma_none_pending(table@, 0);
            }
            break ;
        }
        proof {
            assert forall|k: int| 0 <= k < tasks@.len() implies task_playable(
                #[trigger] tasks@[k],
            ) by {
                let i = lemma_pending_at_rank(table@, k);
                assert(task_matches(tasks@[pending_rank(table@, i)], table@[i]));
                assert(keys[i].0 == table@[i].state);
            }
        }
        let results = run_batches(&tasks, batch_size);
        proof {
            assert forall|i: int|
                0 <= i < table@.len() && !(#[trigger] table@[i]).converged implies table@[i].stats.n
                + results@[pending_rank(table@, i)].n <= u64::MAX by {
                assert(table@[i].batches * batch_size + batch_size <= u64::MAX)
                    by (nonlinear_arith)
                    requires
                        table@[i].batches < u32::MAX,
                        batch_size <= u32::MAX,
                ;
            }
        }
        let ghost before = table@;
        absorb_results(&mut table, &results, target_millis);
        rounds += 1;
        proof {
            assert forall|i: int| 0 <= i < table@.len() implies (#[trigger] table@[i]).state
                == keys[i].0 && table@[i].action == keys[i].1 && entry_settled(
                table@[i],
                target_millis,
                batch_size,
                rounds,
            ) by {
                assert(entry_settled(before[i], target_millis, batch_size, (rounds - 1) as u32));
                if !before[i].converged {
                    let result = results@[pending_rank(before, i)];
                    let task = tasks@[pending_rank(before, i)];
                    assert(absorbed(table@[i], before[i], result@, target_millis));
                    assert(task_matches(task, before[i]));
                    assert(batch_record(task, batch_size, result));
                    assert(table@[i].stats@ == before[i].stats@.merge(result@));
                    assert((before[i].batches + 1) * batch_size == before[i].batches
                        * batch_size + batch_size) by (nonlinear_arith);
                }
            }
        }
    }
    table
}

/// Every key of `task_keys` holds a state of the list and an action that is
/// legal for it.
pub proof fn lemma_task_keys_legal(states: Seq<PlayerState>)
    requires
        forall|i: int| 0 <= i < states.len() ==> has_hand(#[trigger] states[i]),
    ensures
        forall|i: int|
            0 <= i < task_keys(states).len() ==> {
                &&& has_hand((#[trigger] task_keys(states)[i]).0)
                &&& task_keys(states)[i].1 == Action::Split ==> task_keys(states)[i].0.is_pair
            },
    decreases states.len(),
{
    if states.len() > 0 {
        lemma_task_keys_legal(states.drop_last());
    }
}

/// Every key of `task_keys` holds one of the states.
proof fn lemma_task_key_state(states: Seq<PlayerState>, a: int) -> (m: int)
    requires
        0 <= a < task_keys(states).len(),
    ensures
        0 <= m < states.len(),
        task_keys(states)[a].0 == states[m],
    decreases states.len(),
{
    let init = states.drop_last();
    if a < task_keys(init).len() {
        lemma_task_key_state(init, a)
    } else {
        states.len() - 1
    }
}

/// Where no state is listed twice, no state and action is: the table holds
/// each pair once.
pub proof fn lemma_task_keys_distinct(states: Seq<PlayerState>)
    requires
        forall|i: int, j: int| 0 <= i < j < states.len() ==> states[i] != states[j],
    ensures
        forall|a: int, b: int|
            0 <= a < b < task_keys(states).len() ==> task_keys(states)[a] != task_keys(
                states,
            )[b],
    decreases states.len(),
{
    if states.len() > 0 {
        let init = states.drop_last();
        let held = task_keys(init).len();
        lemma_task_keys_distinct(init);
        assert forall|a: int, b: int| 0 <= a < b < task_keys(states).len() implies task_keys(
            states,
        )[a] != task_keys(states)[b] by {
            if a < held && held <= b {
                let m = lemma_task_key_state(init, a);
                assert(states[m] != states[states.len() - 1]);
            }
        }
    }
}

/// Where no entry from `from` onwards is pending, each of them has converged.
pub proof fn lemma_none_pending(table: Seq<StatsEntry>, from: int)
    requires
        0 <= from,
        pending_from(table, from) == 0,
    ensures
        forall|i: int| from <= i < table.len() ==> (#[trigger] table[i]).converged,
    decreases table.len() - from,
{
    if from < table.len() {
        lemma_none_pending(table, from + 1);
    }
}

/// Every place among the pending entries is that of some pending entry.
pub proof fn lemma_pending_at_rank(table: Seq<StatsEntry>, k: int) -> (i: int)
    requires
        0 <= k < pending_from(table, 0),
    ensures
        0 <= i < table.len(),
        !table[i].converged,
        pending_rank(table, i) == k,
{
    lemma_pending_search(table, k, 0)
}

/// Searches from `from` for the pending entry at place `k`.
proof fn lemma_pending_search(table: Seq<StatsEntry>, k: int, from: int) -> (i: int)
    requires
        0 <= from <= table.len(),
        pending_rank(table, from) <= k < pending_from(table, 0),
    ensures
        from <= i < table.len(),
        !table[i].converged,
        pending_rank(table, i) == k,
    decreases table.len() - from,
{
    if !table[from].converged && pending_rank(table, from) == k {
        from
    } else {
        lemma_pending_search(table, k, from + 1)
    }
}

/// Whether entry `i` is the best of a state: it is an entry of the state with
/// at least one trial, no entry of the state has a higher mean payoff, and it
/// is the first such entry.
pub open spec fn is_best(table: Seq<StatsEntry>, state: PlayerState, i: int) -> bool {
    &&& 0 <= i < table.len()
    &&& table[i].state == state
    &&& table[i].stats.n > 0
    &&& forall|j: int|
        0 <= j < table.len() && (#[trigger] table[j]).state == state ==> {
            &&& !table[j].stats@.mean_exceeds(table[i].stats@)
            &&& j < i ==> table[i].stats@.mean_exceeds(table[j].stats@)
        }
}

/// Finds the entry with the highest mean payoff among those of `state` that
/// have trials, the first of them where several are level. Where no entry of
/// the state has a trial there is no best one.
pub fn get_best_action(table: &Vec<StatsEntry>, state: PlayerState) -> (best: Option<usize>)
    requires
        forall|j: int| 0 <= j < table@.len() ==> (#[trigger] table@[j]).stats.wf(),
    ensures
        match best {
            Some(i) => is_best(table@, state, i as int),
            None => forall|j: int|
                0 <= j < table@.len() && (#[trigger] table@[j]).state == state
                    ==> table@[j].stats.n == 0,
        },
{
    let mut best: Option<usize> = None;
    let mut k: usize = 0;
    while k < table.len()
        invariant
            k <= table@.len(),
            forall|j: int| 0 <= j < table@.len() ==> (#[trigger] table@[j]).stats.wf(),
            match best {
                Some(i) => {
                    &&& i < k
                    &&& table@[i as int].state == state
                    &&& table@[i as int].stats.n > 0
                    &&& forall|j: int|
                        0 <= j < k && (#[trigger] table@[j]).state == state ==> {
                            &&& !table@[j].stats@.mean_exceeds(table@[i as int].stats@)
                            &&& j < i ==> table@[i as int].stats@.mean_exceeds(table@[j].stats@)
                        }
                },
                None => forall|j: int|
                    0 <= j < k && (#[trigger] table@[j]).state == state ==> table@[j].stats.n
                        == 0,
            },
        decreases table.len() - k,
    {
        let entry: StatsEntry = table[k];
        if entry.state == state && entry.stats.n > 0 {
            match best {
                None => {
                    best = Some(k);
                },
                Some(i) => {
                    let leader: StatsEntry = table[i];
                    if entry.stats.mean_exceeds(&leader.stats) {
                        proof {
                            assert forall|j: int|
                                0 <= j < k && (#[trigger] table@[j]).state
                                    == state implies entry.stats@.mean_exceeds(
                                table@[j].stats@,
                            ) by {
                                if table@[j].stats.n > 0 {
                                    lemma_mean_order_transitive(
                                        entry.stats@,
                                        leader.stats@,
                                        table@[j].stats@,
                                    );
                                }
                            }
                        }
                        best = Some(k);
                    }
                },
            }
        }
        k += 1;
    }
    best
}

} // verus!
