//! What the event data shows the host at each step.
//!
//! The host is handed the event data with every callback and every guard.
//! A [`Sight`] is what that data shows at one moment, and [`following`] is
//! what it shows at each step of a run: what the steps before have made of
//! the start. The contracts of the executable functions name the sights of
//! their steps, so that what a callback can observe is fixed at every step:
//! the model in the old state up to a state change, and in the destination
//! behind it.

use vstd::prelude::*;
use crate::event::Snapshot;
use crate::trace::{Action, Step, run_queues, lemma_run_queues_concat};

verus! {

/// What the event data shows at one moment: what callbacks can observe, the
/// triggers that wait to be queued, and the record of the steps made.
pub struct Sight {
    pub snapshot: Snapshot,
    pub raised: Seq<Seq<char>>,
    pub trace: Seq<Step>,
}

/// What callbacks can observe after the steps of `run`, starting from
/// `view`: each state change in `run` has put the model in its destination,
/// under the attribute `attribute`; nothing else has changed.
pub open spec fn moved_by(view: Snapshot, run: Seq<Step>, attribute: Seq<char>) -> Snapshot
    decreases run.len(),
{
    if run.len() == 0 {
        view
    } else {
        let before = moved_by(view, run.drop_last(), attribute);
        match run.last().action {
            Action::Move { dest } => Snapshot {
                state: dest,
                model: before.model.insert(attribute, dest),
                ..before
            },
            _ => before,
        }
    }
}

/// What the event data shows after the steps of `run`, starting from
/// `start`: the model has moved with the state changes of `run`, the
/// triggers that `run` queued wait behind those that waited, and the record
/// has grown by `run`.
pub open spec fn after(start: Sight, run: Seq<Step>, attribute: Seq<char>, queued: bool) -> Sight {
    Sight {
        snapshot: moved_by(start.snapshot, run, attribute),
        raised: start.raised + run_queues(run, queued),
        trace: start.trace + run,
    }
}

/// What the event data shows at each step of `run`, starting from `start`:
/// at every step, what the steps before it have made of `start`. So a
/// callback ahead of a state change sees the model in the old state, the
/// state change itself starts from the old state, and a callback behind it
/// sees the model in the destination.
pub open spec fn following(start: Sight, run: Seq<Step>, attribute: Seq<char>, queued: bool) -> Seq<Sight> {
    Seq::new(run.len(), |i: int| after(start, run.take(i), attribute, queued))
}

/// Whether no step of `run` is a state change.
pub open spec fn stays(run: Seq<Step>) -> bool {
    forall|i: int| 0 <= i < run.len() ==> !((#[trigger] run[i]).action is Move)
}

/// Steps that change no state leave what callbacks can observe as it was.
pub proof fn lemma_stays_the_same(view: Snapshot, run: Seq<Step>, attribute: Seq<char>)
    requires
        stays(run),
    ensures
        moved_by(view, run, attribute) == view,
    decreases run.len(),
{
    if run.len() > 0 {
        assert forall|i: int| 0 <= i < run.drop_last().len() implies !((#[trigger] run.drop_last()[i]).action
            is Move) by {
            assert(run.drop_last()[i] == run[i]);
        }
        lemma_stays_the_same(view, run.drop_last(), attribute);
        assert(run.last() == run[run.len() - 1]);
    }
}

/// What two runs in sequence make of what callbacks can observe is what
/// the second makes of what the first made.
pub proof fn lemma_moved_by_concat(view: Snapshot, run: Seq<Step>, more: Seq<Step>, attribute: Seq<char>)
    ensures
        moved_by(view, run + more, attribute) == moved_by(moved_by(view, run, attribute), more, attribute),
    decreases more.len(),
{
    if more.len() == 0 {
        assert(run + more =~= run);
    } else {
        lemma_moved_by_concat(view, run, more.drop_last(), attribute);
        assert((run + more).drop_last() =~= run + more.drop_last());
        assert((run + more).last() == more.last());
    }
}

/// Nothing done leaves the data showing what it showed.
pub proof fn lemma_after_nothing(start: Sight, run: Seq<Step>, attribute: Seq<char>, queued: bool)
    requires
        run.len() == 0,
    ensures
        after(start, run, attribute, queued) == start,
{
    assert(start.raised + run_queues(run, queued) =~= start.raised);
    assert(start.trace + run =~= start.trace);
}

/// What two runs in sequence make of what the data shows is what the second
/// makes of what the first made.
pub proof fn lemma_after_concat(start: Sight, run: Seq<Step>, more: Seq<Step>, attribute: Seq<char>, queued: bool)
    ensures
        after(start, run + more, attribute, queued) == after(
            after(start, run, attribute, queued),
            more,
            attribute,
            queued,
        ),
{
    lemma_moved_by_concat(start.snapshot, run, more, attribute);
    lemma_run_queues_concat(run, more, queued);
    assert(start.raised + run_queues(run + more, queued) =~= (start.raised + run_queues(run, queued))
        + run_queues(more, queued));
    assert(start.trace + (run + more) =~= (start.trace + run) + more);
}

/// What the data shows at each step of two runs in sequence: what it
/// shows at each step of the first, then what it shows at each step of the
/// second, which starts from what the first made.
pub proof fn lemma_following_concat(
    start: Sight,
    run: Seq<Step>,
    more: Seq<Step>,
    attribute: Seq<char>,
    queued: bool,
)
    ensures
        following(start, run + more, attribute, queued) == following(start, run, attribute, queued)
            + following(after(start, run, attribute, queued), more, attribute, queued),
{
    let all = following(start, run + more, attribute, queued);
    let parts = following(start, run, attribute, queued) + following(
        after(start, run, attribute, queued),
        more,
        attribute,
        queued,
    );
    assert(all.len() == parts.len());
    assert forall|i: int| 0 <= i < all.len() implies all[i] == parts[i] by {
        if i < run.len() {
            assert((run + more).take(i) =~= run.take(i));
        } else {
            let j = i - run.len();
            assert((run + more).take(i) =~= run + more.take(j));
            lemma_after_concat(start, run, more.take(j), attribute, queued);
        }
    }
    assert(all =~= parts);
}

/// What the data shows at the one step of a run of one step is what it
/// showed at the start.
pub proof fn lemma_following_one(start: Sight, run: Seq<Step>, attribute: Seq<char>, queued: bool)
    requires
        run.len() == 1,
    ensures
        following(start, run, attribute, queued).len() == 1,
        following(start, run, attribute, queued)[0] == start,
{
    lemma_after_nothing(start, run.take(0), attribute, queued);
}

/// During steps that change no state the host is shown the start: at
/// every step what callbacks can observe is what they could observe at the
/// start, the waiting triggers are those that waited and those that the
/// steps before queued, and the record has grown by the steps before.
pub proof fn law_shown_the_start(start: Sight, run: Seq<Step>, attribute: Seq<char>, queued: bool, i: int)
    requires
        stays(run),
        0 <= i < run.len(),
    ensures
        following(start, run, attribute, queued)[i].snapshot == start.snapshot,
        following(start, run, attribute, queued)[i].raised == start.raised + run_queues(run.take(i), queued),
        following(start, run, attribute, queued)[i].trace == start.trace + run.take(i),
{
    assert forall|j: int| 0 <= j < run.take(i).len() implies !((#[trigger] run.take(i)[j]).action is Move) by {
        assert(run.take(i)[j] == run[j]);
    }
    lemma_stays_the_same(start.snapshot, run.take(i), attribute);
}

/// Around the one state change of a run the host is shown the move: up to
/// the state change, the step of the change included, what callbacks can
/// observe is what they could observe at the start; behind it, the same
/// with the model in the destination.
pub proof fn law_shown_the_move(
    start: Sight,
    run: Seq<Step>,
    attribute: Seq<char>,
    queued: bool,
    at: int,
    dest: Seq<char>,
    i: int,
)
    requires
        0 <= at < run.len(),
        run[at].action == (Action::Move { dest }),
        forall|j: int| 0 <= j < run.len() && j != at ==> !((#[trigger] run[j]).action is Move),
        0 <= i < run.len(),
    ensures
        following(start, run, attribute, queued)[i].snapshot == if i <= at {
            start.snapshot
        } else {
            Snapshot { state: dest, model: start.snapshot.model.insert(attribute, dest), ..start.snapshot }
        },
{
    let ahead = run.take(at);
    assert forall|j: int| 0 <= j < ahead.len() implies !((#[trigger] ahead[j]).action is Move) by {
        assert(ahead[j] == run[j]);
    }
    lemma_stays_the_same(start.snapshot, ahead, attribute);
    if i <= at {
        assert forall|j: int| 0 <= j < run.take(i).len() implies !((#[trigger] run.take(i)[j]).action is Move) by {
            assert(run.take(i)[j] == run[j]);
        }
        lemma_stays_the_same(start.snapshot, run.take(i), attribute);
    } else {
        let through = run.take(at + 1);
        let behind = run.subrange(at + 1, i);
        assert(through.drop_last() =~= ahead);
        assert(through.last() == run[at]);
        let landed = moved_by(start.snapshot, through, attribute);
        assert(landed == Snapshot {
            state: dest,
            model: start.snapshot.model.insert(attribute, dest),
            ..start.snapshot
        });
        assert forall|j: int| 0 <= j < behind.len() implies !((#[trigger] behind[j]).action is Move) by {
            assert(behind[j] == run[at + 1 + j]);
        }
        assert(run.take(i) =~= through + behind);
        lemma_moved_by_concat(start.snapshot, through, behind, attribute);
        lemma_stays_the_same(landed, behind, attribute);
    }
}

} // verus!
