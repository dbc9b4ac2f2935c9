//! What the engine consumes from its host.

use vstd::prelude::*;
use crate::error::Error;
use crate::event::EventData;
use crate::sight::{Sight, after, following, lemma_following_concat, lemma_following_one};
use crate::support::texts;
use crate::trace::{Action, Reply, Step};

verus! {

/// The host's side of the engine: the callables behind the identifiers that
/// states, transitions and the machine carry.
///
/// Identifiers are resolved each time a callback is due, never once at
/// registration, so a host that rebinds an identifier is honoured from the
/// next invocation on. The engine assumes nothing of what a host answers: its
/// contracts hold for every implementation.
pub trait Host {
    /// Whether `identifier` names a callable right now.
    fn resolves(&self, identifier: &str, event_data: &EventData) -> bool;

    /// Runs the callback `identifier`. The names returned are the triggers
    /// that the callback raises on the model of `event_data`, in order.
    fn invoke(&mut self, identifier: &str, event_data: &EventData) -> Result<Vec<String>, Error>;

    /// Evaluates the predicate `identifier`.
    fn test(&mut self, identifier: &str, event_data: &EventData) -> Result<bool, Error>;
}


/// Whether `found` is an answer that `host` can give when it is asked to
/// resolve `identifier`.
pub open spec fn resolves_to<H: Host>(host: &H, identifier: Seq<char>, event_data: &EventData, found: bool) -> bool {
    exists|text: &str|
        text@ == identifier && #[trigger] call_ensures(H::resolves, (host, text, event_data), found)
}


/// The reply that the engine records for what a callback handed back.
pub open spec fn reply_of_callback(given: Result<Vec<String>, Error>) -> Reply {
    match given {
        Ok(names) => Reply::Done { raised: texts(names@) },
        Err(error) => Reply::Raised { error },
    }
}

/// The reply that the engine records for what a predicate handed back.
pub open spec fn reply_of_predicate(given: Result<bool, Error>) -> Reply {
    match given {
        Ok(value) => Reply::Answer { value },
        Err(error) => Reply::Raised { error },
    }
}

/// Whether the step is one at which the host's callable ran: a call or a
/// question whose identifier the host resolved.
pub open spec fn reaches_host(step: Step) -> bool {
    !(step.action is Move) && !(step.reply is Unresolved)
}

/// Whether the reply of `step` is what the host handed back when the engine
/// reached it through `via`, with the host as it was in `before` and with
/// `data` as the event data: the host's `invoke` for a call, its `test` for
/// a question.
pub open spec fn answered<H: Host>(via: &mut H, before: H, data: EventData, step: Step) -> bool {
    &&& mut_ref_current(via) == before
    &&& match step.action {
        Action::Call { callback } => exists|text: &str, given: Result<Vec<String>, Error>|
            text@ == callback && #[trigger] call_ensures(H::invoke, (via, text, &data), given)
                && step.reply == reply_of_callback(given),
        Action::Guard { predicate, .. } => exists|text: &str, given: Result<bool, Error>|
            text@ == predicate && #[trigger] call_ensures(H::test, (via, text, &data), given)
                && step.reply == reply_of_predicate(given),
        Action::Move { .. } => false,
    }
}

/// Whether the steps of `run` were put to the host one after the other:
/// `hosts` holds the host before each step and behind the last, `datas` the
/// event data that the host was handed at each step, and `sights` what that
/// data had to show.
///
/// The data of each step shows what `sights` holds for the step. A state
/// change leaves the host alone. At every other step the host was asked to
/// resolve the identifier, and the step is unresolved exactly when it
/// answered that it cannot, which leaves the host as it was.
pub open spec fn asked<H: Host>(
    hosts: Seq<H>,
    datas: Seq<EventData>,
    first: H,
    sights: Seq<Sight>,
    run: Seq<Step>,
) -> bool {
    &&& hosts.len() == run.len() + 1
    &&& datas.len() == run.len()
    &&& sights.len() == run.len()
    &&& hosts[0] == first
    &&& forall|i: int|
        0 <= i < run.len() ==> {
            &&& (#[trigger] datas[i]).sight() == sights[i]
            &&& run[i].action is Move ==> hosts[i + 1] == hosts[i]
            &&& !(run[i].action is Move) ==> resolves_to(
                &hosts[i],
                run[i].action.identifier(),
                &datas[i],
                !(run[i].reply is Unresolved),
            )
            &&& run[i].reply is Unresolved ==> hosts[i + 1] == hosts[i]
        }
}

/// One step was put to the host: `hosts` holds the host before and behind
/// the step, `datas` the event data of the step, `run` the step.
pub proof fn lemma_asked_once<H: Host>(hosts: Seq<H>, datas: Seq<EventData>, sights: Seq<Sight>, run: Seq<Step>)
    requires
        hosts.len() == 2,
        datas.len() == 1,
        sights.len() == 1,
        sights[0] == datas[0].sight(),
        run.len() == 1,
        run[0].action is Move ==> hosts[1] == hosts[0],
        !(run[0].action is Move) ==> resolves_to(
            &hosts[0],
            run[0].action.identifier(),
            &datas[0],
            !(run[0].reply is Unresolved),
        ),
        run[0].reply is Unresolved ==> hosts[1] == hosts[0],
        reaches_host(run[0]) ==> exists|via: &mut H|
            mut_ref_future(via) == hosts[1] && #[trigger] answered(via, hosts[0], datas[0], run[0]),
    ensures
        asked(hosts, datas, hosts[0], sights, run),
        forall|i: int|
            0 <= i < run.len() && reaches_host(#[trigger] run[i]) ==> exists|via: &mut H|
                mut_ref_future(via) == hosts[i + 1] && #[trigger] answered(via, hosts[i], datas[i], run[i]),
{
}

/// Steps that were put to the host, followed by more steps that were put to
/// it from where the first left it, were put to the host one after the
/// other.
pub proof fn lemma_asked_then<H: Host>(
    hosts: Seq<H>,
    datas: Seq<EventData>,
    more_hosts: Seq<H>,
    more_datas: Seq<EventData>,
    first: H,
    sights: Seq<Sight>,
    more_sights: Seq<Sight>,
    run: Seq<Step>,
    more: Seq<Step>,
)
    requires
        asked(hosts, datas, first, sights, run),
        forall|i: int|
            0 <= i < run.len() && reaches_host(#[trigger] run[i]) ==> exists|via: &mut H|
                mut_ref_future(via) == hosts[i + 1] && #[trigger] answered(via, hosts[i], datas[i], run[i]),
        asked(more_hosts, more_datas, hosts.last(), more_sights, more),
        forall|i: int|
            0 <= i < more.len() && reaches_host(#[trigger] more[i]) ==> exists|via: &mut H|
                mut_ref_future(via) == more_hosts[i + 1] && #[trigger] answered(
                    via,
                    more_hosts[i],
                    more_datas[i],
                    more[i],
                ),
    ensures
        asked(hosts.drop_last() + more_hosts, datas + more_datas, first, sights + more_sights, run + more),
        (hosts.drop_last() + more_hosts).last() == more_hosts.last(),
        forall|i: int|
            0 <= i < (run + more).len() && reaches_host(#[trigger] (run + more)[i]) ==> exists|via: &mut H|
                mut_ref_future(via) == (hosts.drop_last() + more_hosts)[i + 1] && #[trigger] answered(
                    via,
                    (hosts.drop_last() + more_hosts)[i],
                    (datas + more_datas)[i],
                    (run + more)[i],
                ),
{
    let all_hosts = hosts.drop_last() + more_hosts;
    let all_datas = datas + more_datas;
    let all_sights = sights + more_sights;
    let all = run + more;
    let n = run.len() as int;
    assert forall|i: int| 0 <= i < all.len() implies {
        &&& (#[trigger] all_datas[i]).sight() == all_sights[i]
        &&& all[i].action is Move ==> all_hosts[i + 1] == all_hosts[i]
        &&& !(all[i].action is Move) ==> resolves_to(
            &all_hosts[i],
            all[i].action.identifier(),
            &all_datas[i],
            !(all[i].reply is Unresolved),
        )
        &&& all[i].reply is Unresolved ==> all_hosts[i + 1] == all_hosts[i]
    } by {
        if i < n {
            assert(all[i] == run[i]);
            assert(all_datas[i] == datas[i]);
            assert(all_sights[i] == sights[i]);
            assert(all_hosts[i] == hosts[i]);
            assert(all_hosts[i + 1] == hosts[i + 1]);
        } else {
            let j = i - n;
            assert(all[i] == more[j]);
            assert(all_datas[i] == more_datas[j]);
            assert(all_sights[i] == more_sights[j]);
            assert(all_hosts[i] == more_hosts[j]);
            assert(all_hosts[i + 1] == more_hosts[j + 1]);
        }
    }
    assert forall|i: int| 0 <= i < all.len() && reaches_host(#[trigger] all[i]) implies exists|via: &mut H|
        mut_ref_future(via) == all_hosts[i + 1] && #[trigger] answered(via, all_hosts[i], all_datas[i], all[i]) by {
        if i < n {
            assert(all[i] == run[i]);
            assert(reaches_host(run[i]));
            let via = choose|via: &mut H|
                mut_ref_future(via) == hosts[i + 1] && #[trigger] answered(via, hosts[i], datas[i], run[i]);
            assert(all_hosts[i] == hosts[i]);
            assert(all_hosts[i + 1] == hosts[i + 1]);
            assert(all_datas[i] == datas[i]);
            assert(answered(via, all_hosts[i], all_datas[i], all[i]));
        } else {
            let j = i - n;
            assert(all[i] == more[j]);
            assert(reaches_host(more[j]));
            let via = choose|via: &mut H|
                mut_ref_future(via) == more_hosts[j + 1] && #[trigger] answered(
                    via,
                    more_hosts[j],
                    more_datas[j],
                    more[j],
                );
            assert(all_hosts[i] == more_hosts[j]);
            assert(all_hosts[i + 1] == more_hosts[j + 1]);
            assert(all_datas[i] == more_datas[j]);
            assert(answered(via, all_hosts[i], all_datas[i], all[i]));
        }
    }
}

/// Nothing was put to the host, which is as it was.
pub proof fn lemma_linked_nothing<H: Host>(host: H, sights: Seq<Sight>, run: Seq<Step>)
    requires
        run.len() == 0,
        sights.len() == 0,
    ensures
        exists|hosts: Seq<H>, datas: Seq<EventData>|
            #[trigger] asked(hosts, datas, host, sights, run) && hosts.last() == host && forall|i: int|
                0 <= i < run.len() && reaches_host(#[trigger] run[i]) ==> exists|via: &mut H|
                    mut_ref_future(via) == hosts[i + 1] && #[trigger] answered(via, hosts[i], datas[i], run[i]),
{
    let hosts = seq![host];
    let datas = Seq::<EventData>::empty();
    assert(asked(hosts, datas, host, sights, run));
}

/// One step was put to the host, which it took from `before` to `after`,
/// with `data` as the event data.
pub proof fn lemma_linked_once<H: Host>(before: H, after: H, data: EventData, sights: Seq<Sight>, run: Seq<Step>)
    requires
        run.len() == 1,
        sights.len() == 1,
        sights[0] == data.sight(),
        run[0].action is Move ==> after == before,
        !(run[0].action is Move) ==> resolves_to(
            &before,
            run[0].action.identifier(),
            &data,
            !(run[0].reply is Unresolved),
        ),
        run[0].reply is Unresolved ==> after == before,
        reaches_host(run[0]) ==> exists|via: &mut H|
            mut_ref_future(via) == after && #[trigger] answered(via, before, data, run[0]),
    ensures
        exists|hosts: Seq<H>, datas: Seq<EventData>|
            #[trigger] asked(hosts, datas, before, sights, run) && hosts.last() == after && forall|i: int|
                0 <= i < run.len() && reaches_host(#[trigger] run[i]) ==> exists|via: &mut H|
                    mut_ref_future(via) == hosts[i + 1] && #[trigger] answered(via, hosts[i], datas[i], run[i]),
{
    let hosts = seq![before, after];
    let datas = seq![data];
    lemma_asked_once(hosts, datas, sights, run);
    assert(asked(hosts, datas, before, sights, run));
}

/// Steps that took the host from `first` to `middle`, followed by steps that
/// took it from `middle` to `last`, took it from `first` to `last`.
pub proof fn lemma_linked_then<H: Host>(
    first: H,
    middle: H,
    last: H,
    sights: Seq<Sight>,
    more_sights: Seq<Sight>,
    all_sights: Seq<Sight>,
    run: Seq<Step>,
    more: Seq<Step>,
    all: Seq<Step>,
)
    requires
        all == run + more,
        all_sights == sights + more_sights,
        exists|hosts: Seq<H>, datas: Seq<EventData>|
            #[trigger] asked(hosts, datas, first, sights, run) && hosts.last() == middle && forall|i: int|
                0 <= i < run.len() && reaches_host(#[trigger] run[i]) ==> exists|via: &mut H|
                    mut_ref_future(via) == hosts[i + 1] && #[trigger] answered(via, hosts[i], datas[i], run[i]),
        exists|hosts: Seq<H>, datas: Seq<EventData>|
            #[trigger] asked(hosts, datas, middle, more_sights, more) && hosts.last() == last && forall|i: int|
                0 <= i < more.len() && reaches_host(#[trigger] more[i]) ==> exists|via: &mut H|
                    mut_ref_future(via) == hosts[i + 1] && #[trigger] answered(via, hosts[i], datas[i], more[i]),
    ensures
        exists|hosts: Seq<H>, datas: Seq<EventData>|
            #[trigger] asked(hosts, datas, first, all_sights, all) && hosts.last() == last && forall|i: int|
                0 <= i < all.len() && reaches_host(#[trigger] all[i]) ==> exists|via: &mut H|
                    mut_ref_future(via) == hosts[i + 1] && #[trigger] answered(via, hosts[i], datas[i], all[i]),
{
    let (hosts, datas) = choose|hosts: Seq<H>, datas: Seq<EventData>|
        #[trigger] asked(hosts, datas, first, sights, run) && hosts.last() == middle && forall|i: int|
            0 <= i < run.len() && reaches_host(#[trigger] run[i]) ==> exists|via: &mut H|
                mut_ref_future(via) == hosts[i + 1] && #[trigger] answered(via, hosts[i], datas[i], run[i]);
    let (more_hosts, more_datas) = choose|hosts: Seq<H>, datas: Seq<EventData>|
        #[trigger] asked(hosts, datas, middle, more_sights, more) && hosts.last() == last && forall|i: int|
            0 <= i < more.len() && reaches_host(#[trigger] more[i]) ==> exists|via: &mut H|
                mut_ref_future(via) == hosts[i + 1] && #[trigger] answered(via, hosts[i], datas[i], more[i]);
    lemma_asked_then(hosts, datas, more_hosts, more_datas, first, sights, more_sights, run, more);
    let all_hosts = hosts.drop_last() + more_hosts;
    let all_datas = datas + more_datas;
    assert(asked(all_hosts, all_datas, first, all_sights, all));
}


/// One more step: steps that took the host from `first` to `before`, with
/// the data showing at each what the steps before it had made of `start`,
/// followed by a step that took the host on to `last` with `data` as the
/// event data, took the host from `first` to `last`.
pub proof fn lemma_linked_push<H: Host>(
    first: H,
    before: H,
    last: H,
    start: Sight,
    data: EventData,
    run: Seq<Step>,
    step: Step,
    attribute: Seq<char>,
    queued: bool,
)
    requires
        exists|hosts: Seq<H>, datas: Seq<EventData>|
            #[trigger] asked(hosts, datas, first, following(start, run, attribute, queued), run) && hosts.last() == before && forall|i: int|
                0 <= i < run.len() && reaches_host(#[trigger] run[i]) ==> exists|via: &mut H|
                    mut_ref_future(via) == hosts[i + 1] && #[trigger] answered(via, hosts[i], datas[i], run[i]),
        data.sight() == after(start, run, attribute, queued),
        step.action is Move ==> last == before,
        !(step.action is Move) ==> resolves_to(
            &before,
            step.action.identifier(),
            &data,
            !(step.reply is Unresolved),
        ),
        step.reply is Unresolved ==> last == before,
        reaches_host(step) ==> exists|via: &mut H|
            mut_ref_future(via) == last && #[trigger] answered(via, before, data, step),
    ensures
        exists|hosts: Seq<H>, datas: Seq<EventData>|
            #[trigger] asked(hosts, datas, first, following(start, run.push(step), attribute, queued), run.push(step)) && hosts.last() == last && forall|i: int|
                0 <= i < run.push(step).len() && reaches_host(#[trigger] run.push(step)[i]) ==> exists|via: &mut H|
                    mut_ref_future(via) == hosts[i + 1] && #[trigger] answered(via, hosts[i], datas[i], run.push(step)[i]),
{
    let one = seq![step];
    let sights = following(after(start, run, attribute, queued), one, attribute, queued);
    lemma_following_one(after(start, run, attribute, queued), one, attribute, queued);
    lemma_linked_once(before, last, data, sights, one);
    lemma_following_concat(start, run, one, attribute, queued);
    assert(run.push(step) =~= run + one);
    lemma_linked_then(
        first,
        before,
        last,
        following(start, run, attribute, queued),
        sights,
        following(start, run.push(step), attribute, queued),
        run,
        one,
        run.push(step),
    );
}

/// One more stage: steps that took the host from `first` to `middle`, and
/// made `middle_sight` of what the data showed, followed by steps that took
/// it from `middle` to `last`, took it from `first` to `last`.
pub proof fn lemma_linked_stage<H: Host>(
    first: H,
    middle: H,
    last: H,
    start: Sight,
    middle_sight: Sight,
    run: Seq<Step>,
    more: Seq<Step>,
    all: Seq<Step>,
    attribute: Seq<char>,
    queued: bool,
)
    requires
        all == run + more,
        middle_sight == after(start, run, attribute, queued),
        exists|hosts: Seq<H>, datas: Seq<EventData>|
            #[trigger] asked(hosts, datas, first, following(start, run, attribute, queued), run) && hosts.last() == middle && forall|i: int|
                0 <= i < run.len() && reaches_host(#[trigger] run[i]) ==> exists|via: &mut H|
                    mut_ref_future(via) == hosts[i + 1] && #[trigger] answered(via, hosts[i], datas[i], run[i]),
        exists|hosts: Seq<H>, datas: Seq<EventData>|
            #[trigger] asked(hosts, datas, middle, following(middle_sight, more, attribute, queued), more) && hosts.last() == last && forall|i: int|
                0 <= i < more.len() && reaches_host(#[trigger] more[i]) ==> exists|via: &mut H|
                    mut_ref_future(via) == hosts[i + 1] && #[trigger] answered(via, hosts[i], datas[i], more[i]),
    ensures
        exists|hosts: Seq<H>, datas: Seq<EventData>|
            #[trigger] asked(hosts, datas, first, following(start, all, attribute, queued), all) && hosts.last() == last && forall|i: int|
                0 <= i < all.len() && reaches_host(#[trigger] all[i]) ==> exists|via: &mut H|
                    mut_ref_future(via) == hosts[i + 1] && #[trigger] answered(via, hosts[i], datas[i], all[i]),
{
    lemma_following_concat(start, run, more, attribute, queued);
    lemma_linked_then(
        first,
        middle,
        last,
        following(start, run, attribute, queued),
        following(middle_sight, more, attribute, queued),
        following(start, all, attribute, queued),
        run,
        more,
        all,
    );
}

} // verus!
