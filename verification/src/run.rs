//! Running a shell command in a worktree: the events a run reports, and
//! how a batch of them advances the run's shown output and outcome.
use vstd::prelude::*;

verus! {

broadcast use vstd::seq_lib::group_seq_properties;

/// What a running command reports, in order: that it started, each line of
/// its combined output, and how it finished.
#[derive(Debug, Clone, PartialEq, Eq)]
pub enum CommandEvent {
    Started { command: String },
    /// One line of combined stdout/stderr, in arrival order.
    Output { line: String },
    Finished { success: bool, code: Option<i32> },
}

/// One message from a run in the background: an event, or the end of the
/// run (an error when the command could not be started or waited on).
#[derive(Debug, PartialEq, Eq)]
pub enum RunStreamMsg {
    Event(CommandEvent),
    Done(Result<(), String>),
}

/// How a run ended.
#[derive(Debug, Clone, PartialEq, Eq)]
pub enum RunOutcome {
    Finished { success: bool, code: Option<i32> },
    StartFailed(String),
}

/// The output lines `batch` carries, in order.
pub open spec fn stream_lines(batch: Seq<RunStreamMsg>) -> Seq<String>
    decreases batch.len(),
{
    if batch.len() == 0 {
        Seq::empty()
    } else {
        let init = stream_lines(batch.drop_last());
        match batch.last() {
            RunStreamMsg::Event(CommandEvent::Output { line }) => init.push(line),
            _ => init,
        }
    }
}

/// The outcome after `batch`, from `outcome` before it: a finish report
/// sets it; a failed end sets it only when nothing has yet.
pub open spec fn stream_outcome(outcome: Option<RunOutcome>, batch: Seq<RunStreamMsg>) -> Option<RunOutcome>
    decreases batch.len(),
{
    if batch.len() == 0 {
        outcome
    } else {
        let prev = stream_outcome(outcome, batch.drop_last());
        match batch.last() {
            RunStreamMsg::Event(CommandEvent::Finished { success, code }) => Some(RunOutcome::Finished { success, code }),
            RunStreamMsg::Done(Err(e)) => if prev.is_none() {
                Some(RunOutcome::StartFailed(e))
            } else {
                prev
            },
            _ => prev,
        }
    }
}

/// Advances a run by a batch of messages: the output lines to append, in
/// order, and the new outcome; see [`stream_outcome`].
pub fn apply_run_stream(outcome: Option<RunOutcome>, batch: Vec<RunStreamMsg>) -> (r: (Vec<String>, Option<RunOutcome>))
    ensures
        r.0@ == stream_lines(batch@),
        r.1 == stream_outcome(outcome, batch@),
{
    let ghost all = batch@;
    let ghost start = outcome;
    let mut lines: Vec<String> = Vec::new();
    let mut out = outcome;
    let mut rest = batch;
    let ghost mut i: int = 0;
    proof {
        assert(all.take(0) =~= Seq::<RunStreamMsg>::empty());
        assert(all.skip(0) =~= all);
    }
    while rest.len() > 0
        invariant
            0 <= i <= all.len(),
            rest@ == all.skip(i),
            lines@ == stream_lines(all.take(i)),
            out == stream_outcome(start, all.take(i)),
        decreases rest.len(),
    {
        let msg = rest.remove(0);
        proof {
            assert(msg == all[i]);
            assert(all.take(i + 1).drop_last() =~= all.take(i));
            assert(all.take(i + 1).last() == all[i]);
            assert(rest@ =~= all.skip(i + 1));
        }
        match msg {
            RunStreamMsg::Event(CommandEvent::Started { .. }) => {},
            RunStreamMsg::Event(CommandEvent::Output { line }) => {
                lines.push(line);
            },
            RunStreamMsg::Event(CommandEvent::Finished { success, code }) => {
                out = Some(RunOutcome::Finished { success, code });
            },
            RunStreamMsg::Done(Ok(())) => {},
            RunStreamMsg::Done(Err(e)) => {
                if out.is_none() {
                    out = Some(RunOutcome::StartFailed(e));
                }
            },
        }
        proof {
            i = i + 1;
        }
    }
    proof {
        assert(all.take(i) =~= all);
    }
    (lines, out)
}

/// Whether `batch` reports a finish.
pub open spec fn reports_finish(batch: Seq<RunStreamMsg>) -> bool {
    exists|i: int| 0 <= i < batch.len() && #[trigger] batch[i] matches RunStreamMsg::Event(CommandEvent::Finished { .. })
}

/// A late failed end never overwrites a known outcome: without a new
/// finish report, an outcome already set stays.
pub proof fn law_outcome_is_not_overwritten(outcome: Option<RunOutcome>, batch: Seq<RunStreamMsg>)
    requires
        outcome.is_some(),
        !reports_finish(batch),
    ensures
        stream_outcome(outcome, batch) == outcome,
    decreases batch.len(),
{
    if batch.len() > 0 {
        assert(!reports_finish(batch.drop_last())) by {
            if reports_finish(batch.drop_last()) {
                let i = choose|i: int| 0 <= i < batch.drop_last().len() && #[trigger] batch.drop_last()[i] matches RunStreamMsg::Event(CommandEvent::Finished { .. });
                assert(batch[i] == batch.drop_last()[i]);
            }
        }
        law_outcome_is_not_overwritten(outcome, batch.drop_last());
        let last = batch.last();
        assert(!(last matches RunStreamMsg::Event(CommandEvent::Finished { .. }))) by {
            if last matches RunStreamMsg::Event(CommandEvent::Finished { .. }) {
                assert(batch[batch.len() - 1] == last);
            }
        }
    }
}

/// Whether `m` carries an output line.
pub open spec fn is_output(m: RunStreamMsg) -> bool {
    m matches RunStreamMsg::Event(CommandEvent::Output { .. })
}

/// The text of the line an output message carries.
pub open spec fn output_text(m: RunStreamMsg) -> Seq<char> {
    match m {
        RunStreamMsg::Event(CommandEvent::Output { line }) => line@,
        _ => Seq::empty(),
    }
}

/// The lines a batch appends are exactly its output messages' lines, in
/// order, empty lines included: as many as there are output messages, the
/// k-th being the k-th output message's line.
pub proof fn law_every_output_line_is_shown(batch: Seq<RunStreamMsg>)
    ensures
        stream_lines(batch).map_values(|l: String| l@) == batch.filter(|m: RunStreamMsg| is_output(m)).map_values(
            |m: RunStreamMsg| output_text(m),
        ),
    decreases batch.len(),
{
    let pred = |m: RunStreamMsg| is_output(m);
    if batch.len() == 0 {
        assert(batch.filter(pred) =~= Seq::<RunStreamMsg>::empty()) by {
            reveal(Seq::filter);
        }
        assert(stream_lines(batch).map_values(|l: String| l@) =~= Seq::<Seq<char>>::empty());
    } else {
        let init = batch.drop_last();
        law_every_output_line_is_shown(init);
        assert(batch =~= init.push(batch.last()));
        init.lemma_filter_push(batch.last(), pred);
        let prev = init.filter(pred);
        if is_output(batch.last()) {
            assert(prev.push(batch.last()).map_values(|m: RunStreamMsg| output_text(m))
                =~= prev.map_values(|m: RunStreamMsg| output_text(m)).push(output_text(batch.last())));
            assert(stream_lines(batch).map_values(|l: String| l@)
                =~= stream_lines(init).map_values(|l: String| l@).push(output_text(batch.last())));
        } else {
            assert(stream_lines(batch) == stream_lines(init));
        }
    }
}

/// Lines are appended across batches: two batches in a row append what
/// their concatenation appends.
pub proof fn law_batches_concatenate(a: Seq<RunStreamMsg>, b: Seq<RunStreamMsg>)
    ensures
        stream_lines(a + b) == stream_lines(a) + stream_lines(b),
    decreases b.len(),
{
    if b.len() == 0 {
        assert(a + b =~= a);
        assert(stream_lines(a) + stream_lines(b) =~= stream_lines(a));
    } else {
        law_batches_concatenate(a, b.drop_last());
        assert((a + b).drop_last() =~= a + b.drop_last());
        assert((a + b).last() == b.last());
        match b.last() {
            RunStreamMsg::Event(CommandEvent::Output { line }) => {
                assert(stream_lines(a + b) =~= stream_lines(a) + stream_lines(b));
            },
            _ => {},
        }
    }
}

/// Batches compose: the outcome after two batches in a row is the outcome
/// after the second one, started from the outcome after the first.
pub proof fn law_outcome_batches_compose(outcome: Option<RunOutcome>, a: Seq<RunStreamMsg>, b: Seq<RunStreamMsg>)
    ensures
        stream_outcome(outcome, a + b) == stream_outcome(stream_outcome(outcome, a), b),
    decreases b.len(),
{
    if b.len() == 0 {
        assert(a + b =~= a);
    } else {
        law_outcome_batches_compose(outcome, a, b.drop_last());
        assert((a + b).drop_last() =~= a + b.drop_last());
        assert((a + b).last() == b.last());
    }
}

/// A finish report decides the outcome: after it, only another finish
/// report changes it.
pub proof fn law_finish_sets_outcome(
    outcome: Option<RunOutcome>,
    before: Seq<RunStreamMsg>,
    success: bool,
    code: Option<i32>,
    after: Seq<RunStreamMsg>,
)
    requires
        !reports_finish(after),
    ensures
        stream_outcome(
            outcome,
            before + seq![RunStreamMsg::Event(CommandEvent::Finished { success, code })] + after,
        ) == Some(RunOutcome::Finished { success, code }),
{
    let f = seq![RunStreamMsg::Event(CommandEvent::Finished { success, code })];
    law_outcome_batches_compose(outcome, before + f, after);
    law_outcome_batches_compose(outcome, before, f);
    assert(f.drop_last() =~= Seq::<RunStreamMsg>::empty());
    assert(stream_outcome(stream_outcome(outcome, before), f) == Some(RunOutcome::Finished { success, code }));
    law_outcome_is_not_overwritten(Some(RunOutcome::Finished { success, code }), after);
}

/// Whether `batch` holds a failed end.
pub open spec fn reports_failure(batch: Seq<RunStreamMsg>) -> bool {
    exists|i: int| 0 <= i < batch.len() && #[trigger] batch[i] matches RunStreamMsg::Done(Err(_))
}

proof fn lemma_quiet_batch_keeps_none(batch: Seq<RunStreamMsg>)
    requires
        !reports_finish(batch),
        !reports_failure(batch),
    ensures
        stream_outcome(None, batch) is None,
    decreases batch.len(),
{
    if batch.len() > 0 {
        let init = batch.drop_last();
        assert(!reports_finish(init)) by {
            if reports_finish(init) {
                let i = choose|i: int| 0 <= i < init.len() && #[trigger] init[i] matches RunStreamMsg::Event(CommandEvent::Finished { .. });
                assert(batch[i] == init[i]);
            }
        }
        assert(!reports_failure(init)) by {
            if reports_failure(init) {
                let i = choose|i: int| 0 <= i < init.len() && #[trigger] init[i] matches RunStreamMsg::Done(Err(_));
                assert(batch[i] == init[i]);
            }
        }
        lemma_quiet_batch_keeps_none(init);
        let last = batch.last();
        assert(batch[batch.len() - 1] == last);
    }
}

/// A run with no outcome yet that fails to start reports the first
/// failure, and a later failed end does not replace it.
pub proof fn law_first_start_failure_is_reported(
    before: Seq<RunStreamMsg>,
    e: String,
    after: Seq<RunStreamMsg>,
)
    requires
        !reports_finish(before),
        !reports_failure(before),
        !reports_finish(after),
    ensures
        stream_outcome(None, before + seq![RunStreamMsg::Done(Err(e))] + after) == Some(RunOutcome::StartFailed(e)),
{
    let f = seq![RunStreamMsg::Done(Err(e))];
    lemma_quiet_batch_keeps_none(before);
    law_outcome_batches_compose(None, before + f, after);
    law_outcome_batches_compose(None, before, f);
    assert(f.drop_last() =~= Seq::<RunStreamMsg>::empty());
    assert(stream_outcome(stream_outcome(None, before), f) == Some(RunOutcome::StartFailed(e)));
    law_outcome_is_not_overwritten(Some(RunOutcome::StartFailed(e)), after);
}

} // verus!
