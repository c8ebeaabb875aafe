//! How the worker performs queued work on the container.

use vstd::prelude::*;
use vstd::string::*;

use super::disk::{self, WriterState};
use super::fence::PathFence;
use super::media::CacheFile;
use super::queue::{Outcome, Work};
use super::restart;
use super::store::{self, DiskStore};
use super::worker::{self, Lifecycle, WorkAction, SYNC_INTERVAL_NANOS};
use super::EncodedBody;
use crate::disk_cache::format::{CacheFormat, Record, Slot};
use crate::timeline::SequencePoint;

verus! {

/// What performing a piece of work gave.
#[derive(Debug)]
pub struct Performed {
    /// How it went.
    pub outcome: Outcome,
    /// The answer of a lookup that hit.
    pub answer: Option<EncodedBody>,
    /// Damaged records that a lookup came across.
    pub damaged: usize,
    /// The record that is to be promoted, as it was read.
    pub promotion: Option<(Slot, Record)>,
}

/// The action is one for this work.
pub open spec fn suits(action: WorkAction, work: &Work) -> bool {
    match action {
        WorkAction::LookUp => work is Lookup,
        WorkAction::AnswerNothing => work is Lookup,
        WorkAction::Append => work is Replace,
        WorkAction::Clear => work is Invalidate,
        WorkAction::Promote => work is Promote,
        WorkAction::Skip => true,
    }
}

/// The answer is the newest intact record of a path.
pub open spec fn answers(
    store: &DiskStore,
    content: Seq<u8>,
    path: Seq<u8>,
    answer: &EncodedBody,
) -> bool {
    exists|slot: Slot|
        {
            &&& #[trigger] store::finds(&store.disk, content, path, slot)
            &&& answer.revision@ == CacheFormat::stored_revision(store::behind(content, slot))
            &&& answer.body@ == CacheFormat::stored_body(store::behind(content, slot))
            &&& answer.current_after == slot.current_after
        }
}

/// No slot of a path has an intact record.
pub open spec fn lacks(store: &DiskStore, content: Seq<u8>, path: Seq<u8>) -> bool {
    forall|slot: Slot| #[trigger]
        store::slots_of(&store.disk, content, path).contains(slot) ==> !store::intact(
            &store.disk,
            content,
            path,
            slot,
        )
}

/// The slots of a path were cleared.
pub open spec fn cleared(
    before: &DiskStore,
    after: &DiskStore,
    old_content: Seq<u8>,
    new_content: Seq<u8>,
    path: Seq<u8>,
) -> bool {
    exists|n: nat|
        {
            &&& after.disk == before.disk
            &&& after.writer == #[trigger] store::charged(before.writer, n)
            &&& store::clears(
                &before.disk,
                old_content,
                new_content,
                before.disk.format.fingerprint(path),
                n,
            )
        }
}

/// The record that is promoted is the newest of its path and intact, it is worth
/// promoting, and tokens cover it.
pub open spec fn promotable(
    store: &DiskStore,
    content: Seq<u8>,
    path: Seq<u8>,
    slot: Slot,
    record: &Record,
) -> bool {
    &&& store::current(&store.disk, content, path, slot)
    &&& store.writer.promotes(&store.disk, slot)
    &&& record.revision@ == CacheFormat::stored_revision(store::behind(content, slot))
    &&& record.body@ == CacheFormat::stored_body(store::behind(content, slot))
    &&& record.current_after == slot.current_after
    &&& store::sized(&store.disk, record, slot)
}

/// Performs a piece of work. A promotion is only begun: its record is read.
pub fn perform<F: CacheFile>(
    store: &mut DiskStore,
    file: &mut F,
    action: WorkAction,
    work: &Work,
) -> (r: Performed)
    requires
        old(store).wf(),
        suits(action, work),
        work.fits(&old(store).disk.format),
    ensures
        final(store).wf(),
        final(store).disk.format == old(store).disk.format,
        r.answer is Some <==> r.outcome == Outcome::Hit,
        r.outcome == Outcome::Hit ==> store::passes_over(
            &old(store).disk,
            old(file).content(),
            work.spec_path(),
            r.damaged as nat,
        ),
        r.outcome == Outcome::Missed ==> r.damaged == store::slots_of(
            &old(store).disk,
            old(file).content(),
            work.spec_path(),
        ).len(),
        r.outcome != Outcome::Hit && r.outcome != Outcome::Missed ==> r.damaged == 0,
        r.promotion is Some ==> action is Promote && r.outcome == Outcome::Done,
        ({
            let before = old(file).content();
            let after = final(file).content();
            let path = work.spec_path();
            let kept = *final(store) == *old(store) && after == before;
            match (action, r.outcome) {
                (WorkAction::LookUp, Outcome::Hit) => kept && answers(
                    old(store),
                    before,
                    path,
                    &r.answer->0,
                ),
                (WorkAction::LookUp, Outcome::Missed) => kept && lacks(old(store), before, path),
                (WorkAction::LookUp, Outcome::Failed) => kept,
                (WorkAction::Append, outcome) => match outcome {
                    Outcome::Done | Outcome::SegmentStarted => {
                        &&& work matches Work::Replace {
                            revision,
                            body,
                            current_after,
                            payload,
                            ..
                        }
                        &&& store::records_but_tokens(
                            old(store),
                            final(store),
                            before,
                            after,
                            path,
                            revision@,
                            body@,
                            *current_after,
                            outcome == Outcome::SegmentStarted,
                        )
                        &&& final(store).writer.promotion_tokens == store::earned(
                            &old(store).disk.format,
                            old(store).writer.promotion_tokens,
                            *payload,
                        )
                    },
                    Outcome::Failed => true,
                    _ => false,
                },
                (WorkAction::Clear, Outcome::Done) => cleared(
                    old(store),
                    final(store),
                    before,
                    after,
                    path,
                ),
                (WorkAction::Clear, Outcome::Failed) => true,
                (WorkAction::Promote, outcome) => {
                    &&& kept
                    &&& match outcome {
                        Outcome::Done => r.promotion matches Some((slot, record)) && promotable(
                            old(store),
                            before,
                            path,
                            slot,
                            &record,
                        ),
                        Outcome::Skipped => {
                            ||| store::slots_of(&old(store).disk, before, path).len() == 0
                            ||| exists|slot: Slot| #[trigger]
                                store::current(&old(store).disk, before, path, slot)
                                    && !old(store).writer.promotes(&old(store).disk, slot)
                        },
                        Outcome::Failed => true,
                        _ => false,
                    }
                },
                (WorkAction::AnswerNothing, outcome) => kept && outcome == Outcome::Skipped,
                (WorkAction::Skip, outcome) => kept && outcome == Outcome::Skipped,
                _ => false,
            }
        }),
        old(file).works() && old(store).fits(old(file)) ==> final(file).works(),
        old(file).works() && old(store).fits(old(file)) && r.outcome == Outcome::Failed ==> {
            &&& *final(store) == *old(store)
            &&& final(file).content() == old(file).content()
            &&& {
                ||| action is Append && (work matches Work::Replace { revision, body, .. }
                    && store::exhausted(old(store), revision@, body@))
                ||| action is Promote && !undamaged(
                    old(store),
                    old(file).content(),
                    work.spec_path(),
                )
            }
        },
{
    let ghost before = *store;
    let ghost content = file.content();
    let nothing = Performed { outcome: Outcome::Skipped, answer: None, damaged: 0, promotion: None };
    let failed = Performed { outcome: Outcome::Failed, answer: None, damaged: 0, promotion: None };
    match (action, work) {
        (WorkAction::LookUp, Work::Lookup { path, .. }) => match store.lookup(file, path.as_str()) {
            Err(_) => failed,
            Ok((Some(record), damaged)) => {
                let answer = EncodedBody {
                    revision: record.revision,
                    body: record.body,
                    current_after: record.current_after,
                };
                proof {
                    assert(answers(&before, content, work.spec_path(), &answer));
                }
                Performed { outcome: Outcome::Hit, answer: Some(answer), damaged, promotion: None }
            },
            Ok((None, damaged)) => Performed {
                outcome: Outcome::Missed,
                answer: None,
                damaged,
                promotion: None,
            },
        },
        (WorkAction::Append, Work::Replace { path, revision, body, current_after, .. }) => {
            match store.replace(
                file,
                path.as_str(),
                revision.as_slice(),
                body.as_slice(),
                *current_after,
            ) {
                Err(_) => failed,
                Ok(started) => Performed {
                    outcome: if started {
                        Outcome::SegmentStarted
                    } else {
                        Outcome::Done
                    },
                    answer: None,
                    damaged: 0,
                    promotion: None,
                },
            }
        },
        (WorkAction::Clear, Work::Invalidate { path, .. }) => {
            match store.invalidate(file, path.as_str()) {
                Err(_) => failed,
                Ok(()) => {
                    proof {
                        assert(cleared(&before, store, content, file.content(), work.spec_path()));
                    }
                    Performed { outcome: Outcome::Done, answer: None, damaged: 0, promotion: None }
                },
            }
        },
        (WorkAction::Promote, Work::Promote { path, .. }) => {
            match store.begin_promotion(file, path.as_str()) {
                Err(_) => failed,
                Ok(None) => nothing,
                Ok(Some(read)) => Performed {
                    outcome: Outcome::Done,
                    answer: None,
                    damaged: 0,
                    promotion: Some(read),
                },
            }
        },
        _ => nothing,
    }
}

/// Every newest slot of a path has an intact record.
pub open spec fn undamaged(store: &DiskStore, content: Seq<u8>, path: Seq<u8>) -> bool {
    forall|slot: Slot| #[trigger]
        store::newest(store::slots_of(&store.disk, content, path), slot) ==> store::intact(
            &store.disk,
            content,
            path,
            slot,
        )
}

/// Completes a promotion whose record was read, unless the path has changed
/// since.
pub fn complete_promotion<F: CacheFile>(
    store: &mut DiskStore,
    file: &mut F,
    path: &str,
    slot: Slot,
    record: &Record,
    fence: &PathFence,
    epoch: u64,
) -> (r: Outcome)
    requires
        old(store).wf(),
        store::sized(&old(store).disk, record, slot),
        old(store).writer.promotion_tokens >= slot.record_bytes,
    ensures
        final(store).wf(),
        final(store).disk.format == old(store).disk.format,
        ({
            let before = old(file).content();
            let after = final(file).content();
            let bytes = path.spec_bytes();
            match r {
                Outcome::Done | Outcome::SegmentStarted => {
                    &&& fence@ == (epoch, false)
                    &&& store::current(&old(store).disk, before, bytes, slot)
                    &&& store::records_but_tokens(
                        old(store),
                        final(store),
                        before,
                        after,
                        bytes,
                        record.revision@,
                        record.body@,
                        record.current_after,
                        r == Outcome::SegmentStarted,
                    )
                    &&& final(store).writer.promotion_tokens
                        == old(store).writer.promotion_tokens - slot.record_bytes
                },
                Outcome::Skipped => {
                    &&& *final(store) == *old(store)
                    &&& after == before
                    &&& {
                        ||| fence@ != (epoch, false)
                        ||| store::slots_of(&old(store).disk, before, bytes).len() == 0
                        ||| exists|other: Slot|
                            other != slot && #[trigger] store::current(
                                &old(store).disk,
                                before,
                                bytes,
                                other,
                            )
                    }
                },
                Outcome::Failed => fence@ == (epoch, false),
                _ => false,
            }
        }),
        old(file).works() && old(store).fits(old(file)) ==> final(file).works(),
        old(file).works() && old(store).fits(old(file)) && r == Outcome::Failed ==> {
            ||| path.spec_bytes().len() > u32::MAX
            ||| {
                &&& *final(store) == *old(store)
                &&& final(file).content() == old(file).content()
                &&& {
                    ||| store::exhausted(old(store), record.revision@, record.body@)
                    ||| !undamaged(old(store), old(file).content(), path.spec_bytes())
                }
            }
        },
{
    if !worker::promotion_starts(fence, epoch) {
        return Outcome::Skipped;
    }
    match store.finish_promotion(file, path, slot, record) {
        Err(_) => Outcome::Failed,
        Ok(None) => Outcome::Skipped,
        Ok(Some(started)) => if started {
            Outcome::SegmentStarted
        } else {
            Outcome::Done
        },
    }
}

/// Synchronizes what was written, when that is due: when enough was written,
/// when the sync interval has passed, or when it is forced.
pub fn synchronize<F: CacheFile>(
    store: &mut DiskStore,
    file: &mut F,
    lifecycle: &Lifecycle,
    force: bool,
    since_sync_nanos: u64,
) -> (r: Outcome)
    requires
        old(store).wf(),
    ensures
        final(store).wf(),
        final(store).disk == old(store).disk,
        final(file).content() == old(file).content(),
        ({
            let due = lifecycle.enabled && if force || since_sync_nanos >= SYNC_INTERVAL_NANOS {
                old(store).writer.dirty_bytes != 0
            } else {
                old(store).writer.dirty_bytes >= disk::SYNC_BYTES
            };
            &&& r == Outcome::Skipped <==> !due
            &&& r == Outcome::Skipped || r == Outcome::Done || r == Outcome::Failed
            &&& final(store).writer == if r == Outcome::Done {
                WriterState { dirty_bytes: 0, ..old(store).writer }
            } else {
                old(store).writer
            }
        }),
        old(file).works() ==> final(file).works() && r != Outcome::Failed,
{
    if !lifecycle.enabled {
        return Outcome::Skipped;
    }
    match store.sync(file, force || since_sync_nanos >= SYNC_INTERVAL_NANOS) {
        Err(_) => Outcome::Failed,
        Ok(done) => if done {
            Outcome::Done
        } else {
            Outcome::Skipped
        },
    }
}

/// Closes the container of an enabled cache: what was written is made durable,
/// and the append position is stored.
pub fn close<F: CacheFile>(store: &mut DiskStore, file: &mut F, lifecycle: &Lifecycle) -> (r:
    Outcome)
    requires
        old(store).wf(),
    ensures
        final(store).wf(),
        final(store).disk == old(store).disk,
        r == Outcome::Skipped <==> !lifecycle.enabled,
        match r {
            Outcome::Skipped => {
                &&& *final(store) == *old(store)
                &&& final(file).content() == old(file).content()
            },
            Outcome::Done => {
                &&& final(store).writer == (WriterState { dirty_bytes: 0, ..old(store).writer })
                &&& final(file).content() == store::after_shutdown(
                    old(store),
                    old(file).content(),
                )
            },
            Outcome::Failed => final(store).writer == old(store).writer,
            _ => false,
        },
        old(file).works() && old(store).fits(old(file)) ==> final(file).works() && r
            != Outcome::Failed,
{
    if !lifecycle.stores_clean_tail() {
        return Outcome::Skipped;
    }
    match store.clean_shutdown(file) {
        Err(_) => Outcome::Failed,
        Ok(()) => Outcome::Done,
    }
}

/// Law: once a body was appended for a path, a lookup of the path answers
/// exactly that body, with its revision and its point.
pub proof fn law_appended_body_is_answered(
    before: &DiskStore,
    after: &DiskStore,
    old_content: Seq<u8>,
    new_content: Seq<u8>,
    path: Seq<u8>,
    revision: Seq<u8>,
    body: Seq<u8>,
    current_after: SequencePoint,
    started: bool,
    answer: &EncodedBody,
)
    requires
        store::records_but_tokens(
            before,
            after,
            old_content,
            new_content,
            path,
            revision,
            body,
            current_after,
            started,
        ),
        old_content.len() == before.disk.format.spec_layout().capacity,
        current_after@ != 0,
    ensures
        !lacks(after, new_content, path),
        answers(after, new_content, path, answer) <==> answer.revision@ == revision && answer.body@
            == body && answer.current_after == current_after,
{
    let (appended, slot) = choose|appended: DiskStore, slot: Slot|
        {
            &&& #[trigger] store::records(
                before,
                &appended,
                old_content,
                new_content,
                path,
                revision,
                body,
                slot,
                started,
            )
            &&& slot.current_after == current_after
            &&& after.disk == appended.disk
            &&& after.writer == (WriterState {
                promotion_tokens: after.writer.promotion_tokens,
                ..appended.writer
            })
        };
    store::law_recorded_is_looked_up(
        before,
        &appended,
        old_content,
        new_content,
        path,
        revision,
        body,
        slot,
        started,
    );
    assert(store::finds(&after.disk, new_content, path, slot));
    assert(store::slots_of(&after.disk, new_content, path).contains(slot));
}

/// Law: once the slots of a path were cleared, a lookup of the path misses.
pub proof fn law_cleared_path_is_missed(
    before: &DiskStore,
    after: &DiskStore,
    old_content: Seq<u8>,
    new_content: Seq<u8>,
    path: Seq<u8>,
    answer: &EncodedBody,
)
    requires
        before.disk.wf(),
        cleared(before, after, old_content, new_content, path),
        old_content.len() == before.disk.format.spec_layout().capacity,
    ensures
        lacks(after, new_content, path),
        !answers(after, new_content, path, answer),
{
    let n = choose|n: nat|
        {
            &&& after.disk == before.disk
            &&& after.writer == #[trigger] store::charged(before.writer, n)
            &&& store::clears(
                &before.disk,
                old_content,
                new_content,
                before.disk.format.fingerprint(path),
                n,
            )
        };
    store::law_cleared_is_not_looked_up(&before.disk, old_content, new_content, path, n);
}

/// Law: a container that was closed and opened again answers every lookup as it
/// did before.
pub proof fn law_restart_keeps_answers(
    closed: &DiskStore,
    content: Seq<u8>,
    reopened: &DiskStore,
    last: Option<SequencePoint>,
    path: Seq<u8>,
    answer: &EncodedBody,
)
    requires
        closed.wf(),
        restart::mirrors(&closed.disk, content),
        store::opens(
            &closed.disk.format,
            store::after_shutdown(closed, content),
            true,
            reopened,
            last,
        ),
    ensures
        answers(reopened, store::after_shutdown(closed, content), path, answer) == answers(
            closed,
            content,
            path,
            answer,
        ),
{
    let after = store::after_shutdown(closed, content);
    assert forall|slot: Slot|
        #![trigger store::finds(&closed.disk, content, path, slot)]
        #![trigger store::finds(&reopened.disk, after, path, slot)]
        store::finds(&reopened.disk, after, path, slot) == store::finds(
            &closed.disk,
            content,
            path,
            slot,
        ) && (store::finds(&closed.disk, content, path, slot) ==> store::behind(after, slot)
            == store::behind(content, slot)) by {
        restart::law_restart_keeps_records(closed, content, reopened, last, path, slot);
    }
}

} // verus!
