//! The action dispatcher: maps one parsed action to store and query calls.

use vstd::prelude::*;
use crate::task::{Task, TaskView, ActionType, RustodoArgs, views_of};
use crate::codec::encode_spec;
use crate::query::{EmptyKind, apply, apply_spec};
use crate::store::{Store, StoreError, render_file, render_record, scan_spec};

verus! {

/// The given sequence with the first task of the given title marked done;
/// later tasks of the same title stay untouched, as does everything else.
pub open spec fn mark_first(ts: Seq<TaskView>, title: Seq<char>) -> Seq<TaskView>
    decreases ts.len(),
{
    if ts.len() == 0 {
        Seq::<TaskView>::empty()
    } else if ts[0].title == title {
        seq![TaskView { title: ts[0].title, is_done: true }] + ts.drop_first()
    } else {
        seq![ts[0]] + mark_first(ts.drop_first(), title)
    }
}

/// Marking is idempotent: marking the same title twice leaves exactly the
/// state that marking it once leaves; the flag never toggles back.
pub proof fn lemma_mark_idempotent(ts: Seq<TaskView>, title: Seq<char>)
    ensures
        mark_first(mark_first(ts, title), title) == mark_first(ts, title),
    decreases ts.len(),
{
    if ts.len() == 0 {
        assert(mark_first(ts, title) =~= Seq::<TaskView>::empty());
    } else if ts[0].title == title {
        let done = TaskView { title: ts[0].title, is_done: true };
        let m1 = mark_first(ts, title);
        assert(m1 == seq![done] + ts.drop_first());
        assert(m1[0] == done);
        assert(m1.drop_first() =~= ts.drop_first());
        assert(mark_first(m1, title) =~= m1);
    } else {
        let m1 = mark_first(ts, title);
        assert(m1 == seq![ts[0]] + mark_first(ts.drop_first(), title));
        assert(m1[0] == ts[0]);
        assert(m1.drop_first() =~= mark_first(ts.drop_first(), title));
        lemma_mark_idempotent(ts.drop_first(), title);
        assert(mark_first(m1, title) =~= m1);
    }
}

/// Marking a title that no task carries changes nothing.
pub proof fn lemma_mark_no_match(ts: Seq<TaskView>, title: Seq<char>)
    requires
        forall|i: int| 0 <= i < ts.len() ==> ts[i].title != title,
    ensures
        mark_first(ts, title) == ts,
    decreases ts.len(),
{
    if ts.len() == 0 {
        assert(mark_first(ts, title) =~= ts);
    } else {
        assert(forall|i: int| 0 <= i < ts.drop_first().len()
            ==> ts.drop_first()[i] == ts[i + 1]);
        lemma_mark_no_match(ts.drop_first(), title);
        assert(mark_first(ts, title) =~= ts);
    }
}

/// Scans the store, marks the first task whose title equals the given one
/// (a missing title is a no-op, not an error), and rewrites the whole file
/// with the result in scan order.
pub fn mark_task_as_done(store: &mut Store, title: &String) -> (r: Result<(), StoreError>)
    ensures
        match r {
            Ok(_) => scan_spec(old(store)@) matches Ok(ts)
                && final(store)@ == render_file(mark_first(ts, title@)),
            Err(StoreError::Decode(e)) => scan_spec(old(store)@)
                == Err::<Seq<TaskView>, crate::codec::DecodeError>(e)
                && final(store)@ == old(store)@,
            Err(StoreError::Io(_)) => false,
        },
{
    let tasks = match store.scan() {
        Ok(ts) => ts,
        Err(e) => {
            return Err(e);
        },
    };
    let ghost ts0 = views_of(tasks@);
    let mut rest = tasks;
    let mut out: Vec<Task> = Vec::new();
    let mut found = false;
    proof {
        assert(views_of(rest@) =~= ts0);
        assert(views_of(out@) =~= Seq::<TaskView>::empty());
        assert(Seq::<TaskView>::empty() + mark_first(ts0, title@) =~= mark_first(ts0, title@));
    }
    while rest.len() > 0
        invariant
            mark_first(ts0, title@) == views_of(out@) + (if found {
                views_of(rest@)
            } else {
                mark_first(views_of(rest@), title@)
            }),
        decreases rest.len(),
    {
        let ghost pre = views_of(rest@);
        let ghost done = views_of(out@);
        let mut t = rest.remove(0);
        proof {
            assert(pre[0] == t@);
            assert(views_of(rest@) =~= pre.drop_first());
        }
        if found {
            out.push(t);
            proof {
                assert(views_of(out@) =~= done.push(t@));
                assert(done.push(t@) + pre.drop_first() =~= done + pre);
            }
        } else if t.title == *title {
            t.is_done = true;
            found = true;
            out.push(t);
            proof {
                let marked = TaskView { title: pre[0].title, is_done: true };
                assert(mark_first(pre, title@) == seq![marked] + pre.drop_first());
                assert(views_of(out@) =~= done.push(marked));
                assert(done.push(marked) + pre.drop_first()
                    =~= done + (seq![marked] + pre.drop_first()));
            }
        } else {
            out.push(t);
            proof {
                assert(mark_first(pre, title@)
                    == seq![pre[0]] + mark_first(pre.drop_first(), title@));
                assert(views_of(out@) =~= done.push(pre[0]));
                assert(done.push(pre[0]) + mark_first(pre.drop_first(), title@)
                    =~= done + (seq![pre[0]] + mark_first(pre.drop_first(), title@)));
            }
        }
    }
    proof {
        assert(views_of(rest@).len() == 0);
        if !found {
            assert(mark_first(views_of(rest@), title@) =~= Seq::<TaskView>::empty());
        }
        assert(views_of(out@) + Seq::<TaskView>::empty() =~= views_of(out@));
        assert(mark_first(ts0, title@) == views_of(out@));
    }
    store.rewrite_all(&out);
    Ok(())
}

/// What one invocation accomplished, for the caller to report.
#[derive(Debug)]
pub enum RunOutcome {
    /// A new pending task was appended.
    Added,
    /// The tasks to display, filtered and ordered.
    Listed(Vec<Task>),
    /// Nothing to display, and which of the two empty conditions holds.
    Empty(EmptyKind),
    /// The first task with the given title was marked done.
    Marked,
    /// Every task was deleted.
    Cleared,
}

/// Performs one parsed action against the store.  An added task always
/// starts pending, whatever flag the parsed task carries; a list never
/// changes the store; a mark rewrites it wholesale; a reset empties it.
pub fn run(args: RustodoArgs, store: &mut Store) -> (r: Result<RunOutcome, StoreError>)
    ensures
        match args.action {
            ActionType::Add(t) => r matches Ok(RunOutcome::Added)
                && final(store)@ == old(store)@ + render_record(
                    encode_spec(TaskView { title: t@.title, is_done: false }),
                ),
            ActionType::List(o) => final(store)@ == old(store)@
                && match r {
                    Ok(RunOutcome::Listed(v)) => scan_spec(old(store)@) matches Ok(ts)
                        && apply_spec(ts, o) == Ok::<Seq<TaskView>, EmptyKind>(views_of(v@)),
                    Ok(RunOutcome::Empty(k)) => scan_spec(old(store)@) matches Ok(ts)
                        && apply_spec(ts, o) == Err::<Seq<TaskView>, EmptyKind>(k),
                    Err(StoreError::Decode(e)) => scan_spec(old(store)@)
                        == Err::<Seq<TaskView>, crate::codec::DecodeError>(e),
                    _ => false,
                },
            ActionType::Mark(t) => match r {
                Ok(RunOutcome::Marked) => scan_spec(old(store)@) matches Ok(ts)
                    && final(store)@ == render_file(mark_first(ts, t@.title)),
                Err(StoreError::Decode(e)) => scan_spec(old(store)@)
                    == Err::<Seq<TaskView>, crate::codec::DecodeError>(e)
                    && final(store)@ == old(store)@,
                _ => false,
            },
            ActionType::Reset => r matches Ok(RunOutcome::Cleared)
                && final(store)@ == Seq::<char>::empty(),
        },
{
    match args.action {
        ActionType::Add(t) => {
            let task = Task::new(t.title, false);
            store.append(&task);
            Ok(RunOutcome::Added)
        },
        ActionType::List(o) => {
            let tasks = match store.scan() {
                Ok(ts) => ts,
                Err(e) => {
                    return Err(e);
                },
            };
            match apply(tasks, &o) {
                Ok(v) => Ok(RunOutcome::Listed(v)),
                Err(k) => Ok(RunOutcome::Empty(k)),
            }
        },
        ActionType::Mark(t) => {
            match mark_task_as_done(store, &t.title) {
                Ok(_) => Ok(RunOutcome::Marked),
                Err(e) => Err(e),
            }
        },
        ActionType::Reset => {
            store.reset();
            Ok(RunOutcome::Cleared)
        },
    }
}

} // verus!
