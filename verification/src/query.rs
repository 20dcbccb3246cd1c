//! The query engine: filter, sort and reverse a task list for display.
//!
//! The steps apply in a fixed order: filter (completed wins over pending
//! when both are set), then an optional stable sort by title, then an
//! optional reversal of whatever the earlier steps produced.

use vstd::prelude::*;
use vstd::multiset::Multiset;
use crate::task::{Task, TaskView, ListOptions, views_of};

verus! {

/// Which of two distinct "nothing to show" conditions holds.
#[derive(Clone, Copy, Debug, PartialEq, Eq, Structural)]
pub enum EmptyKind {
    /// The store holds no tasks at all.
    NoTasks,
    /// The store holds tasks, but none matches the filter.
    NoMatch,
}

impl EmptyKind {
    /// The message owed to the condition; the two conditions never share one.
    pub fn message(&self) -> (r: &'static str)
        ensures
            r@ == self.message_spec(),
    {
        match self {
            EmptyKind::NoTasks => "You currently have no tasks.",
            EmptyKind::NoMatch => "You have no tasks that match the current filter!",
        }
    }

    pub open spec fn message_spec(&self) -> Seq<char> {
        match self {
            EmptyKind::NoTasks => "You currently have no tasks."@,
            EmptyKind::NoMatch => "You have no tasks that match the current filter!"@,
        }
    }
}

/// Whether a task passes the filter.  `completed` takes precedence over
/// `pending` when both are set.
pub open spec fn keep(t: TaskView, completed: bool, pending: bool) -> bool {
    if completed {
        t.is_done
    } else if pending {
        !t.is_done
    } else {
        true
    }
}

/// The tasks that pass the filter, in their original order.
pub open spec fn filter_spec(ts: Seq<TaskView>, completed: bool, pending: bool) -> Seq<TaskView>
    decreases ts.len(),
{
    if ts.len() == 0 {
        Seq::<TaskView>::empty()
    } else {
        let rest = filter_spec(ts.drop_first(), completed, pending);
        if keep(ts[0], completed, pending) {
            seq![ts[0]] + rest
        } else {
            rest
        }
    }
}

/// Lexicographic order on character sequences by scalar value: the byte-wise
/// order of the titles' text.
pub open spec fn lex_le(a: Seq<char>, b: Seq<char>) -> bool
    decreases a.len(),
{
    if a.len() == 0 {
        true
    } else if b.len() == 0 {
        false
    } else if a[0] != b[0] {
        (a[0] as int) < (b[0] as int)
    } else {
        lex_le(a.drop_first(), b.drop_first())
    }
}

/// Inserts a task behind every already-placed task whose title is not
/// greater, so that equal titles keep their original relative order.
pub open spec fn insert_sorted(x: TaskView, s: Seq<TaskView>) -> Seq<TaskView>
    decreases s.len(),
{
    if s.len() == 0 {
        seq![x]
    } else if lex_le(s[0].title, x.title) {
        seq![s[0]] + insert_sorted(x, s.drop_first())
    } else {
        seq![x] + s
    }
}

/// Stable insertion sort by title, ascending.
pub open spec fn sort_spec(s: Seq<TaskView>) -> Seq<TaskView>
    decreases s.len(),
{
    if s.len() == 0 {
        Seq::<TaskView>::empty()
    } else {
        insert_sorted(s.last(), sort_spec(s.drop_last()))
    }
}

/// Titles appear in ascending order.
pub open spec fn sorted_by_title(s: Seq<TaskView>) -> bool {
    forall|i: int, j: int| 0 <= i < j < s.len() ==> lex_le(s[i].title, s[j].title)
}

/// The title order is total: of any two titles, one is not greater.
pub proof fn lemma_lex_le_total(a: Seq<char>, b: Seq<char>)
    ensures
        lex_le(a, b) || lex_le(b, a),
    decreases a.len(),
{
    if a.len() == 0 {
    } else if b.len() == 0 {
    } else if a[0] != b[0] {
    } else {
        lemma_lex_le_total(a.drop_first(), b.drop_first());
    }
}

/// The title order is transitive.
pub proof fn lemma_lex_le_trans(a: Seq<char>, b: Seq<char>, c: Seq<char>)
    requires
        lex_le(a, b),
        lex_le(b, c),
    ensures
        lex_le(a, c),
    decreases a.len(),
{
    if a.len() == 0 {
    } else {
        assert(b.len() > 0 && c.len() > 0);
        if a[0] == b[0] && b[0] == c[0] {
            lemma_lex_le_trans(a.drop_first(), b.drop_first(), c.drop_first());
        } else {
            assert((a[0] as int) <= (b[0] as int) && (b[0] as int) <= (c[0] as int));
            assert((a[0] as int) < (c[0] as int));
        }
    }
}

/// Every element of an insertion's result is the new task or one of the old.
proof fn lemma_insert_sorted_membership(x: TaskView, s: Seq<TaskView>)
    ensures
        insert_sorted(x, s).len() == s.len() + 1,
        forall|i: int| 0 <= i < insert_sorted(x, s).len()
            ==> insert_sorted(x, s)[i] == x || s.contains(insert_sorted(x, s)[i]),
    decreases s.len(),
{
    let r = insert_sorted(x, s);
    if s.len() == 0 {
        assert(r == seq![x]);
    } else if lex_le(s[0].title, x.title) {
        let s1 = s.drop_first();
        let r1 = insert_sorted(x, s1);
        lemma_insert_sorted_membership(x, s1);
        assert(r == seq![s[0]] + r1);
        assert forall|i: int| 0 <= i < r.len() implies r[i] == x || s.contains(r[i]) by {
            if i == 0 {
                assert(s[0] == s[0]);
                assert(s.contains(s[0]));
            } else {
                assert(r[i] == r1[i - 1]);
                if r1[i - 1] != x {
                    let k = choose|k: int| 0 <= k < s1.len() && s1[k] == r1[i - 1];
                    assert(s[k + 1] == r1[i - 1]);
                    assert(s.contains(r[i]));
                }
            }
        }
    } else {
        assert(r == seq![x] + s);
        assert forall|i: int| 0 <= i < r.len() implies r[i] == x || s.contains(r[i]) by {
            if i > 0 {
                assert(r[i] == s[i - 1]);
                assert(s.contains(s[i - 1]));
            }
        }
    }
}

/// Inserting into a sorted sequence keeps it sorted.
proof fn lemma_insert_sorted_sorted(x: TaskView, s: Seq<TaskView>)
    requires
        sorted_by_title(s),
    ensures
        sorted_by_title(insert_sorted(x, s)),
    decreases s.len(),
{
    let r = insert_sorted(x, s);
    if s.len() == 0 {
    } else if lex_le(s[0].title, x.title) {
        let s1 = s.drop_first();
        let r1 = insert_sorted(x, s1);
        assert(forall|k: int| 0 <= k < s1.len() ==> s1[k] == s[k + 1]);
        lemma_insert_sorted_sorted(x, s1);
        lemma_insert_sorted_membership(x, s1);
        assert(r == seq![s[0]] + r1);
        assert forall|i: int, j: int| 0 <= i < j < r.len()
            implies lex_le(r[i].title, r[j].title) by {
            if i == 0 {
                assert(r[j] == r1[j - 1]);
                if r1[j - 1] == x {
                } else {
                    let k = choose|k: int| 0 <= k < s1.len() && s1[k] == r1[j - 1];
                    assert(lex_le(s[0].title, s[k + 1].title));
                }
            } else {
                assert(r[i] == r1[i - 1] && r[j] == r1[j - 1]);
            }
        }
    } else {
        lemma_lex_le_total(s[0].title, x.title);
        assert(r == seq![x] + s);
        assert forall|i: int, j: int| 0 <= i < j < r.len()
            implies lex_le(r[i].title, r[j].title) by {
            if i == 0 {
                assert(r[j] == s[j - 1]);
                if j - 1 > 0 {
                    assert(lex_le(s[0].title, s[j - 1].title));
                    lemma_lex_le_trans(x.title, s[0].title, s[j - 1].title);
                }
            } else {
                assert(r[i] == s[i - 1] && r[j] == s[j - 1]);
            }
        }
    }
}

/// Inserting adds exactly the new task to the sequence's contents.
proof fn lemma_insert_sorted_multiset(x: TaskView, s: Seq<TaskView>)
    ensures
        insert_sorted(x, s).to_multiset() == s.to_multiset().insert(x),
    decreases s.len(),
{
    broadcast use vstd::seq_lib::group_to_multiset_ensures;
    broadcast use vstd::multiset::group_multiset_axioms;

    let r = insert_sorted(x, s);
    if s.len() == 0 {
        assert(seq![x] =~= Seq::<TaskView>::empty().push(x));
        assert(s =~= Seq::<TaskView>::empty());
        assert(r.to_multiset() =~= s.to_multiset().insert(x));
    } else if lex_le(s[0].title, x.title) {
        let s1 = s.drop_first();
        let r1 = insert_sorted(x, s1);
        lemma_insert_sorted_multiset(x, s1);
        assert(r == seq![s[0]] + r1);
        vstd::seq_lib::lemma_multiset_commutative(seq![s[0]], r1);
        assert(s =~= seq![s[0]] + s1);
        vstd::seq_lib::lemma_multiset_commutative(seq![s[0]], s1);
        assert(seq![s[0]].to_multiset().add(s1.to_multiset().insert(x))
            =~= (seq![s[0]].to_multiset().add(s1.to_multiset())).insert(x));
    } else {
        assert(r == seq![x] + s);
        vstd::seq_lib::lemma_multiset_commutative(seq![x], s);
        assert(seq![x] =~= Seq::<TaskView>::empty().push(x));
        assert(Seq::<TaskView>::empty().to_multiset() =~= Multiset::<TaskView>::empty());
        assert(seq![x].to_multiset().add(s.to_multiset()) =~= s.to_multiset().insert(x));
    }
}

/// The sort law: the sorted view carries exactly the input's tasks, with
/// their titles in ascending order.
pub proof fn lemma_sort_spec_sorts(s: Seq<TaskView>)
    ensures
        sorted_by_title(sort_spec(s)),
        sort_spec(s).to_multiset() == s.to_multiset(),
    decreases s.len(),
{
    broadcast use vstd::seq_lib::group_to_multiset_ensures;

    if s.len() == 0 {
    } else {
        let s0 = s.drop_last();
        lemma_sort_spec_sorts(s0);
        lemma_insert_sorted_sorted(s.last(), sort_spec(s0));
        lemma_insert_sorted_multiset(s.last(), sort_spec(s0));
        assert(s0.push(s.last()) =~= s);
        assert(s0.push(s.last()).to_multiset() =~= s0.to_multiset().insert(s.last()));
    }
}

/// What listing yields for a task list and an option set: the ordered view,
/// or the exact empty condition owed to the input.
pub open spec fn apply_spec(ts: Seq<TaskView>, options: ListOptions) -> Result<
    Seq<TaskView>,
    EmptyKind,
> {
    if ts.len() == 0 {
        Err(EmptyKind::NoTasks)
    } else {
        let picked = filter_spec(ts, options.completed, options.pending);
        if picked.len() == 0 {
            Err(EmptyKind::NoMatch)
        } else {
            let ordered = if options.sort_by_title {
                sort_spec(picked)
            } else {
                picked
            };
            Ok(if options.reverse {
                ordered.reverse()
            } else {
                ordered
            })
        }
    }
}

/// An empty store and an empty filter result are distinct conditions with
/// distinct messages, whatever the options say.
pub proof fn lemma_empty_conditions_distinct(ts: Seq<TaskView>, options: ListOptions)
    ensures
        ts.len() == 0 ==> apply_spec(ts, options) == Err::<Seq<TaskView>, EmptyKind>(
            EmptyKind::NoTasks,
        ),
        ts.len() > 0 && filter_spec(ts, options.completed, options.pending).len() == 0
            ==> apply_spec(ts, options) == Err::<Seq<TaskView>, EmptyKind>(EmptyKind::NoMatch),
        EmptyKind::NoTasks.message_spec() != EmptyKind::NoMatch.message_spec(),
{
    reveal_strlit("You currently have no tasks.");
    reveal_strlit("You have no tasks that match the current filter!");
    assert(EmptyKind::NoTasks.message_spec().len()
        != EmptyKind::NoMatch.message_spec().len());
}

/// Compares two titles in the order `lex_le` states.
fn title_le(a: &str, b: &str) -> (r: bool)
    ensures
        r == lex_le(a@, b@),
{
    let na = a.unicode_len();
    let nb = b.unicode_len();
    let mut i: usize = 0;
    proof {
        assert(a@.skip(0) =~= a@);
        assert(b@.skip(0) =~= b@);
    }
    loop
        invariant
            na == a@.len(),
            nb == b@.len(),
            i <= na,
            i <= nb,
            lex_le(a@, b@) == lex_le(a@.skip(i as int), b@.skip(i as int)),
        decreases na - i,
    {
        let ghost sa = a@.skip(i as int);
        let ghost sb = b@.skip(i as int);
        if i >= na {
            proof {
                assert(sa.len() == 0);
            }
            return true;
        }
        if i >= nb {
            proof {
                assert(sa.len() > 0 && sb.len() == 0);
            }
            return false;
        }
        let ca = a.get_char(i);
        let cb = b.get_char(i);
        proof {
            assert(sa[0] == ca && sb[0] == cb);
            assert(sa.drop_first() =~= a@.skip(i + 1));
            assert(sb.drop_first() =~= b@.skip(i + 1));
        }
        if ca != cb {
            return (ca as u32) < (cb as u32);
        }
        i = i + 1;
    }
}

/// Keeps the tasks that pass the filter, in their original order.
fn filter_tasks(tasks: Vec<Task>, completed: bool, pending: bool) -> (r: Vec<Task>)
    ensures
        views_of(r@) == filter_spec(views_of(tasks@), completed, pending),
{
    let ghost all = views_of(tasks@);
    let mut rest = tasks;
    let mut picked: Vec<Task> = Vec::new();
    proof {
        assert(views_of(rest@) =~= all);
        assert(views_of(picked@) =~= Seq::<TaskView>::empty());
        assert(Seq::<TaskView>::empty() + filter_spec(all, completed, pending)
            =~= filter_spec(all, completed, pending));
    }
    while rest.len() > 0
        invariant
            views_of(picked@) + filter_spec(views_of(rest@), completed, pending)
                == filter_spec(all, completed, pending),
        decreases rest.len(),
    {
        let ghost pre = views_of(rest@);
        let ghost done = views_of(picked@);
        let t = rest.remove(0);
        proof {
            assert(pre[0] == t@);
            assert(views_of(rest@) =~= pre.drop_first());
        }
        let ghost sub = filter_spec(pre.drop_first(), completed, pending);
        if (completed && t.is_done) || (pending && !completed && !t.is_done)
            || (!completed && !pending) {
            proof {
                assert(keep(t@, completed, pending));
                assert(filter_spec(pre, completed, pending) == seq![t@] + sub);
            }
            picked.push(t);
            proof {
                assert(views_of(picked@) =~= done.push(t@));
                assert(done.push(t@) + sub =~= done + (seq![t@] + sub));
            }
        } else {
            proof {
                assert(!keep(t@, completed, pending));
                assert(filter_spec(pre, completed, pending) == sub);
            }
        }
    }
    proof {
        assert(views_of(rest@).len() == 0);
        assert(filter_spec(views_of(rest@), completed, pending)
            == Seq::<TaskView>::empty());
        assert(views_of(picked@) + Seq::<TaskView>::empty() =~= views_of(picked@));
    }
    picked
}

/// Inserting behind a placed prefix that is not greater lands at the first
/// greater position.
proof fn lemma_insert_at(s: Seq<TaskView>, x: TaskView, j: int)
    requires
        0 <= j <= s.len(),
        forall|k: int| 0 <= k < j ==> lex_le(s[k].title, x.title),
        j < s.len() ==> !lex_le(s[j].title, x.title),
    ensures
        insert_sorted(x, s) == s.take(j) + seq![x] + s.skip(j),
    decreases j,
{
    if j == 0 {
        if s.len() == 0 {
            assert(insert_sorted(x, s) =~= s.take(0) + seq![x] + s.skip(0));
        } else {
            assert(!lex_le(s[0].title, x.title));
            assert(insert_sorted(x, s) =~= s.take(0) + seq![x] + s.skip(0));
        }
    } else {
        assert(lex_le(s[0].title, x.title));
        let s1 = s.drop_first();
        assert(forall|k: int| 0 <= k < j - 1 ==> s1[k] == s[k + 1]);
        lemma_insert_at(s1, x, j - 1);
        assert(insert_sorted(x, s) == seq![s[0]] + insert_sorted(x, s1));
        assert(seq![s[0]] + (s1.take(j - 1) + seq![x] + s1.skip(j - 1))
            =~= s.take(j) + seq![x] + s.skip(j));
    }
}

/// The first position whose title is greater than the new task's title.
fn find_insert_pos(sorted: &Vec<Task>, t: &Task) -> (j: usize)
    ensures
        j <= sorted@.len(),
        forall|k: int| 0 <= k < j ==> lex_le(views_of(sorted@)[k].title, t@.title),
        j < sorted@.len() ==> !lex_le(views_of(sorted@)[j as int].title, t@.title),
{
    let mut j: usize = 0;
    while j < sorted.len()
        invariant
            j <= sorted@.len(),
            forall|k: int| 0 <= k < j ==> lex_le(views_of(sorted@)[k].title, t@.title),
        decreases sorted@.len() - j,
    {
        if !title_le(sorted[j].title.as_str(), t.title.as_str()) {
            return j;
        }
        j = j + 1;
    }
    j
}

/// Inserts one task into an already sorted vector, after any equal titles.
fn insert_task(sorted: &mut Vec<Task>, t: Task)
    ensures
        views_of(final(sorted)@) == insert_sorted(t@, views_of(old(sorted)@)),
{
    let ghost s = views_of(sorted@);
    let j = find_insert_pos(sorted, &t);
    proof {
        lemma_insert_at(s, t@, j as int);
    }
    sorted.insert(j, t);
    proof {
        assert(views_of(sorted@) =~= s.take(j as int) + seq![t@] + s.skip(j as int));
    }
}

/// Sorts the tasks by title, ascending and stable.
fn sort_tasks(tasks: Vec<Task>) -> (r: Vec<Task>)
    ensures
        views_of(r@) == sort_spec(views_of(tasks@)),
{
    let ghost all = views_of(tasks@);
    let mut rest = tasks;
    let mut placed: Vec<Task> = Vec::new();
    let ghost consumed = Seq::<TaskView>::empty();
    proof {
        assert(views_of(rest@) =~= all);
        assert(views_of(placed@) =~= sort_spec(consumed));
        assert(consumed + views_of(rest@) =~= all);
    }
    while rest.len() > 0
        invariant
            exists|consumed: Seq<TaskView>|
                consumed + views_of(rest@) == all
                    && #[trigger] sort_spec(consumed) == views_of(placed@),
        decreases rest.len(),
    {
        let ghost consumed = choose|consumed: Seq<TaskView>|
            consumed + views_of(rest@) == all
                && #[trigger] sort_spec(consumed) == views_of(placed@);
        let ghost pre = views_of(rest@);
        let t = rest.remove(0);
        proof {
            assert(pre[0] == t@);
            assert(views_of(rest@) =~= pre.drop_first());
        }
        insert_task(&mut placed, t);
        proof {
            let consumed1 = consumed.push(t@);
            assert(consumed1.drop_last() =~= consumed);
            assert(consumed1.last() == t@);
            assert(sort_spec(consumed1) == insert_sorted(t@, sort_spec(consumed)));
            assert(consumed1 + views_of(rest@) =~= all);
        }
    }
    proof {
        let consumed = choose|consumed: Seq<TaskView>|
            consumed + views_of(rest@) == all
                && #[trigger] sort_spec(consumed) == views_of(placed@);
        assert(consumed + views_of(rest@) =~= consumed);
        assert(consumed =~= all);
    }
    placed
}

/// Reverses the order of the tasks.
fn reverse_tasks(tasks: Vec<Task>) -> (r: Vec<Task>)
    ensures
        views_of(r@) == views_of(tasks@).reverse(),
{
    let ghost all = views_of(tasks@);
    let mut rest = tasks;
    let mut out: Vec<Task> = Vec::new();
    while rest.len() > 0
        invariant
            views_of(rest@) == all.take(rest@.len() as int),
            views_of(out@).len() == all.len() - rest@.len(),
            forall|k: int| 0 <= k < views_of(out@).len()
                ==> views_of(out@)[k] == all[all.len() - 1 - k],
        decreases rest.len(),
    {
        let ghost pre = views_of(rest@);
        let ghost done = views_of(out@);
        let t = rest.pop().unwrap();
        proof {
            assert(pre.last() == t@);
            assert(pre.last() == all[pre.len() - 1]);
            assert(views_of(rest@) =~= pre.drop_last());
            assert(pre.drop_last() =~= all.take(pre.len() - 1));
        }
        out.push(t);
        proof {
            assert(views_of(out@) =~= done.push(t@));
        }
    }
    proof {
        assert(views_of(out@) =~= all.reverse());
    }
    out
}

/// Produces the ordered, filtered view to display, or says exactly which
/// empty condition holds.  Tasks are consumed; the order of equal elements
/// is never disturbed except by the requested reversal.
pub fn apply(tasks: Vec<Task>, options: &ListOptions) -> (r: Result<Vec<Task>, EmptyKind>)
    ensures
        match r {
            Ok(v) => apply_spec(views_of(tasks@), *options) == Ok::<Seq<TaskView>, EmptyKind>(
                views_of(v@),
            ),
            Err(e) => apply_spec(views_of(tasks@), *options) == Err::<Seq<TaskView>, EmptyKind>(
                e,
            ),
        },
{
    if tasks.is_empty() {
        return Err(EmptyKind::NoTasks);
    }
    let picked = filter_tasks(tasks, options.completed, options.pending);
    if picked.is_empty() {
        return Err(EmptyKind::NoMatch);
    }
    let ordered = if options.sort_by_title {
        sort_tasks(picked)
    } else {
        picked
    };
    let shown = if options.reverse {
        reverse_tasks(ordered)
    } else {
        ordered
    };
    Ok(shown)
}

} // verus!
