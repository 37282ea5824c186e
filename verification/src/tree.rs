//! The progress tree: the store of task nodes that producers mutate and
//! the renderer snapshots.
//!
//! Nodes are addressed by their [`TreeKey`]; a key returned by
//! [`Tree::add_child`] acts as the handle through which a producer later
//! mutates that node's title or progress. The tree also owns the bounded
//! message log.

use crate::key::{
    key_le, key_less, key_lt, lemma_key_lt_by_component, lemma_key_lt_strict_prefix, TreeKey,
};
use vstd::multiset::Multiset;
use crate::messages::{msgs_view, Message, MessageRing, MessageV};
use crate::progress::{Progress, ProgressStep, ProgressV};
use vstd::prelude::*;

verus! {

/// What a task node holds besides its position: a title and, once
/// initialized, a progress value.
pub struct TreeValue {
    /// The human-readable task title.
    pub title: String,
    /// The task's progress, absent for informational or group rows.
    pub progress: Option<Progress>,
}

/// The mathematical value of a [`TreeValue`].
pub ghost struct TreeValueV {
    /// The characters of the title.
    pub title: Seq<char>,
    /// The progress value, if any.
    pub progress: Option<ProgressV>,
}

impl View for TreeValue {
    type V = TreeValueV;

    open spec fn view(&self) -> TreeValueV {
        TreeValueV {
            title: self.title@,
            progress: match self.progress {
                Some(p) => Some(p@),
                None => None,
            },
        }
    }
}

/// One snapshot row: a task node together with its key.
pub struct TaskEntry {
    /// The node's stable, ordered identifier.
    pub key: TreeKey,
    /// The node's title and progress.
    pub value: TreeValue,
}

/// The mathematical value of a [`TaskEntry`].
pub ghost struct TaskEntryV {
    /// The node's key path.
    pub key: Seq<u64>,
    /// The node's title and progress.
    pub value: TreeValueV,
}

impl View for TaskEntry {
    type V = TaskEntryV;

    open spec fn view(&self) -> TaskEntryV {
        TaskEntryV { key: self.key@, value: self.value@ }
    }
}

/// The values of a sequence of entries, in the same order.
pub open spec fn entries_view(s: Seq<TaskEntry>) -> Seq<TaskEntryV> {
    s.map_values(|e: TaskEntry| e@)
}

/// Whether `k` identifies a direct child of the node at `p`: one level
/// deeper, with `p` as its prefix.
pub open spec fn is_direct_child(k: Seq<u64>, p: Seq<u64>) -> bool {
    k.len() == p.len() + 1 && k.take(p.len() as int) == p
}

/// The largest sibling index among the direct children of `p` in `s`, and
/// zero where there is none; sibling indices start at one.
pub open spec fn max_child_index(s: Seq<TaskEntryV>, p: Seq<u64>) -> u64
    decreases s.len(),
{
    if s.len() == 0 {
        0
    } else {
        let rest = max_child_index(s.drop_last(), p);
        if is_direct_child(s.last().key, p) && s.last().key.last() > rest {
            s.last().key.last()
        } else {
            rest
        }
    }
}

/// What [`Tree::init`] leaves in a node's value: the new target and unit,
/// with the step counter kept (and zero where there was none).
pub open spec fn init_value(v: TreeValueV, done_at: Option<ProgressStep>, unit: Option<
    Seq<char>,
>) -> TreeValueV {
    TreeValueV {
        title: v.title,
        progress: Some(
            ProgressV {
                step: match v.progress {
                    Some(p) => p.step,
                    None => 0,
                },
                done_at,
                unit,
            },
        ),
    }
}

/// What [`Tree::set`] leaves in a node's value: the new step count, with
/// target and unit kept (and absent where there was no progress yet).
pub open spec fn step_value(v: TreeValueV, step: ProgressStep) -> TreeValueV {
    TreeValueV {
        title: v.title,
        progress: Some(
            match v.progress {
                Some(p) => ProgressV { step, done_at: p.done_at, unit: p.unit },
                None => ProgressV { step, done_at: None, unit: None },
            },
        ),
    }
}

/// Whether some entry of `s` has exactly the key `k`.
pub open spec fn has_key(s: Seq<TaskEntryV>, k: Seq<u64>) -> bool {
    exists|i: int| 0 <= i < s.len() && s[i].key == k
}

/// Whether `k` is a usable handle into a tree with tasks `s`: the root
/// key, or the key of a node of the tree.
pub open spec fn is_handle(s: Seq<TaskEntryV>, k: Seq<u64>) -> bool {
    k.len() == 0 || has_key(s, k)
}

/// The hierarchical store of task nodes, plus the bounded message log.
pub struct Tree {
    entries: Vec<TaskEntry>,
    messages: MessageRing,
}

impl Tree {
    /// The task nodes in insertion order, each with its key.
    pub closed spec fn tasks(&self) -> Seq<TaskEntryV> {
        entries_view(self.entries@)
    }

    /// The chronological contents of the message log.
    pub closed spec fn message_log(&self) -> Seq<MessageV> {
        self.messages.contents()
    }

    /// The configured capacity of the message log.
    pub closed spec fn message_capacity(&self) -> nat {
        self.messages.spec_capacity()
    }

    /// The tree's invariant: keys are unique, and every key component is
    /// bounded by the node count, which keeps fresh sibling indices
    /// representable.
    pub closed spec fn wf(&self) -> bool {
        &&& forall|i: int, j: int|
            0 <= i < j < self.tasks().len() ==> self.tasks()[i].key != self.tasks()[j].key
        &&& forall|i: int, c: int|
            0 <= i < self.tasks().len() && 0 <= c < self.tasks()[i].key.len()
                ==> #[trigger] self.tasks()[i].key[c] <= self.tasks().len()
        &&& self.messages.wf()
    }

    /// An empty tree whose message log will hold at most
    /// `message_capacity` lines.
    pub fn new(message_capacity: usize) -> (t: Tree)
        ensures
            t.wf(),
            t.tasks() == Seq::<TaskEntryV>::empty(),
            t.message_log() == Seq::<MessageV>::empty(),
            t.message_capacity() == message_capacity,
    {
        let t = Tree { entries: Vec::new(), messages: MessageRing::new(message_capacity) };
        proof {
            assert(t.tasks() =~= Seq::<TaskEntryV>::empty());
        }
        t
    }

    /// How many task nodes the tree holds; a cheap size hint used by the
    /// renderer to preallocate its snapshot buffer.
    pub fn num_tasks(&self) -> (n: usize)
        ensures
            n == self.tasks().len(),
    {
        self.entries.len()
    }

    /// The capacity of the message log; a cheap size hint used by the
    /// renderer to preallocate its message buffer.
    pub fn messages_capacity(&self) -> (n: usize)
        ensures
            n == self.message_capacity(),
    {
        self.messages.capacity()
    }

    /// Whether `key` is a usable handle into this tree: its root key or
    /// the key of one of its nodes.
    pub fn contains_handle(&self, key: &TreeKey) -> (r: bool)
        ensures
            r == is_handle(self.tasks(), key@),
    {
        if key.level() == 0 {
            return true;
        }
        let mut i: usize = 0;
        while i < self.entries.len()
            invariant
                i <= self.entries.len(),
                forall|j: int| 0 <= j < i ==> self.tasks()[j].key != key@,
            decreases self.entries.len() - i,
        {
            if key_eq(&self.entries[i].key, key) {
                assert(self.tasks()[i as int].key == key@);
                return true;
            }
            i += 1;
        }
        false
    }

    /// Allocate a new child node of `parent` with the given title, no
    /// progress yet, and a fresh key: one level below the parent, with a
    /// sibling index larger than that of every existing direct child, so
    /// the child sorts after the parent and after all earlier siblings'
    /// subtrees. Returns the child's key, the handle to mutate it later.
    pub fn add_child(&mut self, parent: &TreeKey, title: String) -> (child: TreeKey)
        requires
            old(self).wf(),
            is_handle(old(self).tasks(), parent@),
            old(self).tasks().len() < u64::MAX,
        ensures
            final(self).wf(),
            child@ == parent@.push((max_child_index(old(self).tasks(), parent@) + 1) as u64),
            final(self).tasks() == old(self).tasks().push(
                TaskEntryV {
                    key: child@,
                    value: TreeValueV { title: title@, progress: None::<ProgressV> },
                },
            ),
            key_lt(parent@, child@),
            forall|i: int|
                0 <= i < old(self).tasks().len() ==> old(self).tasks()[i].key != child@,
            forall|i: int|
                0 <= i < old(self).tasks().len() && is_direct_child(
                    old(self).tasks()[i].key,
                    parent@,
                ) ==> key_lt(old(self).tasks()[i].key, child@),
            final(self).message_log() == old(self).message_log(),
            final(self).message_capacity() == old(self).message_capacity(),
    {
        let plevel = parent.level();
        let mut m: u64 = 0;
        let mut i: usize = 0;
        while i < self.entries.len()
            invariant
                i <= self.entries.len(),
                m == max_child_index(self.tasks().take(i as int), parent@),
                m == 0 || exists|j: int, c: int|
                    0 <= j < self.tasks().len() && 0 <= c < self.tasks()[j].key.len()
                        && #[trigger] self.tasks()[j].key[c] == m,
                plevel == parent@.len(),
            decreases self.entries.len() - i,
        {
            let e = &self.entries[i];
            proof {
                assert(self.tasks().take(i + 1).drop_last() =~= self.tasks().take(i as int));
                assert(self.tasks().take(i + 1).last() == self.tasks()[i as int]);
            }
            let elevel = e.key.level();
            if elevel > plevel && elevel - 1 == plevel && key_is_prefix(parent, &e.key) {
                assert(is_direct_child(self.tasks()[i as int].key, parent@));
                let last = e.key.component(plevel);
                assert(last == self.tasks()[i as int].key.last());
                if last > m {
                    m = last;
                    assert(self.tasks()[i as int].key[plevel as int] == m);
                }
            } else {
                assert(!is_direct_child(self.tasks()[i as int].key, parent@) || !(
                self.tasks()[i as int].key.last() > m));
            }
            i += 1;
        }
        proof {
            assert(self.tasks().take(self.entries.len() as int) =~= self.tasks());
            if self.wf() && m != 0 {
                assert(m <= self.tasks().len());
            }
        }
        let idx = m + 1;
        let child = parent.child(idx);
        let entry = TaskEntry {
            key: child.duplicate(),
            value: TreeValue { title, progress: None },
        };
        let ghost before = self.tasks();
        self.entries.push(entry);
        proof {
            assert(self.tasks() =~= before.push(
                TaskEntryV {
                    key: child@,
                    value: TreeValueV { title: entry.value.title@, progress: None::<ProgressV> },
                },
            ));
            assert(child@.take(parent@.len() as int) =~= parent@);
            lemma_key_lt_strict_prefix(parent@, child@);
            assert forall|i2: int|
                0 <= i2 < before.len() && is_direct_child(before[i2].key, parent@) implies key_lt(
                before[i2].key,
                child@,
            ) by {
                lemma_max_child_index_bounds(before, parent@, i2);
                lemma_key_lt_by_component(before[i2].key, child@, parent@.len() as int);
            }
            assert forall|i2: int| 0 <= i2 < before.len() implies before[i2].key != child@ by {
                if before[i2].key == child@ {
                    assert(child@.take(parent@.len() as int) =~= parent@);
                    lemma_max_child_index_bounds(before, parent@, i2);
                }
            }
            assert forall|i2: int, j2: int|
                0 <= i2 < j2 < self.tasks().len() implies self.tasks()[i2].key
                != self.tasks()[j2].key by {}
        }
        child
    }

    /// The index of the node with exactly the key `key`, if any.
    fn find_index(&self, key: &TreeKey) -> (r: Option<usize>)
        ensures
            match r {
                Some(i) => i < self.tasks().len() && self.tasks()[i as int].key == key@,
                None => !has_key(self.tasks(), key@),
            },
    {
        let mut i: usize = 0;
        while i < self.entries.len()
            invariant
                i <= self.entries.len(),
                forall|j: int| 0 <= j < i ==> self.tasks()[j].key != key@,
            decreases self.entries.len() - i,
        {
            if key_eq(&self.entries[i].key, key) {
                assert(self.tasks()[i as int].key == key@);
                return Some(i);
            }
            i += 1;
        }
        None
    }

    /// Set the node's progress shape, its target and unit, without
    /// resetting the step counter; a node not yet carrying progress
    /// starts at step zero. A key that names no node changes nothing.
    pub fn init(&mut self, key: &TreeKey, done_at: Option<ProgressStep>, unit: Option<String>)
        requires
            old(self).wf(),
        ensures
            final(self).wf(),
            final(self).message_log() == old(self).message_log(),
            final(self).message_capacity() == old(self).message_capacity(),
            final(self).tasks().len() == old(self).tasks().len(),
            forall|i: int|
                0 <= i < old(self).tasks().len() ==> final(self).tasks()[i].key == old(self).tasks()[i].key,
            forall|i: int|
                0 <= i < old(self).tasks().len() && old(self).tasks()[i].key != key@
                    ==> final(self).tasks()[i] == old(self).tasks()[i],
            forall|i: int|
                0 <= i < old(self).tasks().len() && old(self).tasks()[i].key == key@
                    ==> final(self).tasks()[i] == (TaskEntryV {
                    key: old(self).tasks()[i].key,
                    value: init_value(
                        old(self).tasks()[i].value,
                        done_at,
                        match unit {
                            Some(u) => Some(u@),
                            None => None,
                        },
                    ),
                }),
            !has_key(old(self).tasks(), key@) ==> final(self).tasks() == old(self).tasks(),
    {
        let found = self.find_index(key);
        match found {
            Some(i) => {
                let ghost before = self.tasks();
                let entry = self.entries.remove(i);
                let step = match &entry.value.progress {
                    Some(p) => p.step,
                    None => 0,
                };
                let new_entry = TaskEntry {
                    key: entry.key,
                    value: TreeValue {
                        title: entry.value.title,
                        progress: Some(Progress { step, done_at, unit }),
                    },
                };
                self.entries.insert(i, new_entry);
                proof {
                    assert(self.tasks() =~= before.update(
                        i as int,
                        TaskEntryV {
                            key: before[i as int].key,
                            value: init_value(
                                before[i as int].value,
                                done_at,
                                match new_entry.value.progress->0.unit {
                                    Some(u) => Some(u@),
                                    None => None,
                                },
                            ),
                        },
                    ));
                    assert forall|j: int|
                        0 <= j < before.len() && before[j].key == key@ implies j == i as int by {
                        if j != i as int {
                            assert(before[j].key == before[i as int].key);
                        }
                    }
                }
            },
            None => {},
        }
    }

    /// Update the node's current step counter. A node not yet carrying
    /// progress gets one with no target and no unit; a key that names no
    /// node changes nothing.
    pub fn set(&mut self, key: &TreeKey, step: ProgressStep)
        requires
            old(self).wf(),
        ensures
            final(self).wf(),
            final(self).message_log() == old(self).message_log(),
            final(self).message_capacity() == old(self).message_capacity(),
            final(self).tasks().len() == old(self).tasks().len(),
            forall|i: int|
                0 <= i < old(self).tasks().len() ==> final(self).tasks()[i].key == old(self).tasks()[i].key,
            forall|i: int|
                0 <= i < old(self).tasks().len() && old(self).tasks()[i].key != key@
                    ==> final(self).tasks()[i] == old(self).tasks()[i],
            forall|i: int|
                0 <= i < old(self).tasks().len() && old(self).tasks()[i].key == key@
                    ==> final(self).tasks()[i] == (TaskEntryV {
                    key: old(self).tasks()[i].key,
                    value: step_value(old(self).tasks()[i].value, step),
                }),
            !has_key(old(self).tasks(), key@) ==> final(self).tasks() == old(self).tasks(),
    {
        let found = self.find_index(key);
        match found {
            Some(i) => {
                let ghost before = self.tasks();
                let entry = self.entries.remove(i);
                let progress = match entry.value.progress {
                    Some(p) => Progress { step, done_at: p.done_at, unit: p.unit },
                    None => Progress { step, done_at: None, unit: None },
                };
                let new_entry = TaskEntry {
                    key: entry.key,
                    value: TreeValue { title: entry.value.title, progress: Some(progress) },
                };
                self.entries.insert(i, new_entry);
                proof {
                    assert(self.tasks() =~= before.update(
                        i as int,
                        TaskEntryV {
                            key: before[i as int].key,
                            value: step_value(before[i as int].value, step),
                        },
                    ));
                    assert forall|j: int|
                        0 <= j < before.len() && before[j].key == key@ implies j == i as int by {
                        if j != i as int {
                            assert(before[j].key == before[i as int].key);
                        }
                    }
                }
            },
            None => {},
        }
    }

    /// Append a line to the message log, evicting the oldest line once
    /// the log is full.
    pub fn push_message(&mut self, time: u64, text: String)
        requires
            old(self).wf(),
        ensures
            final(self).wf(),
            final(self).tasks() == old(self).tasks(),
            final(self).message_capacity() == old(self).message_capacity(),
            final(self).message_log() == crate::messages::ring_push(
                old(self).message_log(),
                old(self).message_capacity(),
                MessageV { time, text: text@ },
            ),
    {
        self.messages.push(Message { time, text });
    }

    /// Clear `out` and refill it with the message log's contents in
    /// chronological order, reusing its allocation.
    pub fn copy_messages(&self, out: &mut Vec<Message>)
        ensures
            msgs_view(final(out)@) == self.message_log(),
    {
        self.messages.copy_messages(out);
    }

    /// Clear `out` and refill it with one entry per task node, strictly
    /// ascending by key, which is pre-order over the tree: each node after
    /// its parent and before the parent's later siblings' subtrees. The
    /// entries are exactly the tree's nodes, no key duplicated or missing.
    pub fn sorted_snapshot(&self, out: &mut Vec<TaskEntry>)
        requires
            self.wf(),
        ensures
            entries_view(final(out)@).to_multiset() == self.tasks().to_multiset(),
            entries_view(final(out)@).len() == self.tasks().len(),
            strictly_sorted(entries_view(final(out)@)),
    {
        broadcast use vstd::seq_lib::group_to_multiset_ensures;

        let mut work: Vec<TaskEntry> = Vec::new();
        let mut i: usize = 0;
        while i < self.entries.len()
            invariant
                i <= self.entries.len(),
                work@.len() == i,
                entries_view(work@) =~= self.tasks().take(i as int),
            decreases self.entries.len() - i,
        {
            let ghost prev = work@;
            work.push(clone_entry(&self.entries[i]));
            proof {
                assert(work@ == prev.push(work@[i as int]));
                assert(work@[i as int]@ == self.entries@[i as int]@);
                assert(entries_view(work@) =~= self.tasks().take(i + 1));
            }
            i += 1;
        }
        proof {
            assert(entries_view(work@) =~= self.tasks());
        }
        out.clear();
        proof {
            assert(entries_view(out@) =~= Seq::<TaskEntryV>::empty());
            assert(entries_view(out@).to_multiset().add(entries_view(work@).to_multiset())
                =~= self.tasks().to_multiset());
        }
        while work.len() > 0
            invariant
                entries_view(out@).to_multiset().add(entries_view(work@).to_multiset())
                    == self.tasks().to_multiset(),
                sorted_by_key(entries_view(out@)),
                forall|a: int, b: int|
                    0 <= a < out@.len() && 0 <= b < work@.len() ==> key_le(
                        entries_view(out@)[a].key,
                        entries_view(work@)[b].key,
                    ),
            decreases work.len(),
        {
            let m = min_key_index(&work);
            let ghost wbefore = work@;
            let ghost obefore = out@;
            let e = work.remove(m);
            out.push(e);
            proof {
                lemma_entries_view_remove(wbefore, m as int);
                let ov0 = entries_view(obefore);
                let wv0 = entries_view(wbefore);
                ov0.to_multiset_ensures();
                wv0.to_multiset_ensures();
                assert(out@ == obefore.push(e));
                assert(entries_view(out@) =~= ov0.push(e@));
                assert(entries_view(out@).to_multiset() == ov0.push(e@).to_multiset());
                assert(entries_view(out@).to_multiset() =~= ov0.to_multiset().insert(e@));
                assert(e@ == wv0[m as int]);
                assert(wv0.contains(e@));
                assert(wv0.to_multiset().count(e@) > 0);
                assert(entries_view(work@) =~= wv0.remove(m as int));
                assert(entries_view(work@).to_multiset() == wv0.remove(m as int).to_multiset());
                assert(entries_view(work@).to_multiset() =~= wv0.to_multiset().remove(e@));
                assert(entries_view(out@).to_multiset().add(entries_view(work@).to_multiset())
                    =~= ov0.to_multiset().add(wv0.to_multiset()));
                assert forall|a: int, b: int|
                    0 <= a < out@.len() && 0 <= b < work@.len() implies key_le(
                    entries_view(out@)[a].key,
                    entries_view(work@)[b].key,
                ) by {
                    let wb = if b < m { b } else { b + 1 };
                    assert(entries_view(work@)[b] == entries_view(wbefore)[wb]);
                    if a < obefore.len() {
                        assert(entries_view(out@)[a] == entries_view(obefore)[a]);
                    } else {
                        assert(entries_view(out@)[a] == e@);
                    }
                }
                assert forall|a: int, b: int|
                    0 <= a < b < out@.len() implies key_le(
                    entries_view(out@)[a].key,
                    entries_view(out@)[b].key,
                ) by {
                    if b < obefore.len() {
                        assert(entries_view(out@)[a] == entries_view(obefore)[a]);
                        assert(entries_view(out@)[b] == entries_view(obefore)[b]);
                    } else {
                        assert(entries_view(out@)[b] == e@);
                        assert(entries_view(out@)[a] == entries_view(obefore)[a]);
                        assert(key_le(entries_view(obefore)[a].key, entries_view(wbefore)[m as int].key));
                    }
                }
            }
        }
        proof {
            entries_view(out@).to_multiset_ensures();
            self.tasks().to_multiset_ensures();
            assert(entries_view(work@) =~= Seq::<TaskEntryV>::empty());
            assert(entries_view(work@).to_multiset() =~= Multiset::<TaskEntryV>::empty());
            assert(entries_view(out@).to_multiset() =~= self.tasks().to_multiset());
            lemma_sorted_unique_strict(self.tasks(), entries_view(out@));
        }
    }
}

/// The index of an entry whose key is no larger than any other's.
fn min_key_index(work: &Vec<TaskEntry>) -> (m: usize)
    requires
        work@.len() > 0,
    ensures
        m < work@.len(),
        forall|k: int|
            0 <= k < work@.len() ==> key_le(entries_view(work@)[m as int].key, entries_view(
                work@,
            )[k].key),
{
    let mut m: usize = 0;
    let mut j: usize = 1;
    while j < work.len()
        invariant
            m < work@.len(),
            1 <= j <= work@.len(),
            forall|k: int|
                0 <= k < j ==> key_le(entries_view(work@)[m as int].key, entries_view(
                    work@,
                )[k].key),
        decreases work@.len() - j,
    {
        if key_less(&work[j].key, &work[m].key) {
            proof {
                let wj = entries_view(work@)[j as int].key;
                let wm = entries_view(work@)[m as int].key;
                assert forall|k: int| 0 <= k < j + 1 implies key_le(wj, entries_view(work@)[k].key) by {
                    if k < j {
                        let wk = entries_view(work@)[k].key;
                        if wm == wk {
                        } else {
                            assert(key_lt(wm, wk));
                            crate::key::lemma_key_lt_trans(wj, wm, wk);
                        }
                    }
                }
            }
            m = j;
        } else {
            proof {
                let wj = entries_view(work@)[j as int].key;
                let wm = entries_view(work@)[m as int].key;
                crate::key::lemma_key_lt_trichotomy(wj, wm);
                assert(key_le(wm, wj));
            }
        }
        j += 1;
    }
    m
}

/// Mapping entries to their values commutes with removing one.
proof fn lemma_entries_view_remove(s: Seq<TaskEntry>, i: int)
    requires
        0 <= i < s.len(),
    ensures
        entries_view(s.remove(i)) =~= entries_view(s).remove(i),
        forall|b: int|
            0 <= b < s.len() - 1 ==> entries_view(s.remove(i))[b] == entries_view(s)[
                if b < i {
                    b
                } else {
                    b + 1
                }
            ],
{
    assert forall|b: int| 0 <= b < s.len() - 1 implies entries_view(s.remove(i))[b]
        == entries_view(s)[
        if b < i {
            b
        } else {
            b + 1
        }
    ] by {
        if b < i {
            assert(s.remove(i)[b] == s[b]);
        } else {
            assert(s.remove(i)[b] == s[b + 1]);
        }
    }
}

/// A permutation of entries with pairwise distinct keys that is sorted by
/// key is sorted strictly: a snapshot repeats no key.
proof fn lemma_sorted_unique_strict(a: Seq<TaskEntryV>, b: Seq<TaskEntryV>)
    requires
        a.to_multiset() == b.to_multiset(),
        forall|i: int, j: int| 0 <= i < j < a.len() ==> a[i].key != a[j].key,
        sorted_by_key(b),
    ensures
        strictly_sorted(b),
{
    broadcast use vstd::seq_lib::group_to_multiset_ensures;

    assert forall|i: int, j: int| 0 <= i < j < b.len() implies key_lt(b[i].key, b[j].key) by {
        if !key_lt(b[i].key, b[j].key) {
            assert(key_le(b[i].key, b[j].key));
            assert(b[i].key == b[j].key);
            if b[i] == b[j] {
                let x = b[i];
                assert(b.remove(i).to_multiset() == b.to_multiset().remove(x));
                assert(b.remove(i)[j - 1] == b[j]);
                assert(b.remove(i).contains(x));
                assert(b.remove(i).to_multiset().count(x) > 0);
                assert(b.to_multiset().count(x) >= 2);
                assert(a.to_multiset().count(x) >= 2);
                assert(a.to_multiset().count(x) > 0);
                assert(a.contains(x));
                let i1 = choose|k: int| 0 <= k < a.len() && a[k] == x;
                assert(a.remove(i1).to_multiset() == a.to_multiset().remove(x));
                assert(a.remove(i1).to_multiset().count(x) > 0);
                assert(a.remove(i1).contains(x));
                let k2 = choose|k: int| 0 <= k < a.remove(i1).len() && a.remove(i1)[k] == x;
                let i2: int = if k2 < i1 {
                    k2
                } else {
                    k2 + 1
                };
                assert(a.remove(i1)[k2] == a[i2]);
                assert(a[i2] == x && a[i1] == x && i1 != i2);
                assert(a[i1].key == a[i2].key);
                assert(false);
            } else {
                assert(b.contains(b[i]));
                assert(b.contains(b[j]));
                assert(a.to_multiset().count(b[i]) > 0);
                assert(a.to_multiset().count(b[j]) > 0);
                assert(a.contains(b[i]));
                assert(a.contains(b[j]));
                let i1 = choose|k: int| 0 <= k < a.len() && a[k] == b[i];
                let i2 = choose|k: int| 0 <= k < a.len() && a[k] == b[j];
                assert(i1 != i2);
                assert(a[i1].key == a[i2].key);
                assert(false);
            }
        }
    }
}

/// An identical, independently owned task value.
fn clone_value(v: &TreeValue) -> (r: TreeValue)
    ensures
        r@ == v@,
{
    let progress = match &v.progress {
        Some(p) => Some(
            Progress {
                step: p.step,
                done_at: p.done_at,
                unit: match &p.unit {
                    Some(u) => Some(u.clone()),
                    None => None,
                },
            },
        ),
        None => None,
    };
    TreeValue { title: v.title.clone(), progress }
}

/// An identical, independently owned snapshot entry.
fn clone_entry(e: &TaskEntry) -> (r: TaskEntry)
    ensures
        r@ == e@,
{
    TaskEntry { key: e.key.duplicate(), value: clone_value(&e.value) }
}

/// Whether the entries are strictly ascending by key: the order of a
/// well-formed snapshot.
pub open spec fn strictly_sorted(s: Seq<TaskEntryV>) -> bool {
    forall|i: int, j: int| 0 <= i < j < s.len() ==> key_lt(s[i].key, s[j].key)
}

/// Whether the entries are ascending by key, allowing equal neighbours.
pub open spec fn sorted_by_key(s: Seq<TaskEntryV>) -> bool {
    forall|i: int, j: int| 0 <= i < j < s.len() ==> key_le(s[i].key, s[j].key)
}

/// A sibling index reported by [`max_child_index`] belongs to some direct
/// child, and bounds the index of the direct child at position `i`.
proof fn lemma_max_child_index_bounds(s: Seq<TaskEntryV>, p: Seq<u64>, i: int)
    requires
        0 <= i < s.len(),
        is_direct_child(s[i].key, p),
    ensures
        s[i].key.last() <= max_child_index(s, p),
        s[i].key[p.len() as int] <= max_child_index(s, p),
    decreases s.len(),
{
    if i == s.len() - 1 {
        assert(s.last() == s[i]);
    } else {
        assert(s.drop_last()[i] == s[i]);
        lemma_max_child_index_bounds(s.drop_last(), p, i);
    }
    assert(s[i].key.last() == s[i].key[p.len() as int]);
}

/// Whether the keys `a` and `b` are the same path.
pub fn key_eq(a: &TreeKey, b: &TreeKey) -> (r: bool)
    ensures
        r == (a@ == b@),
{
    if a.level() != b.level() {
        proof {
            assert(a@ != b@);
        }
        return false;
    }
    let n = a.level();
    let mut i: usize = 0;
    while i < n
        invariant
            n == a@.len(),
            n == b@.len(),
            i <= n,
            forall|j: int| 0 <= j < i ==> a@[j] == b@[j],
        decreases n - i,
    {
        if a.component(i) != b.component(i) {
            return false;
        }
        i += 1;
    }
    proof {
        assert(a@ =~= b@);
    }
    true
}

/// Whether `p` is a prefix of `k`, at a strictly smaller depth or the
/// whole of it.
pub fn key_is_prefix(p: &TreeKey, k: &TreeKey) -> (r: bool)
    ensures
        r == (p@.len() <= k@.len() && k@.take(p@.len() as int) == p@),
{
    let plen = p.level();
    if plen > k.level() {
        return false;
    }
    let mut i: usize = 0;
    while i < plen
        invariant
            plen == p@.len(),
            plen <= k@.len(),
            i <= plen,
            forall|j: int| 0 <= j < i ==> k@[j] == p@[j],
        decreases plen - i,
    {
        if k.component(i) != p.component(i) {
            assert(k@.take(plen as int)[i as int] != p@[i as int]);
            return false;
        }
        i += 1;
    }
    proof {
        assert(k@.take(plen as int) =~= p@);
    }
    true
}

} // verus!
