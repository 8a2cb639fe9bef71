//! The entry collection: an always-sorted-by-start-time store with push,
//! pop-most-recent and sorted drain, and the stop/note operations on the
//! most recently started entry.
use crate::entry::{entry_valid, start_key, Entry, Timestamp};
use vstd::prelude::*;

verus! {

/// A sequence of entries in ascending order of start time.
pub open spec fn sorted_by_start(s: Seq<Entry>) -> bool {
    forall|i: int, j: int| 0 <= i < j < s.len() ==> start_key(#[trigger] s[i]) <= start_key(
        #[trigger] s[j],
    )
}

/// Why a stop or note operation can fail: there is nothing to work on, or
/// the most recent entry was already completed. The two are distinct.
#[derive(Clone, Copy, PartialEq, Eq, Structural, Debug)]
pub enum OpError {
    /// The collection holds no entry at all.
    Empty,
    /// The most recently started entry already has its stop time set.
    AlreadyStopped,
}

/// `post` is `pre` with the session completed: stop time and result set,
/// everything else unchanged.
pub open spec fn stopped_version(post: Entry, pre: Entry, stop: Timestamp, result: String) -> bool {
    &&& post.start == pre.start
    &&& post.stop == Some(stop)
    &&& post.goal == pre.goal
    &&& post.result == result
    &&& post.notes == pre.notes
}

/// `post` is `pre` with one more note appended.
pub open spec fn noted_version(post: Entry, pre: Entry, note: String) -> bool {
    &&& post.start == pre.start
    &&& post.stop == pre.stop
    &&& post.goal == pre.goal
    &&& post.result == pre.result
    &&& post.notes@ == pre.notes@.push(note)
}

/// A freshly started entry: the given start time and goal, nothing else.
pub open spec fn fresh_entry(x: Entry, start: Timestamp, goal: String) -> bool {
    &&& x.start == Some(start)
    &&& x.stop is None
    &&& x.goal == goal
    &&& x.result@ == Seq::<char>::empty()
    &&& x.notes@ == Seq::<String>::empty()
}

/// Every element but the last is unchanged between two sequences of equal
/// length.
pub open spec fn same_but_last(post: Seq<Entry>, pre: Seq<Entry>) -> bool {
    &&& post.len() == pre.len()
    &&& forall|j: int| 0 <= j < pre.len() - 1 ==> post[j] == pre[j]
}

/// The collection of log entries, kept sorted ascending by start time so
/// that the most recently started entry is always at the end.
pub struct Log {
    entries: Vec<Entry>,
}

impl View for Log {
    type V = Seq<Entry>;

    closed spec fn view(&self) -> Seq<Entry> {
        self.entries@
    }
}

/// Inserting into a sequence inserts into its multiset.
pub proof fn lemma_multiset_insert<T>(s: Seq<T>, k: int, e: T)
    requires
        0 <= k <= s.len(),
    ensures
        s.insert(k, e).to_multiset() == s.to_multiset().insert(e),
{
    broadcast use vstd::seq_lib::group_to_multiset_ensures;

    let t = s.insert(k, e);
    assert(t.remove(k) =~= s);
    assert(t[k] == e);
    assert(t.remove(k).to_multiset() =~= t.to_multiset().remove(t[k]));
    assert(t.contains(e));
    assert(t.to_multiset().count(e) > 0);
    assert(t.to_multiset() =~= s.to_multiset().insert(e));
}

impl Log {
    /// The collection's invariant: sorted by start time, every timestamp in
    /// the supported range.
    pub open spec fn wf(self) -> bool {
        &&& sorted_by_start(self@)
        &&& forall|i: int| 0 <= i < self@.len() ==> entry_valid(#[trigger] self@[i])
    }

    /// An empty collection.
    pub fn new() -> (r: Log)
        ensures
            r@ =~= Seq::<Entry>::empty(),
            r.wf(),
    {
        Log { entries: Vec::new() }
    }

    pub fn len(&self) -> (r: usize)
        ensures
            r == self@.len(),
    {
        self.entries.len()
    }

    /// Adds an entry, keeping the collection sorted: it is placed after
    /// every entry that starts no later than it does.
    pub fn push(&mut self, e: Entry)
        requires
            old(self).wf(),
            entry_valid(e),
        ensures
            final(self).wf(),
            exists|k: int| 0 <= k <= old(self)@.len() && final(self)@ == old(self)@.insert(k, e),
            final(self)@.len() == old(self)@.len() + 1,
            final(self)@.to_multiset() == old(self)@.to_multiset().insert(e),
    {
        let mut i: usize = self.entries.len();
        while i > 0 && matches!(self.entries[i - 1].cmp(&e), core::cmp::Ordering::Greater)
            invariant
                i <= self.entries.len(),
                forall|j: int|
                    i <= j < self.entries@.len() ==> start_key(#[trigger] self.entries@[j])
                        > start_key(e),
            decreases i,
        {
            i = i - 1;
        }
        let ghost before = self.entries@;
        let ghost k = i as int;
        self.entries.insert(i, e);
        proof {
            assert(self.entries@ =~= before.insert(k, e));
            assert forall|p: int, q: int| 0 <= p < q < self.entries@.len() implies start_key(
                #[trigger] self.entries@[p],
            ) <= start_key(#[trigger] self.entries@[q]) by {
                assert(k == 0 || start_key(before[k - 1]) <= start_key(e));
            }
            lemma_multiset_insert(before, k, e);
        }
    }

    /// Removes and returns the entry with the greatest start time, or `None`
    /// when the collection is empty.
    pub fn pop_most_recent(&mut self) -> (r: Option<Entry>)
        requires
            old(self).wf(),
        ensures
            final(self).wf(),
            old(self)@.len() == 0 ==> r is None && final(self)@ == old(self)@,
            old(self)@.len() > 0 ==> r == Some(old(self)@.last()) && final(self)@ == old(
                self,
            )@.drop_last() && forall|j: int|
                0 <= j < old(self)@.len() ==> start_key(#[trigger] old(self)@[j]) <= start_key(
                    old(self)@.last(),
                ),
    {
        self.entries.pop()
    }

    /// Consumes the collection, yielding all entries ascending by start
    /// time.
    pub fn into_sorted_vec(self) -> (r: Vec<Entry>)
        requires
            self.wf(),
        ensures
            r@ == self@,
            sorted_by_start(r@),
    {
        self.entries
    }

    /// Opens a new session: adds an entry with the given start time and
    /// goal and nothing else set.
    pub fn start_entry(&mut self, start: Timestamp, goal: String)
        requires
            old(self).wf(),
            start.valid(),
        ensures
            final(self).wf(),
            final(self)@.len() == old(self)@.len() + 1,
            exists|k: int|
                0 <= k <= old(self)@.len() && final(self)@ == old(self)@.insert(
                    k,
                    final(self)@[k],
                ) && fresh_entry(final(self)@[k], start, goal),
    {
        let e = Entry { start: Some(start), stop: None, goal, result: String::new(), notes: Vec::new() };
        self.push(e);
        proof {
            let k = choose|k: int|
                0 <= k <= old(self)@.len() && final(self)@ == old(self)@.insert(k, e);
            assert(final(self)@[k] == e);
        }
    }

    /// Completes the most recently started entry: sets its stop time and
    /// result. Fails with `Empty` on an empty collection and with
    /// `AlreadyStopped` when that entry is already completed; on failure
    /// the collection is unchanged.
    pub fn stop_latest(&mut self, stop: Timestamp, result: String) -> (r: Result<(), OpError>)
        requires
            old(self).wf(),
            stop.valid(),
        ensures
            final(self).wf(),
            r == Err::<(), OpError>(OpError::Empty) <==> old(self)@.len() == 0,
            r == Err::<(), OpError>(OpError::AlreadyStopped) <==> old(self)@.len() > 0 && old(
                self,
            )@.last().stop is Some,
            r is Err ==> final(self)@ == old(self)@,
            r is Ok ==> same_but_last(final(self)@, old(self)@) && stopped_version(
                final(self)@.last(),
                old(self)@.last(),
                stop,
                result,
            ),
    {
        let ghost before = self.entries@;
        match self.entries.pop() {
            None => Err(OpError::Empty),
            Some(last) => {
                if last.stop.is_some() {
                    self.entries.push(last);
                    proof {
                        assert(self.entries@ =~= before);
                    }
                    Err(OpError::AlreadyStopped)
                } else {
                    let updated = Entry {
                        start: last.start,
                        stop: Some(stop),
                        goal: last.goal,
                        result: result,
                        notes: last.notes,
                    };
                    self.entries.push(updated);
                    Ok(())
                }
            },
        }
    }

    /// Appends a note to the most recently started entry, completed or not.
    /// Fails with `Empty` on an empty collection, leaving it unchanged.
    pub fn add_note(&mut self, note: String) -> (r: Result<(), OpError>)
        requires
            old(self).wf(),
        ensures
            final(self).wf(),
            r is Ok <==> old(self)@.len() > 0,
            r == Err::<(), OpError>(OpError::Empty) <==> old(self)@.len() == 0,
            r is Err ==> final(self)@ == old(self)@,
            r is Ok ==> same_but_last(final(self)@, old(self)@) && noted_version(
                final(self)@.last(),
                old(self)@.last(),
                note,
            ),
    {
        let ghost before = self.entries@;
        match self.entries.pop() {
            None => Err(OpError::Empty),
            Some(last) => {
                let mut updated = last;
                updated.notes.push(note);
                self.entries.push(updated);
                Ok(())
            },
        }
    }
}

} // verus!
