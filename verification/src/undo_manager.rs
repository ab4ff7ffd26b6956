//! Per-note undo history: a stack of content snapshots with a cursor.
//!
//! Each note, keyed by its relative path, owns an ordered sequence of
//! snapshots and a cursor with `0 <= cursor <= snapshots.len()`. Recording
//! an edit truncates everything at and beyond the cursor (discarding any
//! redo branch), pushes the pre-edit content and advances the cursor; undo
//! steps the cursor back one snapshot at a time and yields the snapshot it
//! lands on. Entries follow a note through renames and die with it.

use vstd::prelude::*;

verus! {

/// The history of one note: snapshots in recording order, and the cursor.
pub struct HistoryView {
    pub snapshots: Seq<Seq<char>>,
    pub cursor: int,
}

struct UndoEntry {
    key: String,
    snapshots: Vec<String>,
    cursor: usize,
}

/// The per-note undo histories, keyed by relative path.
pub struct UndoManager {
    entries: Vec<UndoEntry>,
}

spec fn entry_view(e: UndoEntry) -> HistoryView {
    HistoryView { snapshots: e.snapshots.deep_view(), cursor: e.cursor as int }
}

spec fn keys_match(s: Seq<UndoEntry>, k: Seq<char>, i: int) -> bool {
    0 <= i < s.len() && s[i].key@ == k
}

/// The empty history: no snapshots, cursor at zero.
pub open spec fn empty_history() -> HistoryView {
    HistoryView { snapshots: Seq::empty(), cursor: 0 }
}

/// The history after recording `content`: the redo branch beyond the
/// cursor is discarded, `content` is appended, and the cursor moves past it.
pub open spec fn recorded(h: HistoryView, content: Seq<char>) -> HistoryView {
    HistoryView { snapshots: h.snapshots.take(h.cursor).push(content), cursor: h.cursor + 1 }
}

impl UndoManager {
    /// Well-formedness: keys are unique and every cursor stays within its
    /// snapshot sequence.
    pub closed spec fn wf(self) -> bool {
        &&& forall|i: int, j: int|
            0 <= i < j < self.entries@.len() ==> self.entries@[i].key@ != self.entries@[j].key@
        &&& forall|i: int|
            0 <= i < self.entries@.len() ==> #[trigger] self.entries@[i].cursor
                <= self.entries@[i].snapshots@.len()
    }

    /// Whether a history entry exists under this key.
    pub closed spec fn has_entry(self, k: Seq<char>) -> bool {
        exists|i: int| keys_match(self.entries@, k, i)
    }

    /// The history under this key; a missing entry reads as the empty
    /// history.
    pub closed spec fn history_of(self, k: Seq<char>) -> HistoryView {
        if self.has_entry(k) {
            entry_view(self.entries@[choose|i: int| keys_match(self.entries@, k, i)])
        } else {
            empty_history()
        }
    }

    /// A manager with no histories at all.
    pub fn new() -> (r: UndoManager)
        ensures
            r.wf(),
            forall|k: Seq<char>| !r.has_entry(k),
            forall|k: Seq<char>| r.history_of(k) == empty_history(),
    {
        UndoManager { entries: Vec::new() }
    }

    fn find_entry(&self, key: &str) -> (r: Option<usize>)
        requires
            self.wf(),
        ensures
            match r {
                Some(i) => keys_match(self.entries@, key@, i as int),
                None => !self.has_entry(key@),
            },
    {
        let mut i: usize = 0;
        while i < self.entries.len()
            invariant
                i <= self.entries.len(),
                forall|k: int| 0 <= k < i ==> self.entries@[k].key@ != key@,
            decreases self.entries.len() - i,
        {
            if crate::text::str_eq(self.entries[i].key.as_str(), key) {
                return Some(i);
            }
            i = i + 1;
        }
        None
    }

    proof fn lemma_entry_at(self, k: Seq<char>, i: int)
        requires
            self.wf(),
            keys_match(self.entries@, k, i),
        ensures
            self.has_entry(k),
            self.history_of(k) == entry_view(self.entries@[i]),
    {
        let j = choose|j: int| keys_match(self.entries@, k, j);
        assert(j == i);
    }

    /// Makes sure an entry exists under `note_path` and parks the cursor at
    /// the end of whatever snapshots the entry already holds, so a later
    /// undo starts from the most recent snapshot.
    pub fn initialize_history(&mut self, note_path: &str)
        requires
            old(self).wf(),
        ensures
            final(self).wf(),
            final(self).has_entry(note_path@),
            final(self).history_of(note_path@) == (HistoryView {
                snapshots: old(self).history_of(note_path@).snapshots,
                cursor: old(self).history_of(note_path@).snapshots.len() as int,
            }),
            forall|k: Seq<char>| k != note_path@ ==> final(self).has_entry(k) == old(
                self,
            ).has_entry(k),
            forall|k: Seq<char>| k != note_path@ ==> final(self).history_of(k) == old(
                self,
            ).history_of(k),
    {
        let ghost pre = self.entries@;
        match self.find_entry(note_path) {
            Some(i) => {
                let ghost gi = i as int;
                proof {
                    old(self).lemma_entry_at(note_path@, gi);
                }
                let n = self.entries[i].snapshots.len();
                let key = self.entries[i].key.clone();
                let snapshots = crate::text::clone_strings(&self.entries[i].snapshots);
                let e = UndoEntry { key, snapshots, cursor: n };
                let _ = self.entries.remove(i);
                self.entries.insert(i, e);
                assert(self.entries@ =~= pre.update(gi, self.entries@[gi]));
                proof {
                    self.lemma_same_keys_update(*old(self), gi, note_path@);
                }
            },
            None => {
                let e = UndoEntry { key: note_path.to_owned(), snapshots: Vec::new(), cursor: 0 };
                self.entries.push(e);
                proof {
                    self.lemma_push_new(*old(self), note_path@);
                    assert(final(self).history_of(note_path@).snapshots =~= Seq::<
                        Seq<char>,
                    >::empty());
                }
            },
        }
    }

    proof fn lemma_same_keys_update(self, pre: UndoManager, i: int, k: Seq<char>)
        requires
            pre.wf(),
            0 <= i < pre.entries@.len(),
            self.entries@ == pre.entries@.update(i, self.entries@[i]),
            self.entries@[i].key@ == pre.entries@[i].key@,
            pre.entries@[i].key@ == k,
            self.entries@[i].cursor <= self.entries@[i].snapshots@.len(),
        ensures
            self.wf(),
            self.has_entry(k),
            self.history_of(k) == entry_view(self.entries@[i]),
            forall|q: Seq<char>| q != k ==> self.has_entry(q) == pre.has_entry(q),
            forall|q: Seq<char>| q != k ==> self.history_of(q) == pre.history_of(q),
    {
        assert forall|q: Seq<char>| q != k implies self.has_entry(q) == pre.has_entry(q) by {
            if pre.has_entry(q) {
                let j = choose|j: int| keys_match(pre.entries@, q, j);
                assert(keys_match(self.entries@, q, j));
            }
            if self.has_entry(q) {
                let j = choose|j: int| keys_match(self.entries@, q, j);
                assert(keys_match(pre.entries@, q, j));
            }
        }
        assert forall|q: Seq<char>| q != k && self.has_entry(q) implies self.history_of(q)
            == pre.history_of(q) by {
            let j = choose|j: int| keys_match(self.entries@, q, j);
            assert(j != i);
            assert(keys_match(pre.entries@, q, j));
            pre.lemma_entry_at(q, j);
            self.lemma_entry_at(q, j);
        }
        self.lemma_entry_at(k, i);
    }

    proof fn lemma_push_new(self, pre: UndoManager, k: Seq<char>)
        requires
            pre.wf(),
            !pre.has_entry(k),
            self.entries@ == pre.entries@.push(self.entries@.last()),
            self.entries@.last().key@ == k,
            self.entries@.last().cursor <= self.entries@.last().snapshots@.len(),
        ensures
            self.wf(),
            self.has_entry(k),
            self.history_of(k) == entry_view(self.entries@.last()),
            forall|q: Seq<char>| q != k ==> self.has_entry(q) == pre.has_entry(q),
            forall|q: Seq<char>| q != k ==> self.history_of(q) == pre.history_of(q),
    {
        let n = pre.entries@.len();
        assert(forall|j: int| 0 <= j < n ==> self.entries@[j] == pre.entries@[j]);
        assert forall|j: int| 0 <= j < n implies pre.entries@[j].key@ != k by {
            assert(!keys_match(pre.entries@, k, j));
        }
        assert(keys_match(self.entries@, k, n as int));
        assert forall|q: Seq<char>| q != k implies self.has_entry(q) == pre.has_entry(q) by {
            if pre.has_entry(q) {
                let j = choose|j: int| keys_match(pre.entries@, q, j);
                assert(keys_match(self.entries@, q, j));
            }
            if self.has_entry(q) {
                let j = choose|j: int| keys_match(self.entries@, q, j);
                assert(j < n);
                assert(keys_match(pre.entries@, q, j));
            }
        }
        assert forall|q: Seq<char>| q != k && self.has_entry(q) implies self.history_of(q)
            == pre.history_of(q) by {
            let j = choose|j: int| keys_match(self.entries@, q, j);
            assert(keys_match(pre.entries@, q, j));
            pre.lemma_entry_at(q, j);
            self.lemma_entry_at(q, j);
        }
        self.lemma_entry_at(k, n as int);
    }

    /// Records the content that stands just before an edit: discards the
    /// redo branch beyond the cursor, appends the content, and advances
    /// the cursor — see [`recorded`].
    pub fn add_to_history(&mut self, note_path: &str, content: String)
        requires
            old(self).wf(),
        ensures
            final(self).wf(),
            final(self).has_entry(note_path@),
            final(self).history_of(note_path@) == recorded(
                old(self).history_of(note_path@),
                content@,
            ),
            forall|k: Seq<char>| k != note_path@ ==> final(self).has_entry(k) == old(
                self,
            ).has_entry(k),
            forall|k: Seq<char>| k != note_path@ ==> final(self).history_of(k) == old(
                self,
            ).history_of(k),
    {
        let ghost pre = self.entries@;
        match self.find_entry(note_path) {
            Some(i) => {
                let ghost gi = i as int;
                proof {
                    old(self).lemma_entry_at(note_path@, gi);
                }
                let key = self.entries[i].key.clone();
                let cursor = self.entries[i].cursor;
                let mut snapshots = crate::text::clone_strings(&self.entries[i].snapshots);
                snapshots.truncate(cursor);
                assert(snapshots.deep_view() =~= old(self).history_of(note_path@).snapshots.take(
                    old(self).history_of(note_path@).cursor,
                ));
                snapshots.push(content);
                let new_cursor = snapshots.len();
                let e = UndoEntry { key, snapshots, cursor: new_cursor };
                let _ = self.entries.remove(i);
                self.entries.insert(i, e);
                assert(self.entries@ =~= pre.update(gi, self.entries@[gi]));
                proof {
                    self.lemma_same_keys_update(*old(self), gi, note_path@);
                    assert(final(self).history_of(note_path@).snapshots =~= recorded(
                        old(self).history_of(note_path@),
                        content@,
                    ).snapshots);
                }
            },
            None => {
                let mut snapshots: Vec<String> = Vec::new();
                snapshots.push(content);
                let e = UndoEntry { key: note_path.to_owned(), snapshots, cursor: 1 };
                self.entries.push(e);
                proof {
                    self.lemma_push_new(*old(self), note_path@);
                    assert(final(self).history_of(note_path@).snapshots =~= recorded(
                        old(self).history_of(note_path@),
                        content@,
                    ).snapshots);
                }
            },
        }
    }

    /// Seeds the history when a note's body has just been loaded. An empty
    /// history takes the loaded content as its first snapshot (none when
    /// the content is empty); a history whose cursor stands on a snapshot
    /// different from the loaded content — the file changed outside the
    /// editor — takes the loaded content as a fresh snapshot at the end.
    pub fn handle_initial_content(&mut self, note_path: &str, content: &str)
        requires
            old(self).wf(),
        ensures
            final(self).wf(),
            final(self).has_entry(note_path@),
            final(self).history_of(note_path@) == ({
                let h = old(self).history_of(note_path@);
                if h.snapshots.len() == 0 {
                    if content@.len() > 0 {
                        HistoryView { snapshots: seq![content@], cursor: 1 }
                    } else {
                        empty_history()
                    }
                } else if h.cursor > 0 && h.snapshots[h.cursor - 1] != content@ {
                    HistoryView {
                        snapshots: h.snapshots.push(content@),
                        cursor: h.snapshots.len() + 1int,
                    }
                } else {
                    h
                }
            }),
            forall|k: Seq<char>| k != note_path@ ==> final(self).has_entry(k) == old(
                self,
            ).has_entry(k),
            forall|k: Seq<char>| k != note_path@ ==> final(self).history_of(k) == old(
                self,
            ).history_of(k),
    {
        let ghost pre = self.entries@;
        match self.find_entry(note_path) {
            Some(i) => {
                let ghost gi = i as int;
                proof {
                    old(self).lemma_entry_at(note_path@, gi);
                }
                let key = self.entries[i].key.clone();
                let cursor = self.entries[i].cursor;
                let mut snapshots = crate::text::clone_strings(&self.entries[i].snapshots);
                let n = snapshots.len();
                let new_entry: UndoEntry = if n == 0 {
                    if content.unicode_len() > 0 {
                        snapshots.push(content.to_owned());
                        UndoEntry { key, snapshots, cursor: 1 }
                    } else {
                        UndoEntry { key, snapshots, cursor }
                    }
                } else if cursor > 0 && !crate::text::str_eq(
                    snapshots[cursor - 1].as_str(),
                    content,
                ) {
                    snapshots.push(content.to_owned());
                    let new_cursor = snapshots.len();
                    UndoEntry { key, snapshots, cursor: new_cursor }
                } else {
                    UndoEntry { key, snapshots, cursor }
                };
                let _ = self.entries.remove(i);
                self.entries.insert(i, new_entry);
                assert(self.entries@ =~= pre.update(gi, self.entries@[gi]));
                proof {
                    self.lemma_same_keys_update(*old(self), gi, note_path@);
                    let h = old(self).history_of(note_path@);
                    if h.snapshots.len() == 0 {
                        if content@.len() > 0 {
                            assert(final(self).history_of(note_path@).snapshots =~= seq![
                                content@,
                            ]);
                        } else {
                            assert(final(self).history_of(note_path@).snapshots =~= Seq::<
                                Seq<char>,
                            >::empty());
                        }
                    } else if h.cursor > 0 && h.snapshots[h.cursor - 1] != content@ {
                        assert(final(self).history_of(note_path@).snapshots =~= h.snapshots.push(
                            content@,
                        ));
                    }
                }
            },
            None => {
                let mut snapshots: Vec<String> = Vec::new();
                let new_entry: UndoEntry = if content.unicode_len() > 0 {
                    snapshots.push(content.to_owned());
                    UndoEntry { key: note_path.to_owned(), snapshots, cursor: 1 }
                } else {
                    UndoEntry { key: note_path.to_owned(), snapshots, cursor: 0 }
                };
                self.entries.push(new_entry);
                proof {
                    self.lemma_push_new(*old(self), note_path@);
                    if content@.len() > 0 {
                        assert(final(self).history_of(note_path@).snapshots =~= seq![content@]);
                    } else {
                        assert(final(self).history_of(note_path@).snapshots =~= Seq::<
                            Seq<char>,
                        >::empty());
                    }
                }
            },
        }
    }

    /// Steps the cursor back one snapshot and yields the snapshot it lands
    /// on; yields nothing when the cursor already stands at the bottom.
    pub fn get_previous_content(&mut self, note_path: &str) -> (r: Option<String>)
        requires
            old(self).wf(),
        ensures
            final(self).wf(),
            ({
                let h = old(self).history_of(note_path@);
                if h.cursor > 0 {
                    &&& r matches Some(s) && s@ == h.snapshots[h.cursor - 1]
                    &&& final(self).history_of(note_path@) == (HistoryView {
                        snapshots: h.snapshots,
                        cursor: h.cursor - 1,
                    })
                } else {
                    r is None && *final(self) == *old(self)
                }
            }),
            forall|k: Seq<char>| final(self).has_entry(k) == old(self).has_entry(k),
            forall|k: Seq<char>| k != note_path@ ==> final(self).history_of(k) == old(
                self,
            ).history_of(k),
    {
        let ghost pre = self.entries@;
        match self.find_entry(note_path) {
            Some(i) => {
                let ghost gi = i as int;
                proof {
                    old(self).lemma_entry_at(note_path@, gi);
                }
                let cursor = self.entries[i].cursor;
                if cursor > 0 {
                    let key = self.entries[i].key.clone();
                    let snapshots = crate::text::clone_strings(&self.entries[i].snapshots);
                    let content = snapshots[cursor - 1].clone();
                    let e = UndoEntry { key, snapshots, cursor: cursor - 1 };
                    let _ = self.entries.remove(i);
                    self.entries.insert(i, e);
                    assert(self.entries@ =~= pre.update(gi, self.entries@[gi]));
                    proof {
                        self.lemma_same_keys_update(*old(self), gi, note_path@);
                    }
                    Some(content)
                } else {
                    None
                }
            },
            None => None,
        }
    }

    /// Moves the history from one key to another, keeping snapshots and
    /// cursor; used after a successful single-note move. With no history
    /// under the old key nothing changes; a history already under the new
    /// key is replaced.
    pub fn handle_path_change(&mut self, old_path: &str, new_path: &str)
        requires
            old(self).wf(),
        ensures
            final(self).wf(),
            !old(self).has_entry(old_path@) ==> *final(self) == *old(self),
            old(self).has_entry(old_path@) && new_path@ == old_path@ ==> *final(self) == *old(self),
            old(self).has_entry(old_path@) && new_path@ != old_path@ ==> {
                &&& !final(self).has_entry(old_path@)
                &&& final(self).has_entry(new_path@)
                &&& final(self).history_of(new_path@) == old(self).history_of(old_path@)
                &&& forall|k: Seq<char>|
                    k != old_path@ && k != new_path@ ==> final(self).has_entry(k) == old(
                        self,
                    ).has_entry(k) && final(self).history_of(k) == old(self).history_of(k)
            },
    {
        if crate::text::str_eq(old_path, new_path) {
            return ;
        }
        match self.find_entry(old_path) {
            Some(i) => {
                let ghost mid0 = *self;
                proof {
                    old(self).lemma_entry_at(old_path@, i as int);
                }
                let moved = self.entries.remove(i);
                proof {
                    Self::lemma_remove(mid0, *self, i as int);
                }
                let ghost mid1 = *self;
                // Drop any entry already sitting under the new key, as an
                // insertion into a map would.
                match self.find_entry(new_path) {
                    Some(j) => {
                        let ghost mid1b = *self;
                        proof {
                            mid1.lemma_entry_at(new_path@, j as int);
                        }
                        let _ = self.entries.remove(j);
                        proof {
                            Self::lemma_remove(mid1b, *self, j as int);
                        }
                    },
                    None => {},
                }
                let ghost mid2 = *self;
                let e = UndoEntry {
                    key: new_path.to_owned(),
                    snapshots: moved.snapshots,
                    cursor: moved.cursor,
                };
                self.entries.push(e);
                proof {
                    self.lemma_push_new(mid2, new_path@);
                }
            },
            None => {},
        }
    }

    proof fn lemma_remove(pre: UndoManager, post: UndoManager, i: int)
        requires
            pre.wf(),
            0 <= i < pre.entries@.len(),
            post.entries@ == pre.entries@.remove(i),
        ensures
            post.wf(),
            !post.has_entry(pre.entries@[i].key@),
            forall|k: Seq<char>|
                k != pre.entries@[i].key@ ==> post.has_entry(k) == pre.has_entry(k)
                    && post.history_of(k) == pre.history_of(k),
    {
        let n = pre.entries@.len();
        let removed_key = pre.entries@[i].key@;
        assert(forall|j: int| 0 <= j < i ==> post.entries@[j] == pre.entries@[j]);
        assert(forall|j: int| i <= j < n - 1 ==> post.entries@[j] == pre.entries@[j + 1]);
        assert forall|j: int| 0 <= j < n - 1 implies post.entries@[j].key@ != removed_key by {
            if j < i {
                assert(pre.entries@[j].key@ != pre.entries@[i].key@);
            } else {
                assert(pre.entries@[j + 1].key@ != pre.entries@[i].key@);
            }
        }
        assert forall|k: Seq<char>| k != removed_key implies post.has_entry(k) == pre.has_entry(k)
            && post.history_of(k) == pre.history_of(k) by {
            if pre.has_entry(k) {
                let j = choose|j: int| keys_match(pre.entries@, k, j);
                if j < i {
                    assert(keys_match(post.entries@, k, j));
                    pre.lemma_entry_at(k, j);
                    post.lemma_entry_at(k, j);
                } else {
                    assert(j > i);
                    assert(keys_match(post.entries@, k, j - 1));
                    pre.lemma_entry_at(k, j);
                    post.lemma_entry_at(k, j - 1);
                }
            } else {
                if post.has_entry(k) {
                    let j = choose|j: int| keys_match(post.entries@, k, j);
                    if j < i {
                        assert(keys_match(pre.entries@, k, j));
                    } else {
                        assert(keys_match(pre.entries@, k, j + 1));
                    }
                }
            }
        }
    }

    /// Discards the history under this key, if any; used after a delete.
    pub fn remove_history(&mut self, note_path: &str)
        requires
            old(self).wf(),
        ensures
            final(self).wf(),
            !final(self).has_entry(note_path@),
            final(self).history_of(note_path@) == empty_history(),
            forall|k: Seq<char>| k != note_path@ ==> final(self).has_entry(k) == old(
                self,
            ).has_entry(k) && final(self).history_of(k) == old(self).history_of(k),
    {
        match self.find_entry(note_path) {
            Some(i) => {
                let ghost mid = *self;
                proof {
                    old(self).lemma_entry_at(note_path@, i as int);
                }
                let _ = self.entries.remove(i);
                proof {
                    Self::lemma_remove(mid, *self, i as int);
                }
            },
            None => {},
        }
    }
}

/// The bound every well-formed manager keeps on every history: the
/// cursor never leaves the snapshot sequence. A caller that only sees
/// the public contracts can rely on this when composing [`recorded`]
/// effects, for instance to know that recording truncates nothing when
/// the cursor stands at the end.
pub proof fn lemma_history_cursor_bounds(m: UndoManager, k: Seq<char>)
    requires
        m.wf(),
    ensures
        0 <= m.history_of(k).cursor <= m.history_of(k).snapshots.len(),
{
    if m.has_entry(k) {
        let i = choose|i: int| keys_match(m.entries@, k, i);
        assert(m.entries@[i].cursor <= m.entries@[i].snapshots@.len());
        assert(entry_view(m.entries@[i]).snapshots.len() == m.entries@[i].snapshots@.len());
    }
}

/// Undo is linear and last-in-first-out: after two recordings the first
/// undo yields the content recorded last, the next undo yields the one
/// recorded before it, and once the cursor has walked back past every
/// snapshot — immediately so when the history started empty — a further
/// undo yields nothing.
pub proof fn lemma_undo_linearity(h: HistoryView, c1: Seq<char>, c2: Seq<char>)
    requires
        0 <= h.cursor <= h.snapshots.len(),
    ensures
        ({
            let h2 = recorded(recorded(h, c1), c2);
            &&& h2.cursor > 0
            &&& h2.snapshots[h2.cursor - 1] == c2
            &&& h2.cursor - 1 > 0
            &&& h2.snapshots[h2.cursor - 2] == c1
            &&& h.cursor == 0 ==> h2.cursor - 2 == 0
        }),
{
}

/// Recording after an undo discards the redo branch for good: every
/// snapshot that stood at or beyond the cursor, unless it equals the
/// newly recorded content or some snapshot kept below the cursor, occurs
/// nowhere in the new history, so no undo sequence can reach it again.
pub proof fn lemma_record_discards_redo(h: HistoryView, content: Seq<char>, j: int)
    requires
        0 <= h.cursor <= h.snapshots.len(),
        h.cursor <= j < h.snapshots.len(),
        h.snapshots[j] != content,
        forall|i: int| 0 <= i < h.cursor ==> h.snapshots[i] != h.snapshots[j],
    ensures
        !recorded(h, content).snapshots.contains(h.snapshots[j]),
{
    let s = recorded(h, content).snapshots;
    assert forall|i: int| 0 <= i < s.len() implies s[i] != h.snapshots[j] by {
        if i < h.cursor {
            assert(s[i] == h.snapshots[i]);
        } else {
            assert(s[i] == content);
        }
    }
    if s.contains(h.snapshots[j]) {
        let w = choose|w: int| 0 <= w < s.len() && s[w] == h.snapshots[j];
        assert(false);
    }
}

} // verus!
