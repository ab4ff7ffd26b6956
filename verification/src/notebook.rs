//! The notebook index and the decision half of the note lifecycle.
//!
//! The index is an ordered list of [`NoteMetadata`] records, each naming one
//! note by its relative path. The functions here make every decision of the
//! create, delete and move operations — validation, conflict detection, and
//! the exact rewriting of the record list — as pure, verified steps. The
//! caller performs the directory operations between those steps and feeds
//! the outcomes (does the target exist, is the source a note directory)
//! back in as plain booleans.

use vstd::prelude::*;
use crate::paths::spec_valid_rel_path;
use crate::paths::validate_rel_path;
use crate::text::clone_strings;
use crate::text::spec_starts_with;
use crate::text::str_eq;
use crate::text::str_starts_with;

verus! {

/// One note in the index: its identifying relative path and its labels.
#[derive(Debug)]
pub struct NoteMetadata {
    pub rel_path: String,
    pub labels: Vec<String>,
}

/// The mathematical value of a [`NoteMetadata`] record.
pub struct NoteView {
    pub rel_path: Seq<char>,
    pub labels: Seq<Seq<char>>,
}

impl View for NoteMetadata {
    type V = NoteView;

    open spec fn view(&self) -> NoteView {
        NoteView { rel_path: self.rel_path@, labels: self.labels.deep_view() }
    }
}

impl NoteMetadata {
    /// A copy of the record, with the contents pinned in the contract.
    pub fn duplicate(&self) -> (r: NoteMetadata)
        ensures
            r@ == self@,
    {
        NoteMetadata { rel_path: self.rel_path.clone(), labels: clone_strings(&self.labels) }
    }
}

/// The whole persisted index: the list of note records.
#[derive(Debug)]
pub struct NotebookMetadata {
    pub notes: Vec<NoteMetadata>,
}

/// The kinds of failure a lifecycle operation can report.
#[derive(Clone, Copy, Debug, PartialEq, Eq, Structural)]
pub enum NoteError {
    /// The relative path is malformed.
    Validation,
    /// The target already exists, on disk or in the index.
    Conflict,
    /// The source path does not exist.
    NotFound,
    /// A filesystem operation failed.
    Io,
    /// The filesystem half of a two-step operation succeeded while the
    /// index persist failed: the index on disk now lags the directory tree.
    Consistency,
}

/// Validates a relative path, as a result: `Ok` exactly on well-formed
/// paths, `Err(Validation)` on the rest.
pub fn validate(rel_path: &str) -> (r: Result<(), NoteError>)
    ensures
        r == if spec_valid_rel_path(rel_path@) {
            Ok::<(), NoteError>(())
        } else {
            Err::<(), NoteError>(NoteError::Validation)
        },
{
    if validate_rel_path(rel_path) {
        Ok(())
    } else {
        Err(NoteError::Validation)
    }
}

/// The record values of a note list, in order.
pub open spec fn notes_views(s: Seq<NoteMetadata>) -> Seq<NoteView> {
    Seq::new(s.len(), |i: int| s[i]@)
}

/// Holds when some record of `notes` has the relative path `p`.
pub open spec fn contains_rel_path(notes: Seq<NoteMetadata>, p: Seq<char>) -> bool {
    exists|i: int| 0 <= i < notes.len() && notes[i]@.rel_path == p
}

/// Scans the index for a record with the given path.
pub fn index_contains(notes: &Vec<NoteMetadata>, rel_path: &str) -> (r: bool)
    ensures
        r == contains_rel_path(notes@, rel_path@),
{
    let mut i: usize = 0;
    while i < notes.len()
        invariant
            i <= notes.len(),
            forall|k: int| 0 <= k < i ==> notes@[k]@.rel_path != rel_path@,
        decreases notes.len() - i,
    {
        if str_eq(notes[i].rel_path.as_str(), rel_path) {
            return true;
        }
        i = i + 1;
    }
    false
}

/// What `plan_create_note` decides, given the index, the requested path and
/// whether something already sits at that path on disk.
pub open spec fn spec_plan_create(
    notes: Seq<NoteMetadata>,
    p: Seq<char>,
    target_exists: bool,
) -> Result<(), NoteError> {
    if !spec_valid_rel_path(p) {
        Err(NoteError::Validation)
    } else if contains_rel_path(notes, p) {
        Err(NoteError::Conflict)
    } else if target_exists {
        Err(NoteError::Conflict)
    } else {
        Ok(())
    }
}

/// The decision step of `create`: rejects a malformed path, a duplicate
/// index entry, and an occupied target on disk, in that order, and permits
/// the creation otherwise. No state is touched.
pub fn plan_create_note(
    notes: &Vec<NoteMetadata>,
    rel_path: &str,
    target_exists: bool,
) -> (r: Result<(), NoteError>)
    ensures
        r == spec_plan_create(notes@, rel_path@, target_exists),
{
    if !validate_rel_path(rel_path) {
        Err(NoteError::Validation)
    } else if index_contains(notes, rel_path) {
        Err(NoteError::Conflict)
    } else if target_exists {
        Err(NoteError::Conflict)
    } else {
        Ok(())
    }
}

/// The in-memory step of `create`: appends a fresh record with the given
/// path and no labels, and returns a copy of it.
pub fn apply_create_note(notes: &mut Vec<NoteMetadata>, rel_path: &str) -> (r: NoteMetadata)
    ensures
        final(notes)@.len() == old(notes)@.len() + 1,
        forall|i: int| 0 <= i < old(notes)@.len() ==> final(notes)@[i] == old(notes)@[i],
        final(notes)@[old(notes)@.len() as int]@.rel_path == rel_path@,
        final(notes)@[old(notes)@.len() as int]@.labels =~= Seq::<Seq<char>>::empty(),
        r@ == final(notes)@[old(notes)@.len() as int]@,
{
    let record = NoteMetadata { rel_path: rel_path.to_owned(), labels: Vec::new() };
    let copy = record.duplicate();
    assert(record@.labels =~= Seq::<Seq<char>>::empty());
    notes.push(record);
    copy
}

/// The rollback of `apply_create_note`, for when the index could not be
/// persisted: drops the record appended last, so the created record does
/// not survive in memory.
pub fn rollback_create_note(notes: &mut Vec<NoteMetadata>)
    requires
        old(notes)@.len() > 0,
    ensures
        final(notes)@ == old(notes)@.drop_last(),
{
    let _ = notes.pop();
}

/// The index step of `delete`: removes the first record with the given
/// path, if one is there. A missing entry is tolerated — the result only
/// reports whether anything was removed, so the caller can skip the
/// persist when the index did not change.
pub fn remove_record(notes: &mut Vec<NoteMetadata>, rel_path: &str) -> (removed: bool)
    ensures
        removed == contains_rel_path(old(notes)@, rel_path@),
        !removed ==> final(notes)@ == old(notes)@,
        removed ==> exists|i: int|
            0 <= i < old(notes)@.len() && old(notes)@[i]@.rel_path == rel_path@ && (forall|k: int|
                0 <= k < i ==> old(notes)@[k]@.rel_path != rel_path@) && final(notes)@ == old(
                notes,
            )@.remove(i),
{
    let mut i: usize = 0;
    while i < notes.len()
        invariant
            i <= notes.len(),
            notes@ == old(notes)@,
            forall|k: int| 0 <= k < i ==> notes@[k]@.rel_path != rel_path@,
        decreases notes.len() - i,
    {
        if str_eq(notes[i].rel_path.as_str(), rel_path) {
            let ghost pre = notes@;
            let ghost gi = i as int;
            let _ = notes.remove(i);
            assert(pre[gi]@.rel_path == rel_path@);
            assert(notes@ == pre.remove(gi));
            return true;
        }
        i = i + 1;
    }
    false
}

/// What `plan_move_note` decides, given the new path and the two
/// filesystem facts the caller establishes first: whether the source
/// exists, and whether the target is already occupied.
pub open spec fn spec_plan_move(
    new_path: Seq<char>,
    current_exists: bool,
    target_exists: bool,
) -> Result<(), NoteError> {
    if !spec_valid_rel_path(new_path) {
        Err(NoteError::Validation)
    } else if !current_exists {
        Err(NoteError::NotFound)
    } else if target_exists {
        Err(NoteError::Conflict)
    } else {
        Ok(())
    }
}

/// The decision step of `move`: rejects a malformed target path, a missing
/// source, and an occupied target, in that order. The caller treats a
/// target equal to the source as a no-op before ever calling this.
pub fn plan_move_note(
    new_rel_path: &str,
    current_exists: bool,
    target_exists: bool,
) -> (r: Result<(), NoteError>)
    ensures
        r == spec_plan_move(new_rel_path@, current_exists, target_exists),
{
    if !validate_rel_path(new_rel_path) {
        Err(NoteError::Validation)
    } else if !current_exists {
        Err(NoteError::NotFound)
    } else if target_exists {
        Err(NoteError::Conflict)
    } else {
        Ok(())
    }
}

/// The prefix that a folder move strips from its members: `cur + "/"`,
/// or the empty sequence when `cur` is empty.
pub open spec fn folder_prefix(cur: Seq<char>) -> Seq<char> {
    if cur.len() == 0 {
        Seq::empty()
    } else {
        cur.push('/')
    }
}

/// Holds when a folder move of `cur` touches a record at path `p`: the
/// path lives under the folder, or is exactly the folder itself.
pub open spec fn folder_move_touches(p: Seq<char>, cur: Seq<char>) -> bool {
    spec_starts_with(p, folder_prefix(cur)) || (p == cur && cur.len() > 0)
}

/// The path a record moves to under a folder move of `cur` to `new`: the
/// leading `cur + "/"` is replaced by `new + "/"` with the suffix kept
/// exactly, a path equal to `cur` becomes `new`, and any other path stays.
pub open spec fn folder_moved_path(p: Seq<char>, cur: Seq<char>, new: Seq<char>) -> Seq<char> {
    if spec_starts_with(p, folder_prefix(cur)) {
        folder_prefix(new) + p.skip(folder_prefix(cur).len() as int)
    } else if p == cur && cur.len() > 0 {
        new
    } else {
        p
    }
}

/// The index step of a folder move: rewrites the path of every record the
/// move touches, keeps every label list, and reports whether any record
/// was touched, so the caller can skip the persist otherwise.
pub fn apply_folder_move(notes: &mut Vec<NoteMetadata>, current: &str, new: &str) -> (updated:
    bool)
    ensures
        final(notes)@.len() == old(notes)@.len(),
        forall|i: int| 0 <= i < old(notes)@.len() ==> final(notes)@[i]@.labels == old(
            notes,
        )@[i]@.labels,
        forall|i: int| 0 <= i < old(notes)@.len() ==> final(notes)@[i]@.rel_path
            == folder_moved_path(old(notes)@[i]@.rel_path, current@, new@),
        updated == exists|i: int|
            0 <= i < old(notes)@.len() && folder_move_touches(old(notes)@[i]@.rel_path, current@),
{
    let old_prefix = make_folder_prefix(current);
    let new_prefix = make_folder_prefix(new);
    let mut out: Vec<NoteMetadata> = Vec::new();
    let mut updated = false;
    let mut i: usize = 0;
    while i < notes.len()
        invariant
            i <= notes.len(),
            old_prefix@ == folder_prefix(current@),
            new_prefix@ == folder_prefix(new@),
            out@.len() == i,
            forall|k: int| 0 <= k < i ==> out@[k]@.labels == notes@[k]@.labels,
            forall|k: int| 0 <= k < i ==> out@[k]@.rel_path == folder_moved_path(
                notes@[k]@.rel_path,
                current@,
                new@,
            ),
            updated == exists|k: int|
                0 <= k < i && folder_move_touches(notes@[k]@.rel_path, current@),
        decreases notes.len() - i,
    {
        let p = &notes[i];
        if str_starts_with(p.rel_path.as_str(), old_prefix.as_str()) {
            let plen = old_prefix.as_str().unicode_len();
            let suffix = p.rel_path.as_str().substring_char(plen, p.rel_path.as_str().unicode_len());
            let moved = new_prefix.clone().concat(suffix);
            assert(moved@ == folder_moved_path(notes@[i as int]@.rel_path, current@, new@));
            out.push(NoteMetadata { rel_path: moved, labels: clone_strings(&p.labels) });
            updated = true;
        } else if current.unicode_len() > 0 && str_eq(p.rel_path.as_str(), current) {
            out.push(NoteMetadata { rel_path: new.to_owned(), labels: clone_strings(&p.labels) });
            updated = true;
        } else {
            assert(!folder_move_touches(notes@[i as int]@.rel_path, current@));
            out.push(p.duplicate());
        }
        i = i + 1;
    }
    *notes = out;
    updated
}

/// The index step of a single-note move: rewrites the path of the first
/// record at the source path, if one is there, and reports whether a
/// record was found, so the caller can skip the persist otherwise.
pub fn apply_note_move(notes: &mut Vec<NoteMetadata>, current: &str, new: &str) -> (updated: bool)
    ensures
        updated == contains_rel_path(old(notes)@, current@),
        !updated ==> final(notes)@ == old(notes)@,
        updated ==> exists|i: int|
            0 <= i < old(notes)@.len() && old(notes)@[i]@.rel_path == current@ && (forall|k: int|
                0 <= k < i ==> old(notes)@[k]@.rel_path != current@) && final(notes)@.len() == old(
                notes,
            )@.len() && final(notes)@[i]@.rel_path == new@ && final(notes)@[i]@.labels == old(
                notes,
            )@[i]@.labels && (forall|k: int|
                0 <= k < old(notes)@.len() && k != i ==> final(notes)@[k] == old(notes)@[k]),
{
    let mut i: usize = 0;
    while i < notes.len()
        invariant
            i <= notes.len(),
            notes@ == old(notes)@,
            forall|k: int| 0 <= k < i ==> notes@[k]@.rel_path != current@,
        decreases notes.len() - i,
    {
        if str_eq(notes[i].rel_path.as_str(), current) {
            let ghost pre = notes@;
            let ghost gi = i as int;
            let labels = clone_strings(&notes[i].labels);
            let ghost lv = labels.deep_view();
            assert(lv == pre[gi]@.labels);
            let replacement = NoteMetadata { rel_path: new.to_owned(), labels };
            let _ = notes.remove(i);
            notes.insert(i, replacement);
            assert(notes@ =~= pre.update(gi, notes@[gi]));
            return true;
        }
        i = i + 1;
    }
    false
}

/// Builds `cur + "/"` (or the empty string for an empty `cur`), the prefix
/// a folder move matches against.
fn make_folder_prefix(cur: &str) -> (r: String)
    ensures
        r@ == folder_prefix(cur@),
{
    if cur.unicode_len() == 0 {
        let r = String::new();
        assert(r@ =~= folder_prefix(cur@));
        r
    } else {
        let r = cur.to_owned().concat("/");
        proof {
            reveal_strlit("/");
            assert("/"@ =~= seq!['/']);
            assert(cur@ + seq!['/'] =~= cur@.push('/'));
        }
        r
    }
}

/// The note to select after a reload: the already selected note when
/// there is one, else the first note of the list, else none. After a
/// folder rename there is no longer one moved note to reselect, so the
/// caller falls back to this.
pub fn select_note_path(selected: Option<&String>, notes: &Vec<NoteMetadata>) -> (r: Option<
    String,
>)
    ensures
        match selected {
            Some(s) => r matches Some(p) && p@ == s@,
            None => match r {
                Some(p) => notes@.len() > 0 && p@ == notes@[0]@.rel_path,
                None => notes@.len() == 0,
            },
        },
{
    match selected {
        Some(s) => Some(s.clone()),
        None => {
            if notes.len() > 0 {
                Some(notes[0].rel_path.clone())
            } else {
                None
            }
        },
    }
}

/// After the create decision permits a path, the index cannot already hold
/// it — so creating the same path twice leaves the index with exactly one
/// new record: the second decision reports a conflict whatever the
/// filesystem says, and the record list is not touched again.
pub proof fn lemma_create_conflict_after_create(
    notes: Seq<NoteMetadata>,
    appended: Seq<NoteMetadata>,
    p: Seq<char>,
    target_exists: bool,
)
    requires
        spec_plan_create(notes, p, target_exists) is Ok,
        appended.len() == notes.len() + 1,
        forall|i: int| 0 <= i < notes.len() ==> appended[i] == notes[i],
        appended[notes.len() as int]@.rel_path == p,
    ensures
        forall|later_exists: bool| spec_plan_create(appended, p, later_exists) == Err::<
            (),
            NoteError,
        >(NoteError::Conflict),
{
    assert(contains_rel_path(appended, p));
}

} // verus!
