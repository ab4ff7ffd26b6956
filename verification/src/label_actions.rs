//! The label edits: typing into the label input, and attaching or
//! detaching a label on the record of a note. Labels on one note are kept
//! free of duplicates, and removing a label removes every copy of it.

use vstd::prelude::*;
use crate::editor_state::EditorState;
use crate::editor_state::EditorStateView;
use crate::notebook::NoteMetadata;
use crate::text::clone_strings;
use crate::text::str_eq;

verus! {

/// Takes what was typed into the label input, unless the about panel is
/// covering the editor.
pub fn handle_label_input_changed(state: &mut EditorState, text: String)
    ensures
        final(state)@ == if old(state)@.show_about_info {
            old(state)@
        } else {
            EditorStateView { new_label_text: text@, ..old(state)@ }
        },
{
    if !state.show_about_info() {
        state.set_new_label_text(text);
    }
}

/// Whether a label list holds the label.
pub open spec fn has_label_in(labels: Seq<Seq<char>>, l: Seq<char>) -> bool {
    exists|i: int| 0 <= i < labels.len() && labels[i] == l
}

fn labels_contain(labels: &Vec<String>, label: &str) -> (r: bool)
    ensures
        r == has_label_in(labels.deep_view(), label@),
{
    let mut i: usize = 0;
    while i < labels.len()
        invariant
            i <= labels.len(),
            forall|k: int| 0 <= k < i ==> labels.deep_view()[k] != label@,
        decreases labels.len() - i,
    {
        if str_eq(labels[i].as_str(), label) {
            assert(labels.deep_view()[i as int] == label@);
            return true;
        }
        i = i + 1;
    }
    false
}

/// Attaches a label to the first record with the given path. Nothing
/// changes — and `false` comes back — when the label is empty, no record
/// has the path, or the record already carries the label.
pub fn add_label_to_note(notes: &mut Vec<NoteMetadata>, rel_path: &str, label: &str) -> (added:
    bool)
    ensures
        !added ==> final(notes)@ == old(notes)@,
        added ==> exists|i: int|
            0 <= i < old(notes)@.len() && old(notes)@[i]@.rel_path == rel_path@ && (forall|k: int|
                0 <= k < i ==> old(notes)@[k]@.rel_path != rel_path@) && !has_label_in(
                old(notes)@[i]@.labels,
                label@,
            ) && final(notes)@.len() == old(notes)@.len() && final(notes)@[i]@.rel_path == old(
                notes,
            )@[i]@.rel_path && final(notes)@[i]@.labels == old(notes)@[i]@.labels.push(label@) && (
            forall|k: int|
                0 <= k < old(notes)@.len() && k != i ==> final(notes)@[k] == old(notes)@[k]),
        added ==> label@.len() > 0,
{
    if label.unicode_len() == 0 {
        return false;
    }
    let mut i: usize = 0;
    while i < notes.len()
        invariant
            i <= notes.len(),
            notes@ == old(notes)@,
            label@.len() > 0,
            forall|k: int| 0 <= k < i ==> notes@[k]@.rel_path != rel_path@,
        decreases notes.len() - i,
    {
        if str_eq(notes[i].rel_path.as_str(), rel_path) {
            if labels_contain(&notes[i].labels, label) {
                return false;
            }
            let ghost pre = notes@;
            let ghost gi = i as int;
            let mut labels = clone_strings(&notes[i].labels);
            let ghost pre_labels = labels.deep_view();
            labels.push(label.to_owned());
            proof {
                assert(labels.deep_view() =~= pre_labels.push(label@));
            }
            let replacement = NoteMetadata { rel_path: notes[i].rel_path.clone(), labels };
            let _ = notes.remove(i);
            notes.insert(i, replacement);
            proof {
                assert(notes@ =~= pre.update(gi, notes@[gi]));
                assert(notes@.len() == pre.len());
                assert(notes@[gi]@.rel_path == pre[gi]@.rel_path);
                assert(notes@[gi]@.labels == pre[gi]@.labels.push(label@));
                assert(forall|k: int| 0 <= k < pre.len() && k != gi ==> notes@[k] == pre[k]);
            }
            return true;
        }
        i = i + 1;
    }
    false
}

/// Detaches every copy of a label from the first record with the given
/// path; `false` comes back when no record has the path.
pub fn remove_label_from_note(notes: &mut Vec<NoteMetadata>, rel_path: &str, label: &str) -> (found:
    bool)
    ensures
        found == crate::notebook::contains_rel_path(old(notes)@, rel_path@),
        !found ==> final(notes)@ == old(notes)@,
        found ==> exists|i: int|
            0 <= i < old(notes)@.len() && old(notes)@[i]@.rel_path == rel_path@ && (forall|k: int|
                0 <= k < i ==> old(notes)@[k]@.rel_path != rel_path@) && final(notes)@.len() == old(
                notes,
            )@.len() && final(notes)@[i]@.rel_path == old(notes)@[i]@.rel_path && final(notes)@[i]@.labels == old(notes)@[i]@.labels.filter(|l: Seq<char>| l != label@) && (forall|k: int|
                0 <= k < old(notes)@.len() && k != i ==> final(notes)@[k] == old(notes)@[k]),
{
    let mut i: usize = 0;
    while i < notes.len()
        invariant
            i <= notes.len(),
            notes@ == old(notes)@,
            forall|k: int| 0 <= k < i ==> notes@[k]@.rel_path != rel_path@,
        decreases notes.len() - i,
    {
        if str_eq(notes[i].rel_path.as_str(), rel_path) {
            let ghost pre = notes@;
            let ghost gi = i as int;
            let ghost pred = |l: Seq<char>| l != label@;
            let source = &notes[i].labels;
            let ghost dv = source.deep_view();
            let mut kept: Vec<String> = Vec::new();
            let mut j: usize = 0;
            proof {
                reveal(Seq::filter);
                assert(dv.take(0) =~= Seq::<Seq<char>>::empty());
                assert(kept.deep_view() =~= dv.take(0).filter(pred));
            }
            while j < source.len()
                invariant
                    j <= source.len(),
                    dv == source.deep_view(),
                    dv.len() == source@.len(),
                    pred == (|l: Seq<char>| l != label@),
                    kept.deep_view() == dv.take(j as int).filter(pred),
                decreases source.len() - j,
            {
                proof {
                    reveal(Seq::filter);
                    assert(dv.take(j as int + 1).drop_last() =~= dv.take(j as int));
                    assert(dv.take(j as int + 1).last() == dv[j as int]);
                    assert(dv[j as int] == source@[j as int]@);
                }
                if !str_eq(source[j].as_str(), label) {
                    let ghost pre_kept = kept.deep_view();
                    kept.push(source[j].clone());
                    proof {
                        assert(kept.deep_view() =~= pre_kept.push(dv[j as int]));
                    }
                }
                j = j + 1;
            }
            proof {
                assert(dv.take(dv.len() as int) =~= dv);
            }
            let replacement = NoteMetadata { rel_path: notes[i].rel_path.clone(), labels: kept };
            let _ = notes.remove(i);
            notes.insert(i, replacement);
            proof {
                assert(notes@ =~= pre.update(gi, notes@[gi]));
                assert(notes@.len() == pre.len());
                assert(notes@[gi]@.rel_path == pre[gi]@.rel_path);
                assert(notes@[gi]@.labels == pre[gi]@.labels.filter(
                    |l: Seq<char>| l != label@,
                ));
                assert(forall|k: int| 0 <= k < pre.len() && k != gi ==> notes@[k] == pre[k]);
            }
            return true;
        }
        i = i + 1;
    }
    false
}

} // verus!
