//! The label visualizer's state: the current notes and a per-label
//! expand/collapse flag, carried across updates the same way the note
//! tree's folder flags are — kept for labels still in use, collapsed by
//! default for new ones, dropped for labels no note carries any more.

use vstd::prelude::*;
use crate::flag_map::FlagMap;
use crate::notebook::NoteMetadata;

verus! {

/// Whether some note in the list carries the label `l`.
pub open spec fn spec_has_label(notes: Seq<NoteMetadata>, l: Seq<char>) -> bool {
    exists|a: int, b: int|
        0 <= a < notes.len() && 0 <= b < notes[a]@.labels.len() && (#[trigger] notes[a]@.labels[b])
            == l
}

spec fn label_upto(notes: Seq<NoteMetadata>, i: int, j: int, l: Seq<char>) -> bool {
    exists|a: int, b: int|
        0 <= a < notes.len() && 0 <= b < notes[a]@.labels.len() && (#[trigger] notes[a]@.labels[b])
            == l && (a < i || (a == i && b < j))
}

/// The visualizer pane: the notes it groups, and the expand flag of every
/// label they carry.
#[derive(Debug)]
pub struct Visualizer {
    pub notes: Vec<NoteMetadata>,
    pub expanded_labels: FlagMap,
}

impl Visualizer {
    /// A visualizer with no notes and no label flags.
    pub fn new() -> (r: Visualizer)
        ensures
            r.notes@.len() == 0,
            r.expanded_labels.wf(),
            forall|k: Seq<char>| !r.expanded_labels.has_flag(k),
    {
        Visualizer { notes: Vec::new(), expanded_labels: FlagMap::new() }
    }

    /// Takes a fresh note list and rebuilds the label flags: every label
    /// the new notes carry keeps its old flag (collapsed when it never
    /// had one), every other key is dropped.
    pub fn update_notes(&mut self, notes: Vec<NoteMetadata>)
        requires
            old(self).expanded_labels.wf(),
        ensures
            final(self).expanded_labels.wf(),
            final(self).notes@ == notes@,
            forall|l: Seq<char>|
                final(self).expanded_labels.has_flag(l) == spec_has_label(notes@, l),
            forall|l: Seq<char>|
                final(self).expanded_labels.flag_of(l) == (final(self).expanded_labels.has_flag(l)
                    && old(self).expanded_labels.flag_of(l)),
    {
        let mut m = FlagMap::new();
        let mut i: usize = 0;
        while i < notes.len()
            invariant
                i <= notes.len(),
                m.wf(),
                self.expanded_labels.wf(),
                self.expanded_labels == old(self).expanded_labels,
                forall|l: Seq<char>| m.has_flag(l) == label_upto(notes@, i as int, 0, l),
                forall|l: Seq<char>| m.flag_of(l) == (m.has_flag(l) && old(
                    self,
                ).expanded_labels.flag_of(l)),
            decreases notes.len() - i,
        {
            let labels = &notes[i].labels;
            let mut j: usize = 0;
            while j < labels.len()
                invariant
                    i < notes.len(),
                    labels.deep_view() == notes@[i as int]@.labels,
                    j <= labels@.len(),
                    labels@.len() == notes@[i as int]@.labels.len(),
                    m.wf(),
                    self.expanded_labels.wf(),
                    self.expanded_labels == old(self).expanded_labels,
                    forall|l: Seq<char>| m.has_flag(l) == label_upto(notes@, i as int, j as int, l),
                    forall|l: Seq<char>| m.flag_of(l) == (m.has_flag(l) && old(
                        self,
                    ).expanded_labels.flag_of(l)),
                decreases labels@.len() - j,
            {
                let lab = labels[j].as_str();
                proof {
                    assert(labels.deep_view()[j as int] == labels@[j as int]@);
                    assert(notes@[i as int]@.labels[j as int] == lab@);
                }
                if !m.contains(lab) {
                    let v = self.expanded_labels.get(lab);
                    m.set(lab, v);
                }
                proof {
                    assert forall|l: Seq<char>| m.has_flag(l) == label_upto(
                        notes@,
                        i as int,
                        j as int + 1,
                        l,
                    ) by {
                        if l == lab@ {
                            assert(label_upto(notes@, i as int, j as int + 1, l));
                        }
                        if l != lab@ && label_upto(notes@, i as int, j as int + 1, l) {
                            let (a, b) = choose|a: int, b: int|
                                0 <= a < notes@.len() && 0 <= b < notes@[a]@.labels.len() && (
                                #[trigger] notes@[a]@.labels[b]) == l && (a < i || (a == i && b < j
                                    + 1));
                            assert(!(a == i && b == j));
                            assert(label_upto(notes@, i as int, j as int, l));
                        }
                    }
                }
                j = j + 1;
            }
            proof {
                assert forall|l: Seq<char>| m.has_flag(l) == label_upto(
                    notes@,
                    i as int + 1,
                    0,
                    l,
                ) by {
                    let nl = notes@[i as int]@.labels.len() as int;
                    if label_upto(notes@, i as int + 1, 0, l) {
                        assert(label_upto(notes@, i as int, nl, l));
                    }
                    if label_upto(notes@, i as int, nl, l) {
                        assert(label_upto(notes@, i as int + 1, 0, l));
                    }
                }
            }
            i = i + 1;
        }
        self.notes = notes;
        self.expanded_labels = m;
    }

    /// Flips the expand flag of a label; a label not in the map is left
    /// alone.
    pub fn toggle_label(&mut self, label: &str)
        requires
            old(self).expanded_labels.wf(),
        ensures
            final(self).expanded_labels.wf(),
            final(self).notes@ == old(self).notes@,
            forall|k: Seq<char>| final(self).expanded_labels.has_flag(k) == old(
                self,
            ).expanded_labels.has_flag(k),
            old(self).expanded_labels.has_flag(label@) ==> final(self).expanded_labels.flag_of(
                label@,
            ) == !old(self).expanded_labels.flag_of(label@),
            !old(self).expanded_labels.has_flag(label@) ==> final(self).expanded_labels == old(
                self,
            ).expanded_labels,
            forall|k: Seq<char>| k != label@ ==> final(self).expanded_labels.flag_of(k) == old(
                self,
            ).expanded_labels.flag_of(k),
    {
        self.expanded_labels.toggle(label);
    }
}

} // verus!
