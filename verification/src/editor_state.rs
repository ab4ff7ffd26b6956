//! The content-free state of the editor: which notebook is open, which
//! note is selected, what the input fields hold, and which of the
//! mutually exclusive panels (visualizer, new-note dialog, move dialog,
//! about panel) is showing. At most one panel is open at a time: every
//! method that opens one closes the others.

use vstd::prelude::*;
use crate::notebook::NoteMetadata;
use crate::text::str_eq;

verus! {

/// The mathematical value of an [`EditorState`].
pub struct EditorStateView {
    pub notebook_path: Seq<char>,
    pub app_version: Seq<char>,
    pub selected_note_path: Option<Seq<char>>,
    pub selected_note_labels: Seq<Seq<char>>,
    pub new_label_text: Seq<char>,
    pub show_visualizer: bool,
    pub show_new_note_input: bool,
    pub new_note_path_input: Seq<char>,
    pub show_move_note_input: bool,
    pub move_note_current_path: Option<Seq<char>>,
    pub move_note_new_path_input: Seq<char>,
    pub show_about_info: bool,
    pub loading_note: bool,
}

/// The view of an optional owned string.
pub open spec fn opt_view(o: Option<String>) -> Option<Seq<char>> {
    match o {
        Some(s) => Some(s@),
        None => None,
    }
}

/// The state of the editor outside the text being edited.
#[derive(Debug)]
pub struct EditorState {
    notebook_path: String,
    app_version: String,
    selected_note_path: Option<String>,
    selected_note_labels: Vec<String>,
    new_label_text: String,
    show_visualizer: bool,
    show_new_note_input: bool,
    new_note_path_input: String,
    show_move_note_input: bool,
    move_note_current_path: Option<String>,
    move_note_new_path_input: String,
    show_about_info: bool,
    loading_note: bool,
}

impl View for EditorState {
    type V = EditorStateView;

    closed spec fn view(&self) -> EditorStateView {
        EditorStateView {
            notebook_path: self.notebook_path@,
            app_version: self.app_version@,
            selected_note_path: opt_view(self.selected_note_path),
            selected_note_labels: self.selected_note_labels.deep_view(),
            new_label_text: self.new_label_text@,
            show_visualizer: self.show_visualizer,
            show_new_note_input: self.show_new_note_input,
            new_note_path_input: self.new_note_path_input@,
            show_move_note_input: self.show_move_note_input,
            move_note_current_path: opt_view(self.move_note_current_path),
            move_note_new_path_input: self.move_note_new_path_input@,
            show_about_info: self.show_about_info,
            loading_note: self.loading_note,
        }
    }
}

/// The view of a fresh editor state: everything empty, closed and idle.
pub open spec fn initial_editor_state() -> EditorStateView {
    EditorStateView {
        notebook_path: Seq::empty(),
        app_version: Seq::empty(),
        selected_note_path: None,
        selected_note_labels: Seq::empty(),
        new_label_text: Seq::empty(),
        show_visualizer: false,
        show_new_note_input: false,
        new_note_path_input: Seq::empty(),
        show_move_note_input: false,
        move_note_current_path: None,
        move_note_new_path_input: Seq::empty(),
        show_about_info: false,
        loading_note: false,
    }
}

impl EditorState {
    /// A fresh state: no notebook, nothing selected, every panel closed.
    pub fn new() -> (r: EditorState)
        ensures
            r@ == initial_editor_state(),
    {
        let r = EditorState {
            notebook_path: String::new(),
            app_version: String::new(),
            selected_note_path: None,
            selected_note_labels: Vec::new(),
            new_label_text: String::new(),
            show_visualizer: false,
            show_new_note_input: false,
            new_note_path_input: String::new(),
            show_move_note_input: false,
            move_note_current_path: None,
            move_note_new_path_input: String::new(),
            show_about_info: false,
            loading_note: false,
        };
        proof {
            assert(r@.selected_note_labels =~= Seq::<Seq<char>>::empty());
        }
        r
    }

    pub fn notebook_path(&self) -> (r: &str)
        ensures
            r@ == self@.notebook_path,
    {
        self.notebook_path.as_str()
    }

    pub fn app_version(&self) -> (r: &str)
        ensures
            r@ == self@.app_version,
    {
        self.app_version.as_str()
    }

    pub fn selected_note_path(&self) -> (r: Option<&String>)
        ensures
            match r {
                Some(s) => self@.selected_note_path == Some(s@),
                None => self@.selected_note_path is None,
            },
    {
        self.selected_note_path.as_ref()
    }

    pub fn selected_note_labels(&self) -> (r: &Vec<String>)
        ensures
            r.deep_view() == self@.selected_note_labels,
    {
        &self.selected_note_labels
    }

    pub fn new_label_text(&self) -> (r: &str)
        ensures
            r@ == self@.new_label_text,
    {
        self.new_label_text.as_str()
    }

    pub fn show_visualizer(&self) -> (r: bool)
        ensures
            r == self@.show_visualizer,
    {
        self.show_visualizer
    }

    pub fn show_new_note_input(&self) -> (r: bool)
        ensures
            r == self@.show_new_note_input,
    {
        self.show_new_note_input
    }

    pub fn new_note_path_input(&self) -> (r: &str)
        ensures
            r@ == self@.new_note_path_input,
    {
        self.new_note_path_input.as_str()
    }

    pub fn show_move_note_input(&self) -> (r: bool)
        ensures
            r == self@.show_move_note_input,
    {
        self.show_move_note_input
    }

    pub fn move_note_current_path(&self) -> (r: Option<&String>)
        ensures
            match r {
                Some(s) => self@.move_note_current_path == Some(s@),
                None => self@.move_note_current_path is None,
            },
    {
        self.move_note_current_path.as_ref()
    }

    pub fn move_note_new_path_input(&self) -> (r: &str)
        ensures
            r@ == self@.move_note_new_path_input,
    {
        self.move_note_new_path_input.as_str()
    }

    pub fn show_about_info(&self) -> (r: bool)
        ensures
            r == self@.show_about_info,
    {
        self.show_about_info
    }

    pub fn is_loading_note(&self) -> (r: bool)
        ensures
            r == self@.loading_note,
    {
        self.loading_note
    }

    /// Whether any of the modal panels — new note, move note, about — is
    /// open. The visualizer does not count as a dialog.
    pub fn is_any_dialog_open(&self) -> (r: bool)
        ensures
            r == (self@.show_new_note_input || self@.show_move_note_input
                || self@.show_about_info),
    {
        self.show_new_note_input || self.show_move_note_input || self.show_about_info
    }

    pub fn set_notebook_path(&mut self, path: String)
        ensures
            final(self)@ == (EditorStateView { notebook_path: path@, ..old(self)@ }),
    {
        self.notebook_path = path;
    }

    pub fn set_app_version(&mut self, version: String)
        ensures
            final(self)@ == (EditorStateView { app_version: version@, ..old(self)@ }),
    {
        self.app_version = version;
    }

    pub fn set_selected_note_path(&mut self, path: Option<String>)
        ensures
            final(self)@ == (EditorStateView { selected_note_path: opt_view(path), ..old(self)@ }),
    {
        self.selected_note_path = path;
    }

    pub fn set_selected_note_labels(&mut self, labels: Vec<String>)
        ensures
            final(self)@ == (EditorStateView {
                selected_note_labels: labels.deep_view(),
                ..old(self)@
            }),
    {
        self.selected_note_labels = labels;
    }

    pub fn set_new_label_text(&mut self, text: String)
        ensures
            final(self)@ == (EditorStateView { new_label_text: text@, ..old(self)@ }),
    {
        self.new_label_text = text;
    }

    pub fn clear_new_label_text(&mut self)
        ensures
            final(self)@ == (EditorStateView { new_label_text: Seq::empty(), ..old(self)@ }),
    {
        self.new_label_text = String::new();
    }

    pub fn set_loading_note(&mut self, loading: bool)
        ensures
            final(self)@ == (EditorStateView { loading_note: loading, ..old(self)@ }),
    {
        self.loading_note = loading;
    }

    /// Flips the visualizer; opening it closes every dialog panel.
    pub fn toggle_visualizer(&mut self)
        ensures
            final(self)@ == if old(self)@.show_visualizer {
                EditorStateView { show_visualizer: false, ..old(self)@ }
            } else {
                EditorStateView {
                    show_visualizer: true,
                    show_new_note_input: false,
                    show_move_note_input: false,
                    show_about_info: false,
                    ..old(self)@
                }
            },
    {
        self.show_visualizer = !self.show_visualizer;
        if self.show_visualizer {
            self.show_new_note_input = false;
            self.show_move_note_input = false;
            self.show_about_info = false;
        }
    }

    /// Flips the about panel; opening it closes the other panels.
    pub fn toggle_about_info(&mut self)
        ensures
            final(self)@ == if old(self)@.show_about_info {
                EditorStateView { show_about_info: false, ..old(self)@ }
            } else {
                EditorStateView {
                    show_about_info: true,
                    show_visualizer: false,
                    show_new_note_input: false,
                    show_move_note_input: false,
                    ..old(self)@
                }
            },
    {
        self.show_about_info = !self.show_about_info;
        if self.show_about_info {
            self.show_visualizer = false;
            self.show_new_note_input = false;
            self.show_move_note_input = false;
        }
    }

    /// Opens the new-note dialog with an empty input, closing the other
    /// panels — but only once a notebook is open.
    pub fn show_new_note_dialog(&mut self)
        ensures
            final(self)@ == if old(self)@.notebook_path.len() > 0 {
                EditorStateView {
                    show_new_note_input: true,
                    new_note_path_input: Seq::empty(),
                    show_visualizer: false,
                    show_move_note_input: false,
                    show_about_info: false,
                    ..old(self)@
                }
            } else {
                old(self)@
            },
    {
        if self.notebook_path.as_str().unicode_len() > 0 {
            self.show_new_note_input = true;
            self.new_note_path_input = String::new();
            self.show_visualizer = false;
            self.show_move_note_input = false;
            self.show_about_info = false;
        }
    }

    /// Closes the new-note dialog and clears its input.
    pub fn hide_new_note_dialog(&mut self)
        ensures
            final(self)@ == (EditorStateView {
                show_new_note_input: false,
                new_note_path_input: Seq::empty(),
                ..old(self)@
            }),
    {
        self.show_new_note_input = false;
        self.new_note_path_input = String::new();
    }

    /// Updates the new-note input, but only while its dialog is open.
    pub fn update_new_note_path(&mut self, path: String)
        ensures
            final(self)@ == if old(self)@.show_new_note_input {
                EditorStateView { new_note_path_input: path@, ..old(self)@ }
            } else {
                old(self)@
            },
    {
        if self.show_new_note_input {
            self.new_note_path_input = path;
        }
    }

    /// Opens the move dialog for the given path, seeding the input with
    /// it and closing the other panels.
    pub fn show_move_note_dialog(&mut self, current_path: String)
        ensures
            final(self)@ == (EditorStateView {
                show_new_note_input: false,
                show_visualizer: false,
                show_about_info: false,
                show_move_note_input: true,
                move_note_current_path: Some(current_path@),
                move_note_new_path_input: current_path@,
                ..old(self)@
            }),
    {
        self.show_new_note_input = false;
        self.show_visualizer = false;
        self.show_about_info = false;
        self.show_move_note_input = true;
        self.move_note_current_path = Some(current_path.clone());
        self.move_note_new_path_input = current_path;
    }

    /// Opens the move dialog for a folder rename, which also drops the
    /// note selection — but only once a notebook is open.
    pub fn show_rename_folder_dialog(&mut self, folder_path: String)
        ensures
            final(self)@ == if old(self)@.notebook_path.len() > 0 {
                EditorStateView {
                    show_new_note_input: false,
                    show_visualizer: false,
                    show_about_info: false,
                    show_move_note_input: true,
                    move_note_current_path: Some(folder_path@),
                    move_note_new_path_input: folder_path@,
                    selected_note_path: None,
                    ..old(self)@
                }
            } else {
                old(self)@
            },
    {
        if self.notebook_path.as_str().unicode_len() > 0 {
            self.show_new_note_input = false;
            self.show_visualizer = false;
            self.show_about_info = false;
            self.show_move_note_input = true;
            self.move_note_current_path = Some(folder_path.clone());
            self.move_note_new_path_input = folder_path;
            self.selected_note_path = None;
        }
    }

    /// Closes the move dialog and clears its state.
    pub fn hide_move_note_dialog(&mut self)
        ensures
            final(self)@ == (EditorStateView {
                show_move_note_input: false,
                move_note_current_path: None,
                move_note_new_path_input: Seq::empty(),
                ..old(self)@
            }),
    {
        self.show_move_note_input = false;
        self.move_note_current_path = None;
        self.move_note_new_path_input = String::new();
    }

    /// Updates the move-target input, but only while its dialog is open.
    pub fn update_move_note_path(&mut self, path: String)
        ensures
            final(self)@ == if old(self)@.show_move_note_input {
                EditorStateView { move_note_new_path_input: path@, ..old(self)@ }
            } else {
                old(self)@
            },
    {
        if self.show_move_note_input {
            self.move_note_new_path_input = path;
        }
    }

    /// Takes the path being moved out of the state, leaving `None`.
    pub fn take_move_note_current_path(&mut self) -> (r: Option<String>)
        ensures
            opt_view(r) == old(self)@.move_note_current_path,
            final(self)@ == (EditorStateView { move_note_current_path: None, ..old(self)@ }),
    {
        self.move_note_current_path.take()
    }

    /// Takes the selected note path out of the state, leaving `None`.
    pub fn take_selected_note_path(&mut self) -> (r: Option<String>)
        ensures
            opt_view(r) == old(self)@.selected_note_path,
            final(self)@ == (EditorStateView { selected_note_path: None, ..old(self)@ }),
    {
        self.selected_note_path.take()
    }

    /// Whether `path` names a folder implied by the current notes: the
    /// immediate parent of some note's relative path (the part before the
    /// last separator), where that parent is neither empty nor `"."`.
    pub fn is_folder_path(&self, path: &str, all_notes: &Vec<NoteMetadata>) -> (r: bool)
        ensures
            r == spec_is_folder_path(all_notes@, path@),
    {
        let mut i: usize = 0;
        while i < all_notes.len()
            invariant
                i <= all_notes.len(),
                forall|k: int|
                    0 <= k < i ==> !(parent_names_folder(all_notes@[k]@.rel_path) && spec_parent(
                        all_notes@[k]@.rel_path,
                    ) == path@),
            decreases all_notes.len() - i,
        {
            let rel = all_notes[i].rel_path.as_str();
            match find_last_slash(rel) {
                Some(k) => {
                    proof {
                        lemma_last_slash(rel@);
                    }
                    let parent = rel.substring_char(0, k);
                    let named = if k == 0 {
                        false
                    } else if k == 1 {
                        rel.get_char(0) != '.'
                    } else {
                        true
                    };
                    if named && str_eq(parent, path) {
                        assert(parent_names_folder(all_notes@[i as int]@.rel_path));
                        return true;
                    }
                    assert(!(parent_names_folder(all_notes@[i as int]@.rel_path) && spec_parent(
                        all_notes@[i as int]@.rel_path,
                    ) == path@));
                },
                None => {
                    assert(!parent_names_folder(all_notes@[i as int]@.rel_path));
                },
            }
            i = i + 1;
        }
        false
    }

    pub fn set_show_about_info(&mut self, show: bool)
        ensures
            final(self)@ == (EditorStateView { show_about_info: show, ..old(self)@ }),
    {
        self.show_about_info = show;
    }

    pub fn set_show_new_note_input(&mut self, show: bool)
        ensures
            final(self)@ == (EditorStateView { show_new_note_input: show, ..old(self)@ }),
    {
        self.show_new_note_input = show;
    }

    pub fn set_show_visualizer(&mut self, show: bool)
        ensures
            final(self)@ == (EditorStateView { show_visualizer: show, ..old(self)@ }),
    {
        self.show_visualizer = show;
    }
}

impl Default for EditorState {
    /// The same state as [`EditorState::new`].
    fn default() -> (r: EditorState)
        ensures
            r@ == initial_editor_state(),
    {
        EditorState::new()
    }
}

/// The index of the last separator in `s`, or `-1` when there is none.
pub open spec fn last_slash_idx(s: Seq<char>) -> int
    decreases s.len(),
{
    if s.len() == 0 {
        -1
    } else if s[s.len() - 1] == '/' {
        s.len() - 1
    } else {
        last_slash_idx(s.drop_last())
    }
}

/// The part of a path before its last separator; empty when the path has
/// no separator.
pub open spec fn spec_parent(s: Seq<char>) -> Seq<char> {
    if last_slash_idx(s) >= 0 {
        s.take(last_slash_idx(s))
    } else {
        Seq::empty()
    }
}

/// Whether the parent of `s` names a real folder: it is neither empty
/// (the path has no separator, or starts with one) nor `"."`.
pub open spec fn parent_names_folder(s: Seq<char>) -> bool {
    let p = spec_parent(s);
    last_slash_idx(s) >= 0 && p.len() > 0 && !(p.len() == 1 && p[0] == '.')
}

/// Whether `q` is the parent folder of some note in `notes`.
pub open spec fn spec_is_folder_path(notes: Seq<NoteMetadata>, q: Seq<char>) -> bool {
    exists|i: int|
        0 <= i < notes.len() && parent_names_folder(notes[i]@.rel_path) && spec_parent(
            notes[i]@.rel_path,
        ) == q
}

/// `last_slash_idx` really is the last separator: at the index it returns
/// stands a separator, and none stands after it; `-1` means none at all.
proof fn lemma_last_slash(s: Seq<char>)
    ensures
        last_slash_idx(s) >= -1,
        last_slash_idx(s) == -1 ==> forall|k: int| 0 <= k < s.len() ==> s[k] != '/',
        last_slash_idx(s) >= 0 ==> last_slash_idx(s) < s.len() && s[last_slash_idx(s)] == '/',
        forall|k: int| last_slash_idx(s) < k < s.len() ==> s[k] != '/',
    decreases s.len(),
{
    if s.len() > 0 && s[s.len() - 1] != '/' {
        lemma_last_slash(s.drop_last());
        assert(last_slash_idx(s) == last_slash_idx(s.drop_last()));
        assert(forall|k: int| 0 <= k < s.len() - 1 ==> s.drop_last()[k] == s[k]);
        assert forall|k: int| last_slash_idx(s) < k < s.len() implies s[k] != '/' by {
            if k < s.len() - 1 {
                assert(s.drop_last()[k] != '/');
            }
        }
        if last_slash_idx(s) == -1 {
            assert forall|k: int| 0 <= k < s.len() implies s[k] != '/' by {
                if k < s.len() - 1 {
                    assert(s.drop_last()[k] != '/');
                }
            }
        }
        if last_slash_idx(s) >= 0 {
            assert(s.drop_last()[last_slash_idx(s)] == '/');
        }
    }
}

/// Finds the index of the last separator of `s`, if any.
fn find_last_slash(s: &str) -> (r: Option<usize>)
    ensures
        match r {
            Some(k) => k == last_slash_idx(s@),
            None => last_slash_idx(s@) == -1,
        },
{
    proof {
        lemma_last_slash(s@);
    }
    let n = s.unicode_len();
    let mut i: usize = n;
    while i > 0
        invariant
            n == s@.len(),
            i <= n,
            forall|k: int| i <= k < n ==> s@[k] != '/',
        decreases i,
    {
        i = i - 1;
        if s.get_char(i) == '/' {
            assert(i == last_slash_idx(s@)) by {
                lemma_last_slash(s@);
                assert(s@[i as int] == '/');
                assert(!(last_slash_idx(s@) < i));
                assert(!(last_slash_idx(s@) > i));
            }
            return Some(i);
        }
    }
    assert(last_slash_idx(s@) == -1) by {
        lemma_last_slash(s@);
        if last_slash_idx(s@) >= 0 {
            assert(s@[last_slash_idx(s@)] == '/');
        }
    }
    None
}

} // verus!
