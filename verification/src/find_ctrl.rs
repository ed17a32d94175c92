//! The file-finder screen's state: a list of files, a selection cursor,
//! and the loaded preview content.

use vstd::prelude::*;

use crate::strutil::{lines_spec, split_lines};
use crate::util::replace_all_spec;

verus! {

/// The finder state. The file list comes from the search tool; the
/// preview text is loaded outside the library and handed in.
pub struct FindCtrl {
    pub files: Vec<String>,
    pub selected_idx: usize,
    pub content: Vec<String>,
    pub content_scroll: u16,
}

impl FindCtrl {
    /// A finder over the given files, with the selection at the start and
    /// an empty-preview placeholder.
    pub fn with_files(files: Vec<String>) -> (r: Self)
        ensures
            r.files@ == files@,
            r.selected_idx == 0,
            r.content@.len() == 1,
            r.content@[0]@ == "< Nothing to display >"@,
            r.content_scroll == 0,
    {
        let mut content: Vec<String> = Vec::new();
        content.push(String::from_str("< Nothing to display >"));
        FindCtrl { files, selected_idx: 0, content, content_scroll: 0 }
    }

    /// The selected file, if the cursor is on one.
    pub fn focus_file(&self) -> (r: Option<String>)
        ensures
            match r {
                Some(f) => self.selected_idx < self.files@.len() && f@ == self.files@[
                    self.selected_idx as int
                ]@,
                None => self.selected_idx >= self.files@.len(),
            },
    {
        if self.selected_idx < self.files.len() {
            Some(self.files[self.selected_idx].clone())
        } else {
            None
        }
    }

    /// Moves the cursor down, stopping at the last file.
    pub fn next(&mut self)
        ensures
            final(self).files@ == old(self).files@,
            final(self).content@ == old(self).content@,
            old(self).files@.len() == 0 ==> final(self).selected_idx == old(self).selected_idx,
            old(self).files@.len() > 0 ==> final(self).selected_idx == if old(self).selected_idx
                + 1 < old(self).files@.len() {
                old(self).selected_idx + 1
            } else {
                (old(self).files@.len() - 1) as int
            },
    {
        if self.files.len() > 0 {
            if self.selected_idx < self.files.len() - 1 {
                self.selected_idx = self.selected_idx + 1;
            } else {
                self.selected_idx = self.files.len() - 1;
            }
        }
    }

    /// Moves the cursor up, stopping at the first file.
    pub fn prev(&mut self)
        ensures
            final(self).files@ == old(self).files@,
            final(self).content@ == old(self).content@,
            final(self).selected_idx == if old(self).selected_idx > 0 {
                old(self).selected_idx - 1
            } else {
                0int
            },
    {
        if self.selected_idx > 0 {
            self.selected_idx = self.selected_idx - 1;
        }
    }

    /// Moves the cursor to `idx` when that is a file.
    pub fn set_selected(&mut self, idx: usize)
        ensures
            final(self).files@ == old(self).files@,
            final(self).content@ == old(self).content@,
            idx < old(self).files@.len() ==> final(self).selected_idx == idx,
            idx >= old(self).files@.len() ==> final(self).selected_idx == old(self).selected_idx,
    {
        if idx < self.files.len() {
            self.selected_idx = idx;
        }
    }

    /// Replaces the preview with the given file text: tabs widened to
    /// four spaces, split into lines.
    pub fn load_content(&mut self, text: &str)
        ensures
            final(self).files@ == old(self).files@,
            final(self).selected_idx == old(self).selected_idx,
            final(self).content.deep_view() == lines_spec(
                replace_all_spec(text@, seq!['\t'], "    "@),
            ),
    {
        let cs = crate::strutil::chars_vec(text);
        let mut tab: Vec<char> = Vec::new();
        tab.push('\t');
        let rep = crate::strutil::chars_vec("    ");
        proof {
            assert(tab@ =~= seq!['\t']);
        }
        let widened = crate::util::replace_all_chars(&cs, &tab, &rep);
        let ws = crate::strutil::string_from_chars(&widened);
        self.content = split_lines(ws.as_str());
    }
}

} // verus!
