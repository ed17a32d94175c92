//! The commit screen's state: the staged files, the message being typed,
//! recent commits, and the diff preview.

use vstd::prelude::*;

use crate::strutil::{find_char_from, lemma_find_char_from_some, trim_chars, trimmed};

verus! {

/// The commit-screen state. The staged-file and commit lists come from
/// metadata queries; the diff preview is loaded outside the library.
pub struct GitCommitCtrl {
    pub message: String,
    pub files: Vec<String>,
    pub selected_idx: usize,
    pub content: Vec<String>,
    pub commits: Vec<String>,
    pub content_scroll: u16,
    pub input_mode: bool,
    pub repo_root: String,
}

/// The filename of a staged-list row: the trimmed text after the first
/// space; nothing when the row has no space.
pub open spec fn row_file_name(line: Seq<char>) -> Option<Seq<char>> {
    match find_char_from(line, 0, ' ') {
        None => None,
        Some(sp) => Some(trimmed(line.subrange(sp + 1, line.len() as int))),
    }
}

impl GitCommitCtrl {
    /// A commit screen over the given staged rows and recent commits,
    /// starting in input mode with an empty message.
    pub fn with_data(repo_root: String, files: Vec<String>, commits: Vec<String>) -> (r: Self)
        ensures
            r.repo_root@ == repo_root@,
            r.files@ == files@,
            r.commits@ == commits@,
            r.selected_idx == 0,
            r.message@.len() == 0,
            r.input_mode,
            r.content@.len() == 1,
            r.content@[0]@ == "< Nothing to display >"@,
    {
        let mut content: Vec<String> = Vec::new();
        content.push(String::from_str("< Nothing to display >"));
        GitCommitCtrl {
            message: String::new(),
            files,
            selected_idx: 0,
            content,
            commits,
            content_scroll: 0,
            input_mode: true,
            repo_root,
        }
    }

    /// The filename of the selected staged row, if any.
    pub fn focus_file_name(&self) -> (r: Option<String>)
        ensures
            match r {
                Some(f) => self.selected_idx < self.files@.len() && row_file_name(
                    self.files@[self.selected_idx as int]@,
                ) == Some(f@),
                None => self.selected_idx >= self.files@.len() || row_file_name(
                    self.files@[self.selected_idx as int]@,
                ) is None,
            },
    {
        if self.selected_idx >= self.files.len() {
            return None;
        }
        let cs = crate::strutil::chars_vec(self.files[self.selected_idx].as_str());
        match crate::strutil::find_char(&cs, 0, ' ') {
            None => None,
            Some(sp) => {
                proof {
                    lemma_find_char_from_some(cs@, 0, ' ');
                }
                let mut tail: Vec<char> = Vec::new();
                let mut i: usize = sp + 1;
                while i < cs.len()
                    invariant
                        sp + 1 <= i <= cs@.len(),
                        tail@ == cs@.subrange(sp + 1, i as int),
                    decreases cs@.len() - i,
                {
                    tail.push(cs[i]);
                    i = i + 1;
                    proof {
                        assert(tail@ =~= cs@.subrange(sp + 1, i as int));
                    }
                }
                proof {
                    assert(tail@ =~= cs@.subrange(sp + 1, cs@.len() as int));
                }
                let t = trim_chars(&tail);
                Some(crate::strutil::string_from_chars(&t))
            },
        }
    }

    /// Moves the cursor down, stopping at the last row, and resets the
    /// preview scroll.
    pub fn next(&mut self)
        ensures
            final(self).files@ == old(self).files@,
            final(self).content@ == old(self).content@,
            old(self).files@.len() == 0 ==> final(self).selected_idx == old(self).selected_idx,
            old(self).files@.len() > 0 ==> final(self).selected_idx == if old(self).selected_idx
                + 1 < old(self).files@.len() {
                old(self).selected_idx + 1
            } else {
                (old(self).files@.len() - 1) as int
            },
            old(self).files@.len() > 0 ==> final(self).content_scroll == 0,
    {
        if self.files.len() > 0 {
            if self.selected_idx < self.files.len() - 1 {
                self.selected_idx = self.selected_idx + 1;
            } else {
                self.selected_idx = self.files.len() - 1;
            }
            self.content_scroll = 0;
        }
    }

    /// Moves the cursor up, stopping at the first row, and resets the
    /// preview scroll.
    pub fn prev(&mut self)
        ensures
            final(self).files@ == old(self).files@,
            final(self).content@ == old(self).content@,
            final(self).selected_idx == if old(self).selected_idx > 0 {
                old(self).selected_idx - 1
            } else {
                0int
            },
            final(self).content_scroll == 0,
    {
        if self.selected_idx > 0 {
            self.selected_idx = self.selected_idx - 1;
        }
        self.content_scroll = 0;
    }

    /// Moves the cursor to `idx` when that is a row.
    pub fn set_selected(&mut self, idx: usize)
        ensures
            final(self).files@ == old(self).files@,
            idx < old(self).files@.len() ==> final(self).selected_idx == idx,
            idx >= old(self).files@.len() ==> final(self).selected_idx == old(self).selected_idx,
    {
        if idx < self.files.len() {
            self.selected_idx = idx;
        }
    }
}

} // verus!
