//! The search-results screen's state: matched lines and a selection
//! cursor.

use vstd::prelude::*;

verus! {

/// The search-result state. The lines come from the search tool's
/// output, already stripped of colour codes.
pub struct GrepCtrl {
    pub lines: Vec<String>,
    pub selected_idx: usize,
}

impl GrepCtrl {
    /// A result list over the given lines, with the cursor at the start.
    pub fn with_lines(lines: Vec<String>) -> (r: Self)
        ensures
            r.lines@ == lines@,
            r.selected_idx == 0,
    {
        GrepCtrl { lines, selected_idx: 0 }
    }

    /// The selected result line, if the cursor is on one.
    pub fn focus_line(&self) -> (r: Option<String>)
        ensures
            match r {
                Some(l) => self.selected_idx < self.lines@.len() && l@ == self.lines@[
                    self.selected_idx as int
                ]@,
                None => self.selected_idx >= self.lines@.len(),
            },
    {
        if self.selected_idx < self.lines.len() {
            Some(self.lines[self.selected_idx].clone())
        } else {
            None
        }
    }

    /// Moves the cursor down, stopping at the last line.
    pub fn next(&mut self)
        ensures
            final(self).lines@ == old(self).lines@,
            old(self).lines@.len() == 0 ==> final(self).selected_idx == old(self).selected_idx,
            old(self).lines@.len() > 0 ==> final(self).selected_idx == if old(self).selected_idx
                + 1 < old(self).lines@.len() {
                old(self).selected_idx + 1
            } else {
                (old(self).lines@.len() - 1) as int
            },
    {
        if self.lines.len() > 0 {
            if self.selected_idx < self.lines.len() - 1 {
                self.selected_idx = self.selected_idx + 1;
            } else {
                self.selected_idx = self.lines.len() - 1;
            }
        }
    }

    /// Moves the cursor up, stopping at the first line.
    pub fn prev(&mut self)
        ensures
            final(self).lines@ == old(self).lines@,
            final(self).selected_idx == if old(self).selected_idx > 0 {
                old(self).selected_idx - 1
            } else {
                0int
            },
    {
        if self.selected_idx > 0 {
            self.selected_idx = self.selected_idx - 1;
        }
    }

    /// Moves the cursor to `idx` when that is a result line.
    pub fn set_selected(&mut self, idx: usize)
        ensures
            final(self).lines@ == old(self).lines@,
            idx < old(self).lines@.len() ==> final(self).selected_idx == idx,
            idx >= old(self).lines@.len() ==> final(self).selected_idx == old(self).selected_idx,
    {
        if idx < self.lines.len() {
            self.selected_idx = idx;
        }
    }
}

} // verus!
