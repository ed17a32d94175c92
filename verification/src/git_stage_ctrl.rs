//! The staging screen's state: the section/file rows, a selection cursor
//! that only rests on file rows, and the diff preview.

use vstd::prelude::*;

use crate::git::{GitItem, GitItemKind};

verus! {

/// The staging-screen state. The rows come from the parsed status
/// listing; the preview is loaded outside the library.
pub struct GitStageCtrl {
    pub items: Vec<GitItem>,
    pub selected_idx: Option<usize>,
    pub content: Vec<String>,
    pub content_scroll: u16,
}

/// The first file row at or after `i`, if any.
pub open spec fn first_entry_at(items: Seq<GitItem>, i: int) -> Option<int>
    decreases items.len() - i,
{
    if i < 0 || i >= items.len() {
        None
    } else if items[i].kind is Entry {
        Some(i)
    } else {
        first_entry_at(items, i + 1)
    }
}

/// The last file row at or before `i`, if any.
pub open spec fn last_entry_at(items: Seq<GitItem>, i: int) -> Option<int>
    decreases i + 1,
{
    if i < 0 || i >= items.len() {
        None
    } else if items[i].kind is Entry {
        Some(i)
    } else {
        last_entry_at(items, i - 1)
    }
}

impl GitStageCtrl {
    /// A staging screen over the given rows, with the cursor on the first
    /// file row. Fails exactly when there is no file row at all.
    pub fn with_items(items: Vec<GitItem>) -> (r: Result<Self, String>)
        ensures
            match r {
                Ok(c) => {
                    &&& c.items@ == items@
                    &&& first_entry_at(items@, 0) is Some
                    &&& c.selected_idx == Some(first_entry_at(items@, 0)->Some_0 as usize)
                },
                Err(m) => {
                    &&& first_entry_at(items@, 0) is None
                    &&& m@ == "No modified or untracked files"@
                },
            },
    {
        let sel = Self::scan_entry(&items, 0);
        match sel {
            Some(i) => {
                let mut content: Vec<String> = Vec::new();
                content.push(String::from_str("< Nothing to display >"));
                Ok(
                    GitStageCtrl {
                        items,
                        selected_idx: Some(i),
                        content,
                        content_scroll: 0,
                    },
                )
            },
            None => Err(String::from_str("No modified or untracked files")),
        }
    }

    /// Replaces the rows with a fresh listing and puts the cursor back on
    /// the first file row.
    pub fn refresh(&mut self, items: Vec<GitItem>)
        ensures
            final(self).items@ == items@,
            match first_entry_at(items@, 0) {
                Some(i) => final(self).selected_idx == Some(i as usize),
                None => final(self).selected_idx is None,
            },
    {
        let sel = Self::scan_entry(&items, 0);
        self.items = items;
        self.selected_idx = sel;
    }

    /// The first file row at or after `start`.
    fn scan_entry(items: &Vec<GitItem>, start: usize) -> (r: Option<usize>)
        requires
            start <= items@.len(),
        ensures
            match r {
                Some(i) => first_entry_at(items@, start as int) == Some(i as int),
                None => first_entry_at(items@, start as int) is None,
            },
    {
        let mut i: usize = start;
        while i < items.len()
            invariant
                start <= i <= items@.len(),
                first_entry_at(items@, start as int) == first_entry_at(items@, i as int),
            decreases items@.len() - i,
        {
            if matches!(items[i].kind, GitItemKind::Entry) {
                return Some(i);
            }
            i = i + 1;
        }
        None
    }

    /// The path of the selected file row, if the cursor is on one and it
    /// carries a path.
    pub fn focus_file_name(&self) -> (r: Option<String>)
        ensures
            match r {
                Some(f) => {
                    &&& self.selected_idx is Some
                    &&& self.selected_idx->0 < self.items@.len()
                    &&& self.items@[self.selected_idx->0 as int].kind is Entry
                    &&& match self.items@[self.selected_idx->0 as int].path {
                        Some(p) => f@ == p@,
                        None => false,
                    }
                },
                None => true,
            },
    {
        match self.selected_idx {
            None => None,
            Some(idx) => {
                if idx >= self.items.len() {
                    return None;
                }
                if !matches!(self.items[idx].kind, GitItemKind::Entry) {
                    return None;
                }
                match &self.items[idx].path {
                    Some(p) => Some(p.clone()),
                    None => None,
                }
            },
        }
    }

    /// Moves the cursor to the next file row below, if there is one, and
    /// resets the preview scroll.
    pub fn next(&mut self)
        ensures
            final(self).items@ == old(self).items@,
            ({
                let start = match old(self).selected_idx {
                    Some(i) => i + 1,
                    None => 1int,
                };
                match first_entry_at(old(self).items@, start) {
                    Some(i) => final(self).selected_idx == Some(i as usize),
                    None => final(self).selected_idx == old(self).selected_idx,
                }
            }),
    {
        let start: usize = match self.selected_idx {
            Some(i) => i,
            None => 0,
        };
        if start >= self.items.len() {
            proof {
                assert(first_entry_at(self.items@, start + 1) is None);
            }
            return ;
        }
        match Self::scan_entry_from(&self.items, start + 1) {
            Some(i) => {
                self.selected_idx = Some(i);
                self.content_scroll = 0;
            },
            None => {
            },
        }
    }

    /// The first file row at or after `start`, tolerating a start beyond
    /// the rows.
    fn scan_entry_from(items: &Vec<GitItem>, start: usize) -> (r: Option<usize>)
        ensures
            match r {
                Some(i) => first_entry_at(items@, start as int) == Some(i as int),
                None => first_entry_at(items@, start as int) is None,
            },
    {
        if start >= items.len() {
            return None;
        }
        Self::scan_entry(items, start)
    }

    /// Moves the cursor to the nearest file row above, if there is one,
    /// and resets the preview scroll.
    pub fn prev(&mut self)
        ensures
            final(self).items@ == old(self).items@,
            ({
                let s0 = match old(self).selected_idx {
                    Some(i) => i - 1,
                    None => -1int,
                };
                let start = if s0 >= old(self).items@.len() {
                    old(self).items@.len() - 1
                } else {
                    s0
                };
                match last_entry_at(old(self).items@, start) {
                    Some(i) => final(self).selected_idx == Some(i as usize),
                    None => final(self).selected_idx == old(self).selected_idx,
                }
            }),
    {
        let start: usize = match self.selected_idx {
            Some(i) => i,
            None => 0,
        };
        if start == 0 {
            return ;
        }
        let mut i: usize = start - 1;
        if i >= self.items.len() {
            if self.items.len() == 0 {
                return ;
            }
            i = self.items.len() - 1;
        }
        loop
            invariant
                i < self.items@.len(),
                ({
                    let s0 = match old(self).selected_idx {
                        Some(t) => t - 1,
                        None => -1int,
                    };
                    let st = if s0 >= old(self).items@.len() {
                        old(self).items@.len() - 1
                    } else {
                        s0
                    };
                    last_entry_at(old(self).items@, st) == last_entry_at(
                        old(self).items@,
                        i as int,
                    )
                }),
                self.items@ == old(self).items@,
                self.selected_idx == old(self).selected_idx,
                self.content_scroll == old(self).content_scroll,
                self.content@ == old(self).content@,
            decreases i + 1,
        {
            if matches!(self.items[i].kind, GitItemKind::Entry) {
                proof {
                    assert(last_entry_at(self.items@, i as int) == Some(i as int));
                }
                self.selected_idx = Some(i);
                self.content_scroll = 0;
                return ;
            }
            if i == 0 {
                proof {
                    assert(last_entry_at(self.items@, -1) is None);
                    assert(last_entry_at(self.items@, 0) is None);
                }
                return ;
            }
            i = i - 1;
        }
    }

    /// Moves the cursor to `idx` when that is a file row.
    pub fn set_selected(&mut self, idx: usize)
        ensures
            final(self).items@ == old(self).items@,
            (idx < old(self).items@.len() && old(self).items@[idx as int].kind is Entry)
                ==> final(self).selected_idx == Some(idx),
            !(idx < old(self).items@.len() && old(self).items@[idx as int].kind is Entry)
                ==> final(self).selected_idx == old(self).selected_idx,
    {
        if idx < self.items.len() && matches!(self.items[idx].kind, GitItemKind::Entry) {
            self.selected_idx = Some(idx);
        }
    }

    /// Replaces the preview content.
    pub fn load_content(&mut self, lines: Vec<String>)
        ensures
            final(self).items@ == old(self).items@,
            final(self).selected_idx == old(self).selected_idx,
            final(self).content@ == lines@,
    {
        self.content = lines;
    }
}

} // verus!
