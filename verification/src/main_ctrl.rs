//! The directory browser's state: the listing of the current directory,
//! a selection cursor, and the command input line.

use vstd::prelude::*;

verus! {

/// One listed directory entry.
#[derive(PartialEq)]
pub struct DirEntry {
    pub name: String,
    pub is_dir: bool,
}

impl Clone for DirEntry {
    fn clone(&self) -> (r: Self)
        ensures
            r.name@ == self.name@,
            r.is_dir == self.is_dir,
    {
        DirEntry { name: self.name.clone(), is_dir: self.is_dir }
    }
}

/// The browser state. Reading the directory happens outside the library;
/// the listing is handed in, already ordered for display.
pub struct MainCtrl {
    pub cwd: String,
    pub items: Vec<DirEntry>,
    pub selected_idx: usize,
    pub input: String,
    pub input_mode: bool,
    pub cmd_list: Vec<String>,
    pub work_list: Vec<String>,
    pub work_idx: usize,
    pub registered_paths: Vec<String>,
    pub confirm_delete: bool,
    pub confirm_target: Option<String>,
}

/// The listing rows for the given entries: the parent link first, then
/// every entry except the tool's own data directory.
pub open spec fn listing_model(entries: Seq<DirEntry>) -> Seq<(Seq<char>, bool)>
    decreases entries.len(),
{
    if entries.len() == 0 {
        Seq::empty()
    } else {
        listing_model(entries.drop_last()) + (if entries.last().name@ == ".dcdata"@ {
            Seq::<(Seq<char>, bool)>::empty()
        } else {
            seq![(entries.last().name@, entries.last().is_dir)]
        })
    }
}

/// The visible rows of a browser.
pub open spec fn rows_of(items: Seq<DirEntry>) -> Seq<(Seq<char>, bool)> {
    items.map_values(|e: DirEntry| (e.name@, e.is_dir))
}

impl MainCtrl {
    /// A browser at the given directory, with an empty listing until one
    /// is handed in.
    pub fn with_ctx(cwd: String, registered_paths: Vec<String>) -> (r: Self)
        ensures
            r.cwd@ == cwd@,
            r.registered_paths@ == registered_paths@,
            r.items@.len() == 0,
            r.selected_idx == 0,
            r.work_list@.len() == 1,
            r.work_list@[0]@ == cwd@,
            r.work_idx == 0,
            !r.input_mode,
            !r.confirm_delete,
    {
        let first = cwd.clone();
        let mut work_list: Vec<String> = Vec::new();
        work_list.push(first);
        MainCtrl {
            cwd,
            items: Vec::new(),
            selected_idx: 0,
            input: String::new(),
            input_mode: false,
            cmd_list: Vec::new(),
            work_list,
            work_idx: 0,
            registered_paths,
            confirm_delete: false,
            confirm_target: None,
        }
    }

    /// Replaces the listing with the given entries (already ordered): the
    /// parent link first, the tool's own data directory hidden, and the
    /// cursor back at the top.
    pub fn refresh(&mut self, entries: Vec<DirEntry>)
        ensures
            final(self).cwd@ == old(self).cwd@,
            final(self).selected_idx == 0,
            rows_of(final(self).items@) == seq![(".."@, true)] + listing_model(entries@),
    {
        let mut list: Vec<DirEntry> = Vec::new();
        list.push(DirEntry { name: String::from_str(".."), is_dir: true });
        proof {
            assert(rows_of(list@) =~= seq![(".."@, true)]);
            assert(entries@.subrange(0, 0) =~= Seq::<DirEntry>::empty());
            assert(rows_of(list@) =~= seq![(".."@, true)] + listing_model(
                entries@.subrange(0, 0),
            ));
        }
        let mut i: usize = 0;
        while i < entries.len()
            invariant
                i <= entries@.len(),
                rows_of(list@) == seq![(".."@, true)] + listing_model(
                    entries@.subrange(0, i as int),
                ),
            decreases entries@.len() - i,
        {
            proof {
                assert(entries@.subrange(0, i + 1).drop_last() =~= entries@.subrange(0, i as int));
                assert(entries@.subrange(0, i + 1).last() == entries@[i as int]);
            }
            if !crate::strutil::str_eq(entries[i].name.as_str(), ".dcdata") {
                let ghost before = list@;
                list.push(entries[i].clone());
                proof {
                    assert(rows_of(list@) =~= rows_of(before).push(
                        (entries@[i as int].name@, entries@[i as int].is_dir),
                    ));
                    assert(rows_of(list@) =~= seq![(".."@, true)] + listing_model(
                        entries@.subrange(0, i + 1),
                    ));
                }
            } else {
                proof {
                    assert(rows_of(list@) =~= seq![(".."@, true)] + listing_model(
                        entries@.subrange(0, i + 1),
                    ));
                }
            }
            i = i + 1;
        }
        proof {
            assert(entries@.subrange(0, entries@.len() as int) =~= entries@);
        }
        self.items = list;
        self.selected_idx = 0;
    }

    /// The name of the selected row, if the cursor is on one.
    pub fn focus_name(&self) -> (r: Option<String>)
        ensures
            match r {
                Some(n) => self.selected_idx < self.items@.len() && n@ == self.items@[
                    self.selected_idx as int
                ].name@,
                None => self.selected_idx >= self.items@.len(),
            },
    {
        if self.selected_idx < self.items.len() {
            Some(self.items[self.selected_idx].name.clone())
        } else {
            None
        }
    }

    /// Moves the cursor down, stopping at the last row.
    pub fn select_next(&mut self)
        ensures
            final(self).items@ == old(self).items@,
            old(self).items@.len() == 0 ==> final(self).selected_idx == old(self).selected_idx,
            old(self).items@.len() > 0 ==> final(self).selected_idx == if old(self).selected_idx
                + 1 < old(self).items@.len() {
                old(self).selected_idx + 1
            } else {
                (old(self).items@.len() - 1) as int
            },
    {
        if self.items.len() > 0 {
            if self.selected_idx < self.items.len() - 1 {
                self.selected_idx = self.selected_idx + 1;
            } else {
                self.selected_idx = self.items.len() - 1;
            }
        }
    }

    /// Moves the cursor up, stopping at the first row.
    pub fn select_prev(&mut self)
        ensures
            final(self).items@ == old(self).items@,
            final(self).selected_idx == if old(self).selected_idx > 0 {
                old(self).selected_idx - 1
            } else {
                0int
            },
    {
        if self.selected_idx > 0 {
            self.selected_idx = self.selected_idx - 1;
        }
    }

    /// Moves the cursor to `idx` when that is a row.
    pub fn set_selected(&mut self, idx: usize)
        ensures
            final(self).items@ == old(self).items@,
            idx < old(self).items@.len() ==> final(self).selected_idx == idx,
            idx >= old(self).items@.len() ==> final(self).selected_idx == old(self).selected_idx,
    {
        if idx < self.items.len() {
            self.selected_idx = idx;
        }
    }
}

} // verus!
