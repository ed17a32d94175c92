//! The history screen's state: the commit list, a text filter over
//! author and subject, and the loaded commit detail.

use vstd::prelude::*;

use crate::git::CommitSummary;
use crate::strutil::{contains_sub, lower_of, str_contains, to_lower};

verus! {

/// The history-screen state. The commit summaries come from the
/// repository reader; the detail text is loaded outside the library and
/// handed in.
pub struct GitHistoryCtrl {
    pub repo_root: String,
    pub commits: Vec<CommitSummary>,
    pub selected_idx: usize,
    pub filter: String,
    pub filtered: Vec<CommitSummary>,
    pub detail: Vec<String>,
    pub detail_scroll: u16,
}

/// Whether a commit passes the filter (already lowercased): its author or
/// its subject mentions the text.
pub open spec fn commit_passes(c: CommitSummary, lf: Seq<char>) -> bool {
    contains_sub(lower_of(c.author@), lf) || contains_sub(lower_of(c.subject@), lf)
}

/// Two commit summaries that hold the same data.
pub open spec fn commit_like(a: CommitSummary, b: CommitSummary) -> bool {
    a.hash@ == b.hash@ && a.author@ == b.author@ && a.date@ == b.date@ && a.subject@ == b.subject@
}

impl GitHistoryCtrl {
    /// A history screen over the given commits, with no filter applied
    /// and a placeholder detail.
    pub fn with_data(repo_root: String, commits: Vec<CommitSummary>) -> (r: Self)
        ensures
            r.repo_root@ == repo_root@,
            r.commits@ == commits@,
            r.filter@.len() == 0,
            r.filtered@.len() == commits@.len(),
            forall|k: int|
                0 <= k < commits@.len() ==> commit_like(#[trigger] r.filtered@[k], commits@[k]),
            r.selected_idx == 0,
    {
        let mut ctrl = GitHistoryCtrl {
            repo_root,
            commits,
            selected_idx: 0,
            filter: String::new(),
            filtered: Vec::new(),
            detail: Vec::new(),
            detail_scroll: 0,
        };
        ctrl.detail.push(String::from_str("< Nothing to display >"));
        ctrl.apply_filter();
        ctrl
    }

    /// Re-applies the filter: with empty filter text every commit stays;
    /// otherwise a commit stays exactly when its author or subject
    /// mentions the text, compared without regard to case. The cursor is
    /// clamped into the new list and the detail scroll reset.
    pub fn apply_filter(&mut self)
        ensures
            final(self).repo_root@ == old(self).repo_root@,
            final(self).commits@ == old(self).commits@,
            final(self).filter@ == old(self).filter@,
            old(self).filter@.len() == 0 ==> final(self).filtered@.len() == old(
                self,
            ).commits@.len() && (forall|k: int|
                0 <= k < old(self).commits@.len() ==> commit_like(
                    #[trigger] final(self).filtered@[k],
                    old(self).commits@[k],
                )),
            old(self).filter@.len() > 0 ==> {
                &&& forall|k: int|
                    0 <= k < final(self).filtered@.len() ==> commit_passes(
                        #[trigger] final(self).filtered@[k],
                        lower_of(old(self).filter@),
                    )
                &&& forall|k: int|
                    0 <= k < old(self).commits@.len() && commit_passes(
                        #[trigger] old(self).commits@[k],
                        lower_of(old(self).filter@),
                    ) ==> exists|t: int|
                        0 <= t < final(self).filtered@.len() && commit_like(
                            old(self).commits@[k],
                            #[trigger] final(self).filtered@[t],
                        )
            },
            final(self).filtered@.len() == 0 ==> final(self).selected_idx == 0,
            final(self).filtered@.len() > 0 ==> final(self).selected_idx == if old(
                self,
            ).selected_idx < final(self).filtered@.len() {
                old(self).selected_idx as int
            } else {
                final(self).filtered@.len() - 1
            },
    {
        let ghost commits0 = self.commits@;
        let fl = to_lower(self.filter.as_str());
        let empty_filter = self.filter.as_str().unicode_len() == 0;
        let mut kept: Vec<CommitSummary> = Vec::new();
        let mut i: usize = 0;
        while i < self.commits.len()
            invariant
                commits0 == self.commits@,
                fl@ == lower_of(self.filter@),
                i <= commits0.len(),
                empty_filter ==> kept@.len() == i && (forall|k: int|
                    0 <= k < i ==> commit_like(#[trigger] kept@[k], commits0[k])),
                !empty_filter ==> forall|k: int|
                    0 <= k < kept@.len() ==> commit_passes(#[trigger] kept@[k], fl@),
                !empty_filter ==> forall|k: int|
                    0 <= k < i && commit_passes(#[trigger] commits0[k], fl@) ==> exists|t: int|
                        0 <= t < kept@.len() && commit_like(commits0[k], #[trigger] kept@[t]),
            decreases commits0.len() - i,
        {
            let c = &self.commits[i];
            if empty_filter {
                kept.push(c.clone());
                proof {
                    assert(commit_like(kept@[kept@.len() - 1], commits0[i as int]));
                }
            } else {
                let la = to_lower(c.author.as_str());
                let ls = to_lower(c.subject.as_str());
                let passes = str_contains(la.as_str(), fl.as_str()) || str_contains(
                    ls.as_str(),
                    fl.as_str(),
                );
                if passes {
                    let ghost before = kept@;
                    kept.push(c.clone());
                    proof {
                        assert(commit_like(commits0[i as int], kept@[kept@.len() - 1]));
                        assert(commit_passes(kept@[kept@.len() - 1], fl@));
                        assert(forall|k: int|
                            0 <= k < before.len() ==> #[trigger] kept@[k] == before[k]);
                        assert forall|k: int|
                            0 <= k < i + 1 && commit_passes(
                                #[trigger] commits0[k],
                                fl@,
                            ) implies exists|t: int|
                            0 <= t < kept@.len() && commit_like(
                                commits0[k],
                                #[trigger] kept@[t],
                            ) by {
                            if k < i {
                                let t0 = choose|t0: int|
                                    0 <= t0 < before.len() && commit_like(
                                        commits0[k],
                                        #[trigger] before[t0],
                                    );
                                assert(kept@[t0] == before[t0]);
                            } else {
                                assert(commit_like(commits0[k], kept@[kept@.len() - 1]));
                            }
                        }
                    }
                } else {
                    proof {
                        assert(!commit_passes(commits0[i as int], fl@));
                    }
                }
            }
            i = i + 1;
        }
        self.filtered = kept;
        self.detail_scroll = 0;
        if self.filtered.len() == 0 {
            self.selected_idx = 0;
            self.detail = Vec::new();
            self.detail.push(String::from_str("< No commit >"));
        } else if self.selected_idx >= self.filtered.len() {
            self.selected_idx = self.filtered.len() - 1;
        }
    }

    /// The selected commit, if the cursor is on one.
    pub fn focus_commit(&self) -> (r: Option<&CommitSummary>)
        ensures
            match r {
                Some(c) => self.selected_idx < self.filtered@.len() && *c == self.filtered@[
                    self.selected_idx as int
                ],
                None => self.selected_idx >= self.filtered@.len(),
            },
    {
        if self.selected_idx < self.filtered.len() {
            Some(&self.filtered[self.selected_idx])
        } else {
            None
        }
    }

    /// Replaces the filter text and re-applies it.
    pub fn set_filter(&mut self, filter: String)
        ensures
            final(self).filter@ == filter@,
            final(self).commits@ == old(self).commits@,
            filter@.len() > 0 ==> forall|k: int|
                0 <= k < final(self).filtered@.len() ==> commit_passes(
                    #[trigger] final(self).filtered@[k],
                    lower_of(filter@),
                ),
    {
        self.filter = filter;
        self.apply_filter();
    }

    /// Moves the cursor down, stopping at the last commit, and resets the
    /// detail scroll.
    pub fn next(&mut self)
        ensures
            final(self).filtered@ == old(self).filtered@,
            old(self).filtered@.len() == 0 ==> final(self).selected_idx == old(self).selected_idx,
            old(self).filtered@.len() > 0 ==> final(self).selected_idx == if old(
                self,
            ).selected_idx + 1 < old(self).filtered@.len() {
                old(self).selected_idx + 1
            } else {
                (old(self).filtered@.len() - 1) as int
            },
    {
        if self.filtered.len() > 0 {
            if self.selected_idx < self.filtered.len() - 1 {
                self.selected_idx = self.selected_idx + 1;
            } else {
                self.selected_idx = self.filtered.len() - 1;
            }
            self.detail_scroll = 0;
        }
    }

    /// Moves the cursor up, stopping at the first commit, and resets the
    /// detail scroll.
    pub fn prev(&mut self)
        ensures
            final(self).filtered@ == old(self).filtered@,
            old(self).filtered@.len() == 0 ==> final(self).selected_idx == old(self).selected_idx,
            old(self).filtered@.len() > 0 ==> final(self).selected_idx == if old(
                self,
            ).selected_idx > 0 {
                old(self).selected_idx - 1
            } else {
                0int
            },
    {
        if self.filtered.len() > 0 {
            if self.selected_idx > 0 {
                self.selected_idx = self.selected_idx - 1;
            }
            self.detail_scroll = 0;
        }
    }

    /// Moves the cursor ten commits down, stopping at the last one.
    pub fn page_down(&mut self)
        ensures
            final(self).filtered@ == old(self).filtered@,
            old(self).filtered@.len() == 0 ==> final(self).selected_idx == old(self).selected_idx,
            old(self).filtered@.len() > 0 ==> final(self).selected_idx == if old(
                self,
            ).selected_idx + 10 < old(self).filtered@.len() {
                old(self).selected_idx + 10
            } else {
                (old(self).filtered@.len() - 1) as int
            },
    {
        if self.filtered.len() > 0 {
            if self.selected_idx < self.filtered.len() - 1 && self.filtered.len() - 1
                - self.selected_idx > 10 {
                self.selected_idx = self.selected_idx + 10;
            } else {
                self.selected_idx = self.filtered.len() - 1;
            }
            self.detail_scroll = 0;
        }
    }

    /// Moves the cursor ten commits up, stopping at the first one.
    pub fn page_up(&mut self)
        ensures
            final(self).filtered@ == old(self).filtered@,
            old(self).filtered@.len() == 0 ==> final(self).selected_idx == old(self).selected_idx,
            old(self).filtered@.len() > 0 ==> final(self).selected_idx == if old(
                self,
            ).selected_idx > 10 {
                old(self).selected_idx - 10
            } else {
                0int
            },
    {
        if self.filtered.len() > 0 {
            if self.selected_idx > 10 {
                self.selected_idx = self.selected_idx - 10;
            } else {
                self.selected_idx = 0;
            }
            self.detail_scroll = 0;
        }
    }

    /// Moves the cursor to `idx` when that is a commit.
    pub fn set_selected(&mut self, idx: usize)
        ensures
            final(self).filtered@ == old(self).filtered@,
            idx < old(self).filtered@.len() ==> final(self).selected_idx == idx,
            idx >= old(self).filtered@.len() ==> final(self).selected_idx == old(
                self,
            ).selected_idx,
    {
        if idx < self.filtered.len() {
            self.selected_idx = idx;
            self.detail_scroll = 0;
        }
    }

    /// Replaces the loaded commit detail: the given lines, or a
    /// placeholder when there are none.
    pub fn load_detail(&mut self, lines: Vec<String>)
        ensures
            final(self).filtered@ == old(self).filtered@,
            final(self).selected_idx == old(self).selected_idx,
            lines@.len() > 0 ==> final(self).detail@ == lines@,
            lines@.len() == 0 ==> final(self).detail@.len() == 1 && final(self).detail@[0]@
                == "< No detail >"@,
    {
        if lines.len() > 0 {
            self.detail = lines;
        } else {
            self.detail = Vec::new();
            self.detail.push(String::from_str("< No detail >"));
        }
    }
}

} // verus!
