//! The repository-list screen's state: the registered repositories, the
//! per-path health records from the read-only probes, the per-path pull
//! records of the bounded scheduler, and the attention-first ordering.
//!
//! Workers and channels live outside the library; the events they produce
//! are handed in as values, and the decisions of what to start are handed
//! back as values.

use vstd::prelude::*;

use crate::config::{reg_item_like, reg_model, reg_models, RegItem};
use crate::git::{info_model, PullEvent, PullEventKind, PullStatus, RepoPullInfo, RepoStatusInfo, StatusEvent};
use crate::registry::{mentioned_models, AppContext};
use crate::strutil::{contains_sub, lex_le, lower_of, str_contains, str_eq, str_le, to_lower};
use crate::util::{ansi_stripped, without_cr};
use crate::PULL_LOG_CAP;

verus! {

/// What the detail panel shows.
pub enum DetailMode {
    Hidden,
    Log,
    Status,
}

/// The repository-list state.
pub struct RegListCtrl {
    pub items: Vec<RegItem>,
    pub selected_idx: usize,
    pub filter: String,
    pub pull_infos: Vec<(String, RepoPullInfo)>,
    pub pull_total: usize,
    pub pull_done: usize,
    pub status_infos: Vec<(String, RepoStatusInfo)>,
    pub detail_mode: DetailMode,
    pub log_path: Option<String>,
    pub log_scroll: u16,
    pub status_lines: Vec<String>,
}

/// The index of the first record keyed by `path`, if any.
pub open spec fn assoc_find<V>(m: Seq<(String, V)>, path: Seq<char>, i: int) -> Option<int>
    decreases m.len() - i,
{
    if i < 0 || i >= m.len() {
        None
    } else if m[i].0@ == path {
        Some(i)
    } else {
        assoc_find(m, path, i + 1)
    }
}

/// Whether a health record marks its repository as needing attention:
/// dirty, or ahead or behind its upstream.
pub open spec fn needs_attention(info: RepoStatusInfo) -> bool {
    info.dirty || info.ahead > 0 || info.behind > 0
}

/// Whether the repository at `path` needs attention, according to the
/// health records; one without a record does not.
pub open spec fn path_changed(m: Seq<(String, RepoStatusInfo)>, path: Seq<char>) -> bool {
    match assoc_find(m, path, 0) {
        Some(i) => needs_attention(m[i].1),
        None => false,
    }
}

/// The display order: repositories that need attention come first, and
/// within each group paths are ordered lexicographically.
pub open spec fn reg_le(m: Seq<(String, RepoStatusInfo)>, a: RegItem, b: RegItem) -> bool {
    let ca = path_changed(m, a.path@);
    let cb = path_changed(m, b.path@);
    if ca != cb {
        ca
    } else {
        lex_le(a.path@, b.path@)
    }
}

pub proof fn lemma_reg_le_total(m: Seq<(String, RepoStatusInfo)>, a: RegItem, b: RegItem)
    ensures
        reg_le(m, a, b) || reg_le(m, b, a),
{
    crate::strutil::lemma_lex_le_total(a.path@, b.path@);
}

pub proof fn lemma_reg_le_trans(
    m: Seq<(String, RepoStatusInfo)>,
    a: RegItem,
    b: RegItem,
    c: RegItem,
)
    requires
        reg_le(m, a, b),
        reg_le(m, b, c),
    ensures
        reg_le(m, a, c),
{
    if path_changed(m, a.path@) == path_changed(m, b.path@) && path_changed(m, b.path@)
        == path_changed(m, c.path@) {
        crate::strutil::lemma_lex_le_trans(a.path@, b.path@, c.path@);
    }
}

/// The health records after an event: a reported record replaces the
/// record at its path, or is appended when the path had none; an empty
/// report changes nothing.
pub open spec fn status_step(
    m: Seq<(String, RepoStatusInfo)>,
    ev: StatusEvent,
) -> Seq<(String, RepoStatusInfo)> {
    match ev.info {
        Some(info) => match assoc_find(m, ev.path@, 0) {
            Some(i) => m.update(i, (ev.path, info)),
            None => m.push((ev.path, info)),
        },
        None => m,
    }
}

/// The health records after a batch of events, applied in order.
pub open spec fn status_after(
    m: Seq<(String, RepoStatusInfo)>,
    evs: Seq<StatusEvent>,
) -> Seq<(String, RepoStatusInfo)>
    decreases evs.len(),
{
    if evs.len() == 0 {
        m
    } else {
        status_after(status_step(m, evs[0]), evs.subrange(1, evs.len() as int))
    }
}

/// The data of the visible rows for a filter: every item for blank
/// filter text, else the subsequence whose names mention the text,
/// compared without regard to case.
pub open spec fn filtered_models(items: Seq<RegItem>, f: Seq<char>) -> Seq<
    (Seq<String>, String, Seq<String>, bool),
> {
    if crate::strutil::trimmed(f).len() == 0 {
        reg_models(items)
    } else {
        mentioned_models(items, lower_of(f))
    }
}

/// The first visible row at or after `i` whose path reads `p`.
pub open spec fn first_visible_path(
    ms: Seq<(Seq<String>, String, Seq<String>, bool)>,
    p: Seq<char>,
    i: int,
) -> Option<int>
    decreases ms.len() - i,
{
    if i < 0 || i >= ms.len() {
        None
    } else if ms[i].1@ == p {
        Some(i)
    } else {
        first_visible_path(ms, p, i + 1)
    }
}

/// Whether applying one event would change a record's data: it does when
/// the event reports a record for a path that had none, or one whose
/// data differs from what is stored.
pub open spec fn step_changes(m: Seq<(String, RepoStatusInfo)>, ev: StatusEvent) -> bool {
    match ev.info {
        None => false,
        Some(info) => match assoc_find(m, ev.path@, 0) {
            None => true,
            Some(i) => info_model(m[i].1) != info_model(info),
        },
    }
}

/// Whether any event of the batch changes a record's data.
pub open spec fn any_status_change(m: Seq<(String, RepoStatusInfo)>, evs: Seq<StatusEvent>) -> bool
    decreases evs.len(),
{
    if evs.len() == 0 {
        false
    } else {
        step_changes(m, evs[0]) || any_status_change(
            status_step(m, evs[0]),
            evs.subrange(1, evs.len() as int),
        )
    }
}

/// The paths of the items marked as repositories, in order.
pub open spec fn repo_paths(items: Seq<RegItem>) -> Seq<Seq<char>>
    decreases items.len(),
{
    if items.len() == 0 {
        Seq::empty()
    } else {
        repo_paths(items.drop_last()) + (if items.last().repo {
            seq![items.last().path@]
        } else {
            Seq::<Seq<char>>::empty()
        })
    }
}

impl RegListCtrl {
    /// A repository list over the given items; probes and detail are
    /// started by the caller.
    pub fn with_repos(items: Vec<RegItem>) -> (r: Self)
        ensures
            r.items@ == items@,
            r.selected_idx == 0,
            r.filter@.len() == 0,
            r.pull_infos@.len() == 0,
            r.pull_total == 0,
            r.pull_done == 0,
            r.status_infos@.len() == 0,
            r.detail_mode is Status,
            r.status_lines@.len() == 0,
    {
        RegListCtrl {
            items,
            selected_idx: 0,
            filter: String::new(),
            pull_infos: Vec::new(),
            pull_total: 0,
            pull_done: 0,
            status_infos: Vec::new(),
            detail_mode: DetailMode::Status,
            log_path: None,
            log_scroll: 0,
            status_lines: Vec::new(),
        }
    }

    /// A repository list over the registered items, in ascending path
    /// order.
    #[verifier::rlimit(60)]
    pub fn new(ctx: &AppContext) -> (r: Self)
        ensures
            r.items@.len() == ctx.config.path@.len(),
            r.pull_infos@.len() == 0,
            r.status_infos@.len() == 0,
            r.filter@.len() == 0,
            forall|k: int|
                0 <= k && k + 1 < r.items@.len() ==> crate::strutil::lex_le(
                    (#[trigger] r.items@[k]).path@,
                    r.items@[k + 1].path@,
                ),
            forall|k: int|
                0 <= k < r.items@.len() ==> exists|j: int|
                    0 <= j < ctx.config.path@.len() && reg_item_like(
                        ctx.config.path@[j],
                        #[trigger] r.items@[k],
                    ),
            forall|j: int|
                0 <= j < ctx.config.path@.len() ==> exists|k: int|
                    0 <= k < r.items@.len() && reg_item_like(
                        #[trigger] ctx.config.path@[j],
                        #[trigger] r.items@[k],
                    ),
    {
        let ghost orig = ctx.config.path@;
        let mut items: Vec<RegItem> = Vec::new();
        let mut i: usize = 0;
        while i < ctx.config.path.len()
            invariant
                orig == ctx.config.path@,
                i <= orig.len(),
                items@.len() == i,
                forall|k: int|
                    0 <= k < i ==> reg_item_like(orig[k], #[trigger] items@[k]),
            decreases ctx.config.path@.len() - i,
        {
            items.push(ctx.config.path[i].clone());
            i = i + 1;
        }
        let ghost clones = items@;
        let mut ctrl = Self::with_repos(items);
        ctrl.sort_items();
        proof {
            // an empty set of health records marks nothing as needing
            // attention, so the display order is plain path order
            assert forall|k: int|
                0 <= k && k + 1 < ctrl.items@.len() implies crate::strutil::lex_le(
                (#[trigger] ctrl.items@[k]).path@,
                ctrl.items@[k + 1].path@,
            ) by {
                assert(reg_le(Seq::empty(), ctrl.items@[k], ctrl.items@[k + 1]));
                assert(!path_changed(Seq::empty(), ctrl.items@[k].path@));
                assert(!path_changed(Seq::empty(), ctrl.items@[k + 1].path@));
            }
            assert forall|k: int|
                0 <= k < ctrl.items@.len() implies exists|j: int|
                0 <= j < orig.len() && reg_item_like(
                    orig[j],
                    #[trigger] ctrl.items@[k],
                ) by {
                let j0 = choose|j0: int|
                    0 <= j0 < clones.len() && reg_item_like(clones[j0], #[trigger] ctrl.items@[k]);
                assert(reg_item_like(orig[j0], clones[j0]));
                assert(reg_item_like(orig[j0], ctrl.items@[k]));
            }
            assert forall|j: int| 0 <= j < orig.len() implies exists|k: int|
                0 <= k < ctrl.items@.len() && reg_item_like(
                    #[trigger] orig[j],
                    #[trigger] ctrl.items@[k],
                ) by {
                assert(reg_item_like(orig[j], clones[j]));
                let k0 = choose|k0: int|
                    0 <= k0 < ctrl.items@.len() && reg_item_like(
                        #[trigger] clones[j],
                        #[trigger] ctrl.items@[k0],
                    );
                assert(reg_item_like(orig[j], ctrl.items@[k0]));
            }
        }
        ctrl
    }

    /// The paths whose repositories should get a read-only health probe:
    /// every registered item marked as a repository.
    pub fn start_status_check(&self) -> (r: Vec<String>)
        ensures
            r.deep_view() == repo_paths(self.items@),
    {
        let ghost items = self.items@;
        let mut r: Vec<String> = Vec::new();
        let mut i: usize = 0;
        proof {
            assert(items.subrange(0, 0) =~= Seq::<RegItem>::empty());
            assert(r.deep_view() =~= repo_paths(items.subrange(0, 0)));
        }
        while i < self.items.len()
            invariant
                items == self.items@,
                i <= items.len(),
                r.deep_view() == repo_paths(items.subrange(0, i as int)),
            decreases items.len() - i,
        {
            proof {
                assert(items.subrange(0, i + 1).drop_last() =~= items.subrange(0, i as int));
                assert(items.subrange(0, i + 1).last() == items[i as int]);
            }
            if self.items[i].repo {
                let ghost before = r.deep_view();
                r.push(self.items[i].path.clone());
                proof {
                    assert(r.deep_view() =~= before.push(items[i as int].path@));
                    assert(repo_paths(items.subrange(0, i + 1)) =~= before.push(
                        items[i as int].path@,
                    ));
                }
            } else {
                proof {
                    assert(repo_paths(items.subrange(0, i + 1)) =~= r.deep_view());
                }
            }
            i = i + 1;
        }
        proof {
            assert(items.subrange(0, items.len() as int) =~= items);
        }
        r
    }

    /// Whether the repository at `path` currently needs attention.
    fn is_changed(&self, path: &str) -> (r: bool)
        ensures
            r == path_changed(self.status_infos@, path@),
    {
        let ghost m = self.status_infos@;
        let mut i: usize = 0;
        while i < self.status_infos.len()
            invariant
                m == self.status_infos@,
                i <= m.len(),
                assoc_find(m, path@, 0) == assoc_find(m, path@, i as int),
            decreases m.len() - i,
        {
            if str_eq(self.status_infos[i].0.as_str(), path) {
                let info = &self.status_infos[i].1;
                return info.dirty || info.ahead > 0 || info.behind > 0;
            }
            i = i + 1;
        }
        false
    }

    /// Whether `a` sorts at or before `b` in the display order.
    fn le_exec(&self, a: &RegItem, b: &RegItem) -> (r: bool)
        ensures
            r == reg_le(self.status_infos@, *a, *b),
    {
        let ca = self.is_changed(a.path.as_str());
        let cb = self.is_changed(b.path.as_str());
        if ca != cb {
            ca
        } else {
            str_le(a.path.as_str(), b.path.as_str())
        }
    }

    /// The items in display order: repositories needing attention first,
    /// then by path; the result keeps exactly the members of the list.
    #[verifier::rlimit(100)]
    pub fn sorted_by_attention(&self) -> (out: Vec<RegItem>)
        ensures
            out@.len() == self.items@.len(),
            forall|k: int|
                0 <= k && k + 1 < out@.len() ==> reg_le(
                    self.status_infos@,
                    #[trigger] out@[k],
                    out@[k + 1],
                ),
            forall|k: int|
                0 <= k < out@.len() ==> exists|j: int|
                    0 <= j < self.items@.len() && reg_item_like(
                        self.items@[j],
                        #[trigger] out@[k],
                    ),
            forall|j: int|
                0 <= j < self.items@.len() ==> exists|k: int|
                    0 <= k < out@.len() && reg_item_like(
                        #[trigger] self.items@[j],
                        #[trigger] out@[k],
                    ),
    {
        let ghost m = self.status_infos@;
        let ghost items0 = self.items@;
        let n: usize = self.items.len();
        let mut out: Vec<RegItem> = Vec::new();
        let mut used: Vec<bool> = Vec::new();
        let mut i: usize = 0;
        while i < n
            invariant
                i <= n,
                used@.len() == i,
                forall|k: int| 0 <= k < i ==> !(#[trigger] used@[k]),
            decreases n - i,
        {
            used.push(false);
            i = i + 1;
        }
        proof {
            lemma_none_used_count(used@);
        }
        while out.len() < n
            invariant
                m == self.status_infos@,
                items0 == self.items@,
                n == items0.len(),
                used@.len() == n,
                out@.len() <= n,
                out@.len() == count_used(used@),
                forall|k: int|
                    0 <= k && k + 1 < out@.len() ==> reg_le(
                        m,
                        #[trigger] out@[k],
                        out@[k + 1],
                    ),
                forall|j: int|
                    0 <= j < n && !(#[trigger] used@[j]) && out@.len() > 0 ==> reg_le(
                        m,
                        out@[out@.len() - 1],
                        items0[j],
                    ),
                forall|k: int|
                    0 <= k < out@.len() ==> exists|j: int|
                        0 <= j < n && reg_item_like(items0[j], #[trigger] out@[k]),
                forall|j: int|
                    0 <= j < n && #[trigger] used@[j] ==> exists|k: int|
                        0 <= k < out@.len() && reg_item_like(items0[j], #[trigger] out@[k]),
            decreases n - out@.len(),
        {
            proof {
                lemma_count_used_bound(used@);
                if count_used(used@) < n {
                    lemma_unused_exists(used@);
                }
            }
            let mut best: usize = 0;
            let mut found: bool = false;
            let mut j: usize = 0;
            while j < n
                invariant
                    m == self.status_infos@,
                    items0 == self.items@,
                    n == items0.len(),
                    used@.len() == n,
                    j <= n,
                    found ==> best < n && !used@[best as int],
                    found ==> forall|t: int|
                        0 <= t < j && !(#[trigger] used@[t]) ==> reg_le(
                            m,
                            items0[best as int],
                            items0[t],
                        ),
                    !found ==> forall|t: int| 0 <= t < j ==> #[trigger] used@[t],
                decreases n - j,
            {
                if !used[j] {
                    if !found {
                        best = j;
                        found = true;
                        proof {
                            assert(reg_le(m, items0[best as int], items0[best as int])) by {
                                lemma_reg_le_total(m, items0[best as int], items0[best as int]);
                            }
                        }
                    } else if self.le_exec(&self.items[j], &self.items[best]) {
                        proof {
                            lemma_reg_le_total(m, items0[j as int], items0[j as int]);
                            assert forall|t: int|
                                0 <= t < j && !(#[trigger] used@[t]) implies reg_le(
                                m,
                                items0[j as int],
                                items0[t],
                            ) by {
                                lemma_reg_le_trans(
                                    m,
                                    items0[j as int],
                                    items0[best as int],
                                    items0[t],
                                );
                            }
                        }
                        best = j;
                    } else {
                        proof {
                            lemma_reg_le_total(m, items0[best as int], items0[j as int]);
                        }
                    }
                }
                j = j + 1;
            }
            proof {
                if !found {
                    lemma_all_used_count(used@);
                }
                assert(found);
            }
            let ghost out_before = out@;
            let ghost used_before = used@;
            out.push(self.items[best].clone());
            used.set(best, true);
            proof {
                lemma_count_used_set(used_before, best as int);
                assert(reg_item_like(items0[best as int], out@[out@.len() - 1]));
                if out_before.len() > 0 {
                    assert(reg_le(m, out_before[out_before.len() - 1], items0[best as int]));
                }
                assert forall|k: int|
                    0 <= k && k + 1 < out@.len() implies reg_le(
                    m,
                    #[trigger] out@[k],
                    out@[k + 1],
                ) by {
                    if k + 1 < out@.len() - 1 {
                        assert(out@[k] == out_before[k] && out@[k + 1] == out_before[k + 1]);
                    } else {
                        assert(out@[k] == out_before[out_before.len() - 1]);
                        assert(reg_le(m, out_before[out_before.len() - 1], items0[best as int]));
                        assert(path_changed(m, out@[k + 1].path@) == path_changed(
                            m,
                            items0[best as int].path@,
                        ));
                    }
                }
                assert forall|jj: int|
                    0 <= jj < n && !(#[trigger] used@[jj]) && out@.len() > 0 implies reg_le(
                    m,
                    out@[out@.len() - 1],
                    items0[jj],
                ) by {
                    assert(!used_before[jj]);
                    assert(reg_le(m, items0[best as int], items0[jj]));
                    assert(path_changed(m, out@[out@.len() - 1].path@) == path_changed(
                        m,
                        items0[best as int].path@,
                    ));
                }
                assert forall|jj: int|
                    0 <= jj < n && #[trigger] used@[jj] implies exists|k: int|
                    0 <= k < out@.len() && reg_item_like(items0[jj], #[trigger] out@[k]) by {
                    if jj != best {
                        assert(used_before[jj]);
                        let k0 = choose|k0: int|
                            0 <= k0 < out_before.len() && reg_item_like(
                                items0[jj],
                                #[trigger] out_before[k0],
                            );
                        assert(out@[k0] == out_before[k0]);
                    } else {
                        assert(reg_item_like(items0[jj], out@[out@.len() - 1]));
                    }
                }
            }
        }
        proof {
            assert(count_used(used@) == used@.len());
            lemma_full_count_all_used(used@);
            assert forall|j: int| 0 <= j < items0.len() implies exists|k: int|
                0 <= k < out@.len() && reg_item_like(
                    #[trigger] items0[j],
                    #[trigger] out@[k],
                ) by {
                assert(used@[j]);
            }
        }
        out
    }

    /// Re-sorts the visible list into display order: repositories needing
    /// attention first, then by path; the list keeps exactly its members,
    /// and the cursor is moved back onto the previously focused
    /// repository when it is still visible.
    pub fn sort_items(&mut self)
        ensures
            final(self).status_infos@ == old(self).status_infos@,
            final(self).pull_infos@ == old(self).pull_infos@,
            final(self).filter@ == old(self).filter@,
            final(self).status_lines@ == old(self).status_lines@,
            final(self).log_path == old(self).log_path,
            final(self).log_scroll == old(self).log_scroll,
            final(self).items@.len() == old(self).items@.len(),
            forall|k: int|
                0 <= k && k + 1 < final(self).items@.len() ==> reg_le(
                    old(self).status_infos@,
                    #[trigger] final(self).items@[k],
                    final(self).items@[k + 1],
                ),
            forall|k: int|
                0 <= k < final(self).items@.len() ==> exists|j: int|
                    0 <= j < old(self).items@.len() && reg_item_like(
                        old(self).items@[j],
                        #[trigger] final(self).items@[k],
                    ),
            forall|j: int|
                0 <= j < old(self).items@.len() ==> exists|k: int|
                    0 <= k < final(self).items@.len() && reg_item_like(
                        #[trigger] old(self).items@[j],
                        #[trigger] final(self).items@[k],
                    ),
            ({
                let fm0 = filtered_models(old(self).items@, old(self).filter@);
                let oi = old(self).selected_idx as int;
                if oi < fm0.len() {
                    match first_visible_path(
                        filtered_models(final(self).items@, old(self).filter@),
                        fm0[oi].1@,
                        0,
                    ) {
                        Some(kpos) => final(self).selected_idx == kpos,
                        None => final(self).selected_idx == old(self).selected_idx,
                    }
                } else {
                    final(self).selected_idx == old(self).selected_idx
                }
            }),
    {
        let ghost m = self.status_infos@;
        let ghost items0 = self.items@;
        let sel_path: Option<String> = match self.focus_item() {
            Some(it) => Some(it.path),
            None => None,
        };
        let out = self.sorted_by_attention();
        self.items = out;
        proof {
            assert forall|t: int|
                0 <= t && t + 1 < self.items@.len() implies reg_le(
                m,
                #[trigger] self.items@[t],
                self.items@[t + 1],
            ) by {
                assert(self.items@[t] == out@[t] && self.items@[t + 1] == out@[t + 1]);
            }
            assert forall|t: int|
                0 <= t < self.items@.len() implies exists|j: int|
                0 <= j < items0.len() && reg_item_like(
                    items0[j],
                    #[trigger] self.items@[t],
                ) by {
                assert(self.items@[t] == out@[t]);
            }
            assert forall|j: int| 0 <= j < items0.len() implies exists|t: int|
                0 <= t < self.items@.len() && reg_item_like(
                    #[trigger] items0[j],
                    #[trigger] self.items@[t],
                ) by {
                let t0 = choose|t0: int|
                    0 <= t0 < out@.len() && reg_item_like(items0[j], #[trigger] out@[t0]);
                assert(self.items@[t0] == out@[t0]);
            }
        }
        match sel_path {
            Some(p) => {
                let filtered = self.filtered_items();
                match position_of_path(&filtered, &p) {
                    Some(kpos) => {
                        self.selected_idx = kpos;
                    },
                    None => {
                    },
                }
            },
            None => {
            },
        }
    }

    /// The items that pass the name filter, in display order: every item
    /// for blank filter text, else exactly the subsequence whose names
    /// mention the text, compared without regard to case.
    pub fn filtered_items(&self) -> (r: Vec<RegItem>)
        ensures
            reg_models(r@) == filtered_models(self.items@, self.filter@),
    {
        let t = crate::strutil::trim_str(self.filter.as_str());
        if t.as_str().unicode_len() == 0 {
            let mut r: Vec<RegItem> = Vec::new();
            let mut i: usize = 0;
            while i < self.items.len()
                invariant
                    i <= self.items@.len(),
                    r@.len() == i,
                    forall|k: int|
                        0 <= k < i ==> reg_model(#[trigger] r@[k]) == reg_model(self.items@[k]),
                decreases self.items@.len() - i,
            {
                r.push(self.items[i].clone());
                i = i + 1;
            }
            proof {
                assert(reg_models(r@) =~= reg_models(self.items@));
            }
            return r;
        }
        let ghost items = self.items@;
        let fl = to_lower(self.filter.as_str());
        let mut r: Vec<RegItem> = Vec::new();
        let mut i: usize = 0;
        proof {
            assert(items.subrange(0, 0).len() == 0);
            assert(reg_models(r@) =~= mentioned_models(items.subrange(0, 0), fl@));
        }
        while i < self.items.len()
            invariant
                items == self.items@,
                fl@ == lower_of(self.filter@),
                i <= items.len(),
                reg_models(r@) == mentioned_models(items.subrange(0, i as int), fl@),
            decreases items.len() - i,
        {
            proof {
                assert(items.subrange(0, i + 1).drop_last() =~= items.subrange(0, i as int));
                assert(items.subrange(0, i + 1).last() == items[i as int]);
            }
            let it = &self.items[i];
            let mut j: usize = 0;
            let mut matched: bool = false;
            while j < it.names.len()
                invariant
                    items == self.items@,
                    fl@ == lower_of(self.filter@),
                    i < items.len(),
                    it == &self.items[i as int],
                    j <= it.names@.len(),
                    matched ==> crate::registry::name_mentions(items[i as int], fl@),
                    !matched ==> forall|k: int|
                        0 <= k < j ==> !contains_sub(lower_of(#[trigger] it.names@[k]@), fl@),
                decreases it.names@.len() - j,
            {
                let ln = to_lower(it.names[j].as_str());
                if str_contains(ln.as_str(), fl.as_str()) {
                    matched = true;
                    proof {
                        assert(contains_sub(lower_of(it.names@[j as int]@), fl@));
                    }
                }
                j = j + 1;
            }
            if matched {
                let ghost before = r@;
                r.push(self.items[i].clone());
                proof {
                    assert(reg_model(r@[r@.len() - 1]) == reg_model(items[i as int]));
                    assert(reg_models(r@) =~= reg_models(before).push(reg_model(items[i as int])));
                    assert(reg_models(r@) =~= mentioned_models(items.subrange(0, i + 1), fl@));
                }
            } else {
                proof {
                    assert(!crate::registry::name_mentions(items[i as int], fl@));
                    assert(reg_models(r@) =~= mentioned_models(items.subrange(0, i + 1), fl@));
                }
            }
            i = i + 1;
        }
        proof {
            assert(items.subrange(0, items.len() as int) =~= items);
        }
        r
    }

    /// The selected visible item, if the cursor is on one.
    pub fn focus_item(&self) -> (r: Option<RegItem>)
        ensures
            ({
                let fm = filtered_models(self.items@, self.filter@);
                if self.selected_idx < fm.len() {
                    r is Some && reg_model(r->0) == fm[self.selected_idx as int]
                } else {
                    r is None
                }
            }),
    {
        let filtered = self.filtered_items();
        proof {
            assert(filtered@.len() == filtered_models(self.items@, self.filter@).len());
        }
        if self.selected_idx < filtered.len() {
            let it = filtered[self.selected_idx].clone();
            proof {
                assert(reg_model(it) == reg_models(filtered@)[self.selected_idx as int]);
            }
            Some(it)
        } else {
            None
        }
    }

    /// Moves the cursor to `idx`, clamped into the visible list; when the
    /// focused repository changed, the detail panel is cleared, the log
    /// path follows the new selection and its scroll resets.
    pub fn select_at(&mut self, idx: usize)
        ensures
            final(self).items@ == old(self).items@,
            final(self).status_infos@ == old(self).status_infos@,
            final(self).pull_infos@ == old(self).pull_infos@,
            final(self).filter@ == old(self).filter@,
            ({
                let fm = filtered_models(old(self).items@, old(self).filter@);
                if fm.len() == 0 {
                    &&& final(self).selected_idx == 0
                    &&& final(self).status_lines@.len() == 0
                    &&& final(self).log_path == old(self).log_path
                    &&& final(self).log_scroll == old(self).log_scroll
                } else {
                    let ni = if idx < fm.len() {
                        idx as int
                    } else {
                        fm.len() - 1
                    };
                    let oi = old(self).selected_idx as int;
                    let moved = !(oi < fm.len() && fm[oi].1@ == fm[ni].1@);
                    &&& final(self).selected_idx == ni
                    &&& (moved ==> final(self).status_lines@.len() == 0
                        && final(self).log_path is Some
                        && final(self).log_path->0@ == fm[ni].1@
                        && final(self).log_scroll == 0)
                    &&& (!moved ==> final(self).status_lines@ == old(self).status_lines@
                        && final(self).log_path == old(self).log_path
                        && final(self).log_scroll == old(self).log_scroll)
                }
            }),
    {
        let ghost fm = filtered_models(self.items@, self.filter@);
        let len = self.filtered_items().len();
        if len == 0 {
            self.selected_idx = 0;
            self.status_lines = Vec::new();
            return ;
        }
        let new_idx: usize = if idx < len {
            idx
        } else {
            len - 1
        };
        let old_path = match self.focus_item() {
            Some(it) => Some(it.path),
            None => None,
        };
        self.selected_idx = new_idx;
        let new_path = match self.focus_item() {
            Some(it) => Some(it.path),
            None => None,
        };
        proof {
            assert(new_path is Some && new_path->0@ == fm[new_idx as int].1@);
        }
        let moved: bool = match (&old_path, &new_path) {
            (Some(a), Some(b)) => !str_eq(a.as_str(), b.as_str()),
            (None, Some(_)) => true,
            (Some(_), None) => true,
            (None, None) => false,
        };
        if moved {
            self.status_lines = Vec::new();
            self.log_path = new_path;
            self.log_scroll = 0;
        }
    }

    /// Moves the cursor one row down.
    pub fn next(&mut self)
        ensures
            final(self).items@ == old(self).items@,
            final(self).status_infos@ == old(self).status_infos@,
            final(self).pull_infos@ == old(self).pull_infos@,
            final(self).filter@ == old(self).filter@,
    {
        if self.selected_idx < usize::MAX {
            self.select_at(self.selected_idx + 1);
        }
    }

    /// Moves the cursor one row up.
    pub fn prev(&mut self)
        ensures
            final(self).items@ == old(self).items@,
            final(self).status_infos@ == old(self).status_infos@,
            final(self).pull_infos@ == old(self).pull_infos@,
            final(self).filter@ == old(self).filter@,
    {
        if self.selected_idx > 0 {
            self.select_at(self.selected_idx - 1);
        } else {
            self.select_at(0);
        }
    }

    /// Applies a batch of health events: each reported record replaces or
    /// creates the record at its path; the list is re-sorted into display
    /// order exactly when some reported record actually changed a value.
    pub fn drain_status_events(&mut self, events: Vec<StatusEvent>)
        ensures
            final(self).status_infos@ == status_after(old(self).status_infos@, events@),
            final(self).pull_infos@ == old(self).pull_infos@,
            final(self).filter@ == old(self).filter@,
            final(self).status_lines@ == old(self).status_lines@,
            final(self).items@.len() == old(self).items@.len(),
            !any_status_change(old(self).status_infos@, events@) ==> final(self).items@ == old(
                self,
            ).items@ && final(self).selected_idx == old(self).selected_idx,
            any_status_change(old(self).status_infos@, events@) ==> (forall|k: int|
                0 <= k && k + 1 < final(self).items@.len() ==> reg_le(
                    status_after(old(self).status_infos@, events@),
                    #[trigger] final(self).items@[k],
                    final(self).items@[k + 1],
                )),
            any_status_change(old(self).status_infos@, events@) ==> (forall|k: int|
                0 <= k < final(self).items@.len() ==> exists|j: int|
                    0 <= j < old(self).items@.len() && reg_item_like(
                        old(self).items@[j],
                        #[trigger] final(self).items@[k],
                    )),
            any_status_change(old(self).status_infos@, events@) ==> (forall|j: int|
                0 <= j < old(self).items@.len() ==> exists|k: int|
                    0 <= k < final(self).items@.len() && reg_item_like(
                        #[trigger] old(self).items@[j],
                        #[trigger] final(self).items@[k],
                    )),
    {
        let ghost evs = events@;
        let ghost m0 = self.status_infos@;
        let mut changed: bool = false;
        let mut k: usize = 0;
        proof {
            assert(evs.subrange(0, evs.len() as int) =~= evs);
            assert(status_after(m0, evs.subrange(0, 0)) == m0);
            assert(any_status_change(m0, evs.subrange(0, 0)) == false);
        }
        let events_len: usize = events.len();
        let mut rest = events;
        while k < events_len
            invariant
                evs.len() == events_len,
                rest@ == evs.subrange(k as int, evs.len() as int),
                k <= evs.len(),
                m0 == old(self).status_infos@,
                self.status_infos@ == status_after(m0, evs.subrange(0, k as int)),
                changed == any_status_change(m0, evs.subrange(0, k as int)),
                self.pull_infos@ == old(self).pull_infos@,
                self.items@ == old(self).items@,
                self.selected_idx == old(self).selected_idx,
                self.status_lines@ == old(self).status_lines@,
                self.filter@ == old(self).filter@,
            decreases events_len - k,
        {
            proof {
                assert(rest@[0] == evs[k as int]);
            }
            let ev = rest.remove(0);
            proof {
                assert(rest@ =~= evs.subrange(k + 1, evs.len() as int));
            }
            match ev.info {
                Some(info) => {
                    let step_changed = upsert_status(&mut self.status_infos, ev.path, info);
                    proof {
                        lemma_status_after_snoc(m0, evs, k as int);
                        lemma_any_change_snoc(m0, evs, k as int);
                        assert(step_changed == step_changes(
                            status_after(m0, evs.subrange(0, k as int)),
                            evs[k as int],
                        ));
                    }
                    if step_changed {
                        changed = true;
                    }
                },
                None => {
                    proof {
                        lemma_status_after_snoc(m0, evs, k as int);
                        lemma_any_change_snoc(m0, evs, k as int);
                    }
                },
            }
            k = k + 1;
        }
        proof {
            assert(evs.subrange(0, evs.len() as int) =~= evs);
        }
        if changed {
            self.sort_items();
        }
    }

    /// Replaces the detail panel content exactly when the detail belongs
    /// to the repository the cursor is on.
    pub fn drain_detail(&mut self, path: &str, lines: Vec<String>)
        ensures
            final(self).items@ == old(self).items@,
            final(self).status_infos@ == old(self).status_infos@,
            final(self).pull_infos@ == old(self).pull_infos@,
            final(self).selected_idx == old(self).selected_idx,
            final(self).filter@ == old(self).filter@,
            final(self).log_path == old(self).log_path,
            final(self).log_scroll == old(self).log_scroll,
            ({
                let fm = filtered_models(old(self).items@, old(self).filter@);
                let oi = old(self).selected_idx as int;
                let keep = oi < fm.len() && fm[oi].1@ == path@;
                &&& (keep ==> final(self).status_lines@ == lines@)
                &&& (!keep ==> final(self).status_lines@ == old(self).status_lines@)
            }),
    {
        let keep: bool = match self.focus_item() {
            Some(it) => str_eq(it.path.as_str(), path),
            None => false,
        };
        if keep {
            self.status_lines = lines;
        }
    }
}

/// How many flags are set.
pub open spec fn count_used(used: Seq<bool>) -> int
    decreases used.len(),
{
    if used.len() == 0 {
        0
    } else {
        count_used(used.drop_last()) + if used.last() {
            1int
        } else {
            0int
        }
    }
}

proof fn lemma_count_used_bound(used: Seq<bool>)
    ensures
        0 <= count_used(used) <= used.len(),
    decreases used.len(),
{
    if used.len() > 0 {
        lemma_count_used_bound(used.drop_last());
    }
}

proof fn lemma_unused_exists(used: Seq<bool>)
    requires
        count_used(used) < used.len(),
    ensures
        exists|j: int| 0 <= j < used.len() && !(#[trigger] used[j]),
    decreases used.len(),
{
    if used.len() > 0 {
        if !used.last() {
            assert(!used[used.len() - 1]);
        } else {
            lemma_unused_exists(used.drop_last());
            let j = choose|j: int| 0 <= j < used.drop_last().len() && !(#[trigger] used.drop_last()[j]);
            assert(!used[j]);
        }
    }
}

proof fn lemma_all_used_count(used: Seq<bool>)
    requires
        forall|j: int| 0 <= j < used.len() ==> #[trigger] used[j],
    ensures
        count_used(used) == used.len(),
    decreases used.len(),
{
    if used.len() > 0 {
        assert(forall|j: int|
            0 <= j < used.drop_last().len() ==> #[trigger] used.drop_last()[j]);
        lemma_all_used_count(used.drop_last());
    }
}

proof fn lemma_count_used_set(used: Seq<bool>, i: int)
    requires
        0 <= i < used.len(),
        !used[i],
    ensures
        count_used(used.update(i, true)) == count_used(used) + 1,
    decreases used.len(),
{
    if i == used.len() - 1 {
        assert(used.update(i, true).drop_last() =~= used.drop_last());
        assert(used.update(i, true).last());
        assert(!used.last());
        assert(count_used(used.update(i, true)) == count_used(used.drop_last()) + 1);
        assert(count_used(used) == count_used(used.drop_last()));
    } else {
        assert(used.update(i, true).drop_last() =~= used.drop_last().update(i, true));
        lemma_count_used_set(used.drop_last(), i);
        assert(used.update(i, true).last() == used.last());
        assert(count_used(used.update(i, true)) == count_used(used.drop_last().update(i, true))
            + if used.last() { 1int } else { 0int });
        assert(count_used(used) == count_used(used.drop_last()) + if used.last() {
            1int
        } else {
            0int
        });
    }
}

/// The position of the first row whose path reads `p`.
fn position_of_path(filtered: &Vec<RegItem>, p: &String) -> (r: Option<usize>)
    ensures
        match r {
            Some(k) => first_visible_path(reg_models(filtered@), p@, 0) == Some(k as int),
            None => first_visible_path(reg_models(filtered@), p@, 0) is None,
        },
{
    let ghost ms = reg_models(filtered@);
    let mut k: usize = 0;
    while k < filtered.len()
        invariant
            ms == reg_models(filtered@),
            ms.len() == filtered@.len(),
            k <= ms.len(),
            first_visible_path(ms, p@, 0) == first_visible_path(ms, p@, k as int),
        decreases ms.len() - k,
    {
        if str_eq(filtered[k].path.as_str(), p.as_str()) {
            proof {
                assert(ms[k as int].1@ == p@);
                assert(first_visible_path(ms, p@, k as int) == Some(k as int));
            }
            return Some(k);
        }
        proof {
            assert(ms[k as int].1@ != p@);
        }
        k = k + 1;
    }
    None
}

/// Replaces the record at the event's path, or appends one when the path
/// had none; reports whether the stored data actually changed.
fn upsert_status(
    infos: &mut Vec<(String, RepoStatusInfo)>,
    path: String,
    info: RepoStatusInfo,
) -> (changed: bool)
    ensures
        assoc_find(old(infos)@, path@, 0) is Some ==> final(infos)@ == old(infos)@.update(
            assoc_find(old(infos)@, path@, 0)->Some_0,
            (path, info),
        ),
        assoc_find(old(infos)@, path@, 0) is None ==> final(infos)@ == old(infos)@.push(
            (path, info),
        ),
        changed == match assoc_find(old(infos)@, path@, 0) {
            None => true,
            Some(i) => info_model(old(infos)@[i].1) != info_model(info),
        },
{
    let ghost m = infos@;
    let mut i: usize = 0;
    while i < infos.len()
        invariant
            m == infos@,
            m == old(infos)@,
            i <= m.len(),
            assoc_find(m, path@, 0) == assoc_find(m, path@, i as int),
        decreases m.len() - i,
    {
        if str_eq(infos[i].0.as_str(), path.as_str()) {
            proof {
                assert(assoc_find(m, path@, i as int) == Some(i as int));
            }
            let stored = &infos[i].1;
            let same: bool = str_eq(stored.branch.as_str(), info.branch.as_str()) && str_eq(
                stored.upstream.as_str(),
                info.upstream.as_str(),
            ) && stored.dirty == info.dirty && stored.ahead == info.ahead && stored.behind
                == info.behind;
            proof {
                assert(same == (info_model(m[i as int].1) == info_model(info)));
            }
            infos.set(i, (path, info));
            proof {
                assert(assoc_find(m, path@, 0) == Some(i as int));
                assert(infos@ =~= m.update(i as int, (path, info)));
            }
            return !same;
        }
        i = i + 1;
    }
    proof {
        assert(assoc_find(m, path@, m.len() as int) is None);
        assert(assoc_find(m, path@, 0) is None);
    }
    infos.push((path, info));
    proof {
        assert(infos@ =~= m.push((path, info)));
    }
    true
}

proof fn lemma_none_used_count(used: Seq<bool>)
    requires
        forall|j: int| 0 <= j < used.len() ==> !(#[trigger] used[j]),
    ensures
        count_used(used) == 0,
    decreases used.len(),
{
    if used.len() > 0 {
        assert(forall|j: int|
            0 <= j < used.drop_last().len() ==> !(#[trigger] used.drop_last()[j]));
        lemma_none_used_count(used.drop_last());
    }
}

proof fn lemma_full_count_all_used(used: Seq<bool>)
    requires
        count_used(used) == used.len(),
    ensures
        forall|j: int| 0 <= j < used.len() ==> #[trigger] used[j],
    decreases used.len(),
{
    if used.len() > 0 {
        lemma_count_used_bound(used.drop_last());
        assert(count_used(used.drop_last()) == used.len() - 1);
        lemma_full_count_all_used(used.drop_last());
        assert(used.last());
        assert forall|j: int| 0 <= j < used.len() implies #[trigger] used[j] by {
            if j < used.len() - 1 {
                assert(used.drop_last()[j]);
            }
        }
    }
}

proof fn lemma_any_change_snoc(m: Seq<(String, RepoStatusInfo)>, evs: Seq<StatusEvent>, k: int)
    requires
        0 <= k < evs.len(),
    ensures
        any_status_change(m, evs.subrange(0, k + 1)) == (any_status_change(m, evs.subrange(0, k))
            || step_changes(status_after(m, evs.subrange(0, k)), evs[k])),
    decreases k,
{
    let pre = evs.subrange(0, k + 1);
    if k == 0 {
        assert(pre[0] == evs[0]);
        assert(pre.subrange(1, pre.len() as int).len() == 0);
        assert(evs.subrange(0, 0).len() == 0);
        assert(any_status_change(m, evs.subrange(0, 0)) == false);
        assert(status_after(m, evs.subrange(0, 0)) == m);
        assert(any_status_change(status_step(m, evs[0]), pre.subrange(1, pre.len() as int))
            == false);
        assert(any_status_change(m, pre) == step_changes(m, evs[0]));
    } else {
        assert(pre[0] == evs[0]);
        let m2 = status_step(m, evs[0]);
        let shifted = evs.subrange(1, evs.len() as int);
        assert(pre.subrange(1, pre.len() as int) =~= shifted.subrange(0, k));
        lemma_any_change_snoc(m2, shifted, k - 1);
        lemma_status_after_snoc(m, evs, k);
        assert(shifted[k - 1] == evs[k]);
        assert(any_status_change(m, pre) == (step_changes(m, evs[0]) || any_status_change(
            m2,
            shifted.subrange(0, k),
        )));
        assert(any_status_change(m, evs.subrange(0, k)) == (step_changes(m, evs[0])
            || any_status_change(m2, shifted.subrange(0, k - 1)))) by {
            assert(evs.subrange(0, k)[0] == evs[0]);
            assert(evs.subrange(0, k).subrange(1, k) =~= shifted.subrange(0, k - 1));
        }
        assert(status_after(m, evs.subrange(0, k)) == status_after(
            m2,
            shifted.subrange(0, k - 1),
        )) by {
            assert(evs.subrange(0, k)[0] == evs[0]);
            assert(evs.subrange(0, k).subrange(1, k) =~= shifted.subrange(0, k - 1));
        }
    }
}

proof fn lemma_status_after_snoc(m: Seq<(String, RepoStatusInfo)>, evs: Seq<StatusEvent>, k: int)
    requires
        0 <= k < evs.len(),
    ensures
        status_after(m, evs.subrange(0, k + 1)) == status_step(
            status_after(m, evs.subrange(0, k)),
            evs[k],
        ),
    decreases k,
{
    let pre = evs.subrange(0, k + 1);
    if k == 0 {
        assert(pre[0] == evs[0]);
        assert(pre.subrange(1, pre.len() as int) =~= evs.subrange(0, 0).subrange(0, 0));
        assert(evs.subrange(0, 0).len() == 0);
        assert(status_after(m, evs.subrange(0, 0)) == m);
        assert(status_after(m, pre) == status_after(
            status_step(m, evs[0]),
            pre.subrange(1, pre.len() as int),
        ));
        assert(pre.subrange(1, pre.len() as int).len() == 0);
    } else {
        assert(pre[0] == evs[0]);
        let m2 = status_step(m, evs[0]);
        let shifted = evs.subrange(1, evs.len() as int);
        assert(pre.subrange(1, pre.len() as int) =~= shifted.subrange(0, k));
        assert(evs.subrange(0, k).subrange(1, k) =~= shifted.subrange(0, k - 1));
        lemma_status_after_snoc(m2, shifted, k - 1);
        assert(shifted[k - 1] == evs[k]);
        assert(status_after(m, pre) == status_after(m2, shifted.subrange(0, k)));
        assert(status_after(m, evs.subrange(0, k)) == status_after(
            m2,
            shifted.subrange(0, k - 1),
        )) by {
            assert(evs.subrange(0, k)[0] == evs[0]);
        }
    }
}


/// The state of one pull record, over plain values.
pub ghost enum PullStateModel {
    Pending,
    Running,
    Done { code: int, message: Option<Seq<char>> },
}

/// The model of a pull status value.
pub open spec fn status_model(st: PullStatus) -> PullStateModel {
    match st {
        PullStatus::Pending => PullStateModel::Pending,
        PullStatus::Running => PullStateModel::Running,
        PullStatus::Done { code, message } => PullStateModel::Done {
            code: code as int,
            message: match message {
                Some(msg) => Some(msg@),
                None => None,
            },
        },
    }
}

/// The model of the pull records: for each path, the task state and the
/// captured log lines.
pub open spec fn pull_model(m: Seq<(String, RepoPullInfo)>) -> Seq<
    (Seq<char>, PullStateModel, Seq<Seq<char>>),
> {
    m.map_values(
        |e: (String, RepoPullInfo)| (e.0@, status_model(e.1.status), e.1.log.deep_view()),
    )
}

/// The index of the first model record for `path`, if any.
pub open spec fn model_find(
    mm: Seq<(Seq<char>, PullStateModel, Seq<Seq<char>>)>,
    path: Seq<char>,
    i: int,
) -> Option<int>
    decreases mm.len() - i,
{
    if i < 0 || i >= mm.len() {
        None
    } else if mm[i].0 == path {
        Some(i)
    } else {
        model_find(mm, path, i + 1)
    }
}

/// Whether a new pull may start at a path in this record state: only
/// when nothing is pending or running there.
pub open spec fn model_may_start(
    mm: Seq<(Seq<char>, PullStateModel, Seq<Seq<char>>)>,
    path: Seq<char>,
) -> bool {
    match model_find(mm, path, 0) {
        Some(i) => !(mm[i].1 is Pending || mm[i].1 is Running),
        None => true,
    }
}

/// The record state after admitting a path: its record becomes a fresh
/// pending one.
pub open spec fn model_admit(
    mm: Seq<(Seq<char>, PullStateModel, Seq<Seq<char>>)>,
    path: Seq<char>,
) -> Seq<(Seq<char>, PullStateModel, Seq<Seq<char>>)> {
    match model_find(mm, path, 0) {
        Some(i) => mm.update(i, (path, PullStateModel::Pending, Seq::empty())),
        None => mm.push((path, PullStateModel::Pending, Seq::empty())),
    }
}

/// The records and started paths after offering the targets, in order:
/// a target is admitted exactly when nothing is pending or running at
/// its path, so a path already in flight is offered in vain.
pub open spec fn start_fold(
    mm: Seq<(Seq<char>, PullStateModel, Seq<Seq<char>>)>,
    targets: Seq<RegItem>,
) -> (Seq<(Seq<char>, PullStateModel, Seq<Seq<char>>)>, Seq<Seq<char>>)
    decreases targets.len(),
{
    if targets.len() == 0 {
        (mm, Seq::empty())
    } else {
        let p = targets[0].path@;
        let rest = targets.subrange(1, targets.len() as int);
        if model_may_start(mm, p) {
            let (mm2, started2) = start_fold(model_admit(mm, p), rest);
            (mm2, seq![p] + started2)
        } else {
            start_fold(mm, rest)
        }
    }
}

proof fn lemma_model_find_update_samekey(
    mm: Seq<(Seq<char>, PullStateModel, Seq<Seq<char>>)>,
    i: int,
    v: (Seq<char>, PullStateModel, Seq<Seq<char>>),
    q: Seq<char>,
    j: int,
)
    requires
        0 <= i < mm.len(),
        v.0 == mm[i].0,
        0 <= j,
    ensures
        model_find(mm.update(i, v), q, j) == model_find(mm, q, j),
    decreases mm.len() - j,
{
    if j < mm.len() {
        assert(mm.update(i, v)[j].0 == mm[j].0);
        lemma_model_find_update_samekey(mm, i, v, q, j + 1);
    }
}

proof fn lemma_model_find_push(
    mm: Seq<(Seq<char>, PullStateModel, Seq<Seq<char>>)>,
    v: (Seq<char>, PullStateModel, Seq<Seq<char>>),
    q: Seq<char>,
    j: int,
)
    requires
        0 <= j <= mm.len(),
    ensures
        model_find(mm.push(v), q, j) == match model_find(mm, q, j) {
            Some(i) => Some(i),
            None => if v.0 == q {
                Some(mm.len() as int)
            } else {
                None
            },
        },
    decreases mm.len() - j,
{
    if j < mm.len() {
        assert(mm.push(v)[j].0 == mm[j].0);
        lemma_model_find_push(mm, v, q, j + 1);
    } else {
        assert(mm.push(v)[j].0 == v.0);
        if v.0 != q {
            assert(model_find(mm.push(v), q, j + 1) is None);
        }
    }
}

/// After admitting `path`, that path holds a fresh pending record and
/// every other path's record is unchanged.
pub proof fn lemma_admit_lookup(
    mm: Seq<(Seq<char>, PullStateModel, Seq<Seq<char>>)>,
    path: Seq<char>,
    q: Seq<char>,
)
    ensures
        q == path ==> match model_find(model_admit(mm, path), q, 0) {
            Some(i) => model_admit(mm, path)[i].1 is Pending,
            None => false,
        },
        q != path ==> model_find(model_admit(mm, path), q, 0) == model_find(mm, q, 0) && (match
            model_find(mm, q, 0) {
            Some(i) => model_admit(mm, path)[i] == mm[i],
            None => true,
        }),
{
    let v = (path, PullStateModel::Pending, Seq::<Seq<char>>::empty());
    match model_find(mm, path, 0) {
        Some(i) => {
            lemma_model_find_some_props(mm, path, 0);
            lemma_model_find_update_samekey(mm, i, v, q, 0);
            if q != path {
                match model_find(mm, q, 0) {
                    Some(t) => {
                        lemma_model_find_some_props(mm, q, 0);
                        assert(mm[t].0 == q);
                        assert(t != i);
                        assert(model_admit(mm, path)[t] == mm[t]);
                    },
                    None => {
                    },
                }
            } else {
                assert(model_admit(mm, path)[i].1 is Pending);
            }
        },
        None => {
            lemma_model_find_push(mm, v, q, 0);
            if q == path {
                lemma_model_find_none_props(mm, path, 0);
                assert(model_find(mm, path, 0) is None);
                assert(model_find(model_admit(mm, path), q, 0) == Some(mm.len() as int));
                assert(model_admit(mm, path)[mm.len() as int].1 is Pending);
            } else {
                match model_find(mm, q, 0) {
                    Some(t) => {
                        lemma_model_find_some_props(mm, q, 0);
                        assert(model_admit(mm, path)[t] == mm[t]);
                    },
                    None => {
                    },
                }
            }
        },
    }
}

proof fn lemma_model_find_some_props(
    mm: Seq<(Seq<char>, PullStateModel, Seq<Seq<char>>)>,
    q: Seq<char>,
    j: int,
)
    requires
        model_find(mm, q, j) is Some,
    ensures
        j <= model_find(mm, q, j)->Some_0 < mm.len(),
        mm[model_find(mm, q, j)->Some_0].0 == q,
    decreases mm.len() - j,
{
    if j < 0 || j >= mm.len() {
    } else if mm[j].0 == q {
    } else {
        lemma_model_find_some_props(mm, q, j + 1);
    }
}

proof fn lemma_model_find_none_props(
    mm: Seq<(Seq<char>, PullStateModel, Seq<Seq<char>>)>,
    q: Seq<char>,
    j: int,
)
    requires
        model_find(mm, q, j) is None,
        0 <= j,
    ensures
        forall|t: int| j <= t < mm.len() ==> (#[trigger] mm[t]).0 != q,
    decreases mm.len() - j,
{
    if j < mm.len() {
        lemma_model_find_none_props(mm, q, j + 1);
    }
}

/// Offering the same path twice in one batch admits it once: every
/// admitted path is distinct, because an admitted path is pending until
/// its worker finishes, and a pending path is never admitted again.
pub proof fn lemma_start_fold_distinct(
    mm: Seq<(Seq<char>, PullStateModel, Seq<Seq<char>>)>,
    targets: Seq<RegItem>,
)
    ensures
        forall|a: int, b: int|
            0 <= a < b < start_fold(mm, targets).1.len() ==> #[trigger] start_fold(
                mm,
                targets,
            ).1[a] != #[trigger] start_fold(mm, targets).1[b],
        forall|a: int|
            0 <= a < start_fold(mm, targets).1.len() ==> match model_find(
                start_fold(mm, targets).0,
                #[trigger] start_fold(mm, targets).1[a],
                0,
            ) {
                Some(i) => start_fold(mm, targets).0[i].1 is Pending,
                None => false,
            },
    decreases targets.len(),
{
    if targets.len() == 0 {
    } else {
        let p = targets[0].path@;
        let rest = targets.subrange(1, targets.len() as int);
        if model_may_start(mm, p) {
            let mm1 = model_admit(mm, p);
            lemma_start_fold_distinct(mm1, rest);
            let (mm2, started2) = start_fold(mm1, rest);
            let started = start_fold(mm, targets).1;
            assert(started =~= seq![p] + started2);
            lemma_admit_lookup(mm, p, p);
            lemma_start_fold_keeps_pending(mm1, rest, p);
            assert forall|a: int|
                0 <= a < started.len() implies match model_find(mm2, #[trigger] started[a], 0) {
                Some(i) => mm2[i].1 is Pending,
                None => false,
            } by {
                if a > 0 {
                    assert(started[a] == started2[a - 1]);
                }
            }
            assert forall|a: int, b: int|
                0 <= a < b < started.len() implies #[trigger] started[a]
                != #[trigger] started[b] by {
                if a == 0 {
                    assert(started[b] == started2[b - 1]);
                    lemma_started_not_pending_at_entry(mm1, rest, p);
                } else {
                    assert(started[a] == started2[a - 1]);
                    assert(started[b] == started2[b - 1]);
                }
            }
        } else {
            lemma_start_fold_distinct(mm, rest);
            assert(start_fold(mm, targets).1 =~= start_fold(mm, rest).1);
            assert(start_fold(mm, targets).0 =~= start_fold(mm, rest).0);
        }
    }
}

/// A path that is pending when the batch continues stays pending through
/// the rest of the batch.
proof fn lemma_start_fold_keeps_pending(
    mm: Seq<(Seq<char>, PullStateModel, Seq<Seq<char>>)>,
    targets: Seq<RegItem>,
    p: Seq<char>,
)
    requires
        match model_find(mm, p, 0) {
            Some(i) => mm[i].1 is Pending,
            None => false,
        },
    ensures
        match model_find(start_fold(mm, targets).0, p, 0) {
            Some(i) => start_fold(mm, targets).0[i].1 is Pending,
            None => false,
        },
    decreases targets.len(),
{
    if targets.len() > 0 {
        let q = targets[0].path@;
        let rest = targets.subrange(1, targets.len() as int);
        if model_may_start(mm, q) {
            assert(q != p);
            lemma_admit_lookup(mm, q, p);
            lemma_start_fold_keeps_pending(model_admit(mm, q), rest, p);
        } else {
            lemma_start_fold_keeps_pending(mm, rest, p);
        }
    }
}

/// A path that is pending at the start of a batch is never among the
/// paths the batch admits.
proof fn lemma_started_not_pending_at_entry(
    mm: Seq<(Seq<char>, PullStateModel, Seq<Seq<char>>)>,
    targets: Seq<RegItem>,
    p: Seq<char>,
)
    requires
        match model_find(mm, p, 0) {
            Some(i) => mm[i].1 is Pending,
            None => false,
        },
    ensures
        forall|a: int|
            0 <= a < start_fold(mm, targets).1.len() ==> #[trigger] start_fold(
                mm,
                targets,
            ).1[a] != p,
    decreases targets.len(),
{
    if targets.len() > 0 {
        let q = targets[0].path@;
        let rest = targets.subrange(1, targets.len() as int);
        let started = start_fold(mm, targets).1;
        if model_may_start(mm, q) {
            assert(q != p);
            lemma_admit_lookup(mm, q, p);
            lemma_started_not_pending_at_entry(model_admit(mm, q), rest, p);
            assert(started =~= seq![q] + start_fold(model_admit(mm, q), rest).1);
            assert forall|a: int| 0 <= a < started.len() implies #[trigger] started[a] != p by {
                if a > 0 {
                    assert(started[a] == start_fold(model_admit(mm, q), rest).1[a - 1]);
                }
            }
        } else {
            lemma_started_not_pending_at_entry(mm, rest, p);
            assert(started =~= start_fold(mm, rest).1);
        }
    }
}

impl RegListCtrl {
    /// Admits pull tasks for the targets: a target is recorded as pending
    /// and handed back to be started exactly when nothing is pending or
    /// running at its path, so resubmitting a path in flight is a no-op.
    /// The paths handed back are therefore distinct. The caller runs one
    /// worker per returned path, bounded by the write semaphore, with the
    /// given rebase flag.
    pub fn start_pull(&mut self, targets: &Vec<RegItem>, is_rebase: bool) -> (started: Vec<String>)
        ensures
            pull_model(final(self).pull_infos@) == start_fold(
                pull_model(old(self).pull_infos@),
                targets@,
            ).0,
            started.deep_view() == start_fold(pull_model(old(self).pull_infos@), targets@).1,
            final(self).pull_total as int == if old(self).pull_total + started.deep_view().len()
                <= usize::MAX {
                old(self).pull_total + started.deep_view().len()
            } else {
                usize::MAX as int
            },
            final(self).status_infos@ == old(self).status_infos@,
            final(self).items@ == old(self).items@,
            forall|a: int, b: int|
                0 <= a < b < started.deep_view().len() ==> started.deep_view()[a]
                    != started.deep_view()[b],
    {
        let ghost mm0 = pull_model(self.pull_infos@);
        let ghost tgts = targets@;
        let mut started: Vec<String> = Vec::new();
        let mut k: usize = 0;
        proof {
            assert(tgts.subrange(0, tgts.len() as int) =~= tgts);
            lemma_start_fold_distinct(mm0, tgts);
        }
        while k < targets.len()
            invariant
                tgts == targets@,
                k <= tgts.len(),
                self.status_infos@ == old(self).status_infos@,
                self.items@ == old(self).items@,
                self.filter@ == old(self).filter@,
                self.pull_total as int == if old(self).pull_total + started.deep_view().len()
                    <= usize::MAX {
                    old(self).pull_total + started.deep_view().len()
                } else {
                    usize::MAX as int
                },
                start_fold(mm0, tgts) == ({
                    let (mm2, started2) = start_fold(
                        pull_model(self.pull_infos@),
                        tgts.subrange(k as int, tgts.len() as int),
                    );
                    (mm2, started.deep_view() + started2)
                }),
            decreases tgts.len() - k,
        {
            let ghost mm_cur = pull_model(self.pull_infos@);
            let ghost rest = tgts.subrange(k as int, tgts.len() as int);
            proof {
                assert(rest[0] == tgts[k as int]);
                assert(rest.subrange(1, rest.len() as int) =~= tgts.subrange(
                    k + 1,
                    tgts.len() as int,
                ));
            }
            let path: &String = &targets[k].path;
            let blocked: bool = !may_start_exec(&self.pull_infos, path);
            if !blocked {
                if self.pull_total < usize::MAX {
                    self.pull_total = self.pull_total + 1;
                }
                let fresh = RepoPullInfo { status: PullStatus::Pending, log: Vec::new() };
                proof {
                    assert(fresh.log.deep_view() =~= Seq::<Seq<char>>::empty());
                }
                upsert_pull(&mut self.pull_infos, path.clone(), fresh);
                started.push(path.clone());
                proof {
                    assert(pull_model(self.pull_infos@) =~= model_admit(mm_cur, path@));
                    assert(started.deep_view() =~= started.deep_view().drop_last().push(
                        path@,
                    ));
                    assert(start_fold(mm_cur, rest).1 =~= seq![path@] + start_fold(
                        model_admit(mm_cur, path@),
                        rest.subrange(1, rest.len() as int),
                    ).1);
                }
            } else {
                proof {
                    assert(start_fold(mm_cur, rest) == start_fold(
                        mm_cur,
                        rest.subrange(1, rest.len() as int),
                    ));
                }
            }
            k = k + 1;
        }
        proof {
            assert(tgts.subrange(k as int, tgts.len() as int).len() == 0);
            assert(started.deep_view() + Seq::<Seq<char>>::empty() =~= started.deep_view());
        }
        started
    }
}

/// Whether a pull may start at `path`: nothing is pending or running
/// there.
fn may_start_exec(infos: &Vec<(String, RepoPullInfo)>, path: &String) -> (r: bool)
    ensures
        r == model_may_start(pull_model(infos@), path@),
{
    let ghost mm = pull_model(infos@);
    let mut i: usize = 0;
    while i < infos.len()
        invariant
            mm == pull_model(infos@),
            mm.len() == infos@.len(),
            i <= mm.len(),
            model_find(mm, path@, 0) == model_find(mm, path@, i as int),
        decreases mm.len() - i,
    {
        if str_eq(infos[i].0.as_str(), path.as_str()) {
            proof {
                assert(mm[i as int].0 == path@);
                assert(model_find(mm, path@, i as int) == Some(i as int));
            }
            let free: bool = match infos[i].1.status {
                PullStatus::Pending => false,
                PullStatus::Running => false,
                PullStatus::Done { .. } => true,
            };
            proof {
                assert(free == !(mm[i as int].1 is Pending || mm[i as int].1 is Running));
            }
            return free;
        }
        proof {
            assert(mm[i as int].0 != path@);
        }
        i = i + 1;
    }
    proof {
        assert(model_find(mm, path@, mm.len() as int) is None);
    }
    true
}

/// Replaces the pull record at the path, or appends one when the path
/// had none.
fn upsert_pull(infos: &mut Vec<(String, RepoPullInfo)>, path: String, info: RepoPullInfo)
    ensures
        pull_model(final(infos)@) == match model_find(pull_model(old(infos)@), path@, 0) {
            Some(i) => pull_model(old(infos)@).update(
                i,
                (path@, status_model(info.status), info.log.deep_view()),
            ),
            None => pull_model(old(infos)@).push(
                (path@, status_model(info.status), info.log.deep_view()),
            ),
        },
{
    let ghost m = infos@;
    let ghost mm = pull_model(infos@);
    let mut i: usize = 0;
    while i < infos.len()
        invariant
            m == infos@,
            m == old(infos)@,
            mm == pull_model(m),
            mm.len() == m.len(),
            i <= m.len(),
            model_find(mm, path@, 0) == model_find(mm, path@, i as int),
        decreases m.len() - i,
    {
        if str_eq(infos[i].0.as_str(), path.as_str()) {
            proof {
                assert(mm[i as int].0 == path@);
                assert(model_find(mm, path@, i as int) == Some(i as int));
            }
            let ghost target = mm.update(
                i as int,
                (path@, status_model(info.status), info.log.deep_view()),
            );
            infos.set(i, (path, info));
            proof {
                assert(pull_model(infos@) =~= target);
            }
            return ;
        } else {
            proof {
                assert(mm[i as int].0 != path@);
            }
            i = i + 1;
        }
    }
    proof {
        assert(model_find(mm, path@, m.len() as int) is None);
    }
    let ghost target = mm.push((path@, status_model(info.status), info.log.deep_view()));
    infos.push((path, info));
    proof {
        assert(pull_model(infos@) =~= target);
    }
}


/// The log lines kept after the ring-buffer cap: the newest lines, up to
/// the cap.
pub open spec fn capped_log(s: Seq<Seq<char>>) -> Seq<Seq<char>> {
    if s.len() <= PULL_LOG_CAP {
        s
    } else {
        s.subrange(s.len() - PULL_LOG_CAP, s.len() as int)
    }
}

/// The pull records after one event: a start marks the path's task
/// running; an output line is stripped of colour codes and appended to
/// the path's capped log; a finish marks the task done with its exit code
/// and message. An event for an unknown path changes no record.
pub open spec fn pull_event_step(
    mm: Seq<(Seq<char>, PullStateModel, Seq<Seq<char>>)>,
    ev: PullEvent,
) -> Seq<(Seq<char>, PullStateModel, Seq<Seq<char>>)> {
    match model_find(mm, ev.path@, 0) {
        None => mm,
        Some(i) => match ev.kind {
            PullEventKind::Started => mm.update(i, (mm[i].0, PullStateModel::Running, mm[i].2)),
            PullEventKind::Line(l) => mm.update(
                i,
                (mm[i].0, mm[i].1, capped_log(mm[i].2.push(without_cr(ansi_stripped(l@))))),
            ),
            PullEventKind::Finished(code, message) => mm.update(
                i,
                (
                    mm[i].0,
                    PullStateModel::Done {
                        code: code as int,
                        message: match message {
                            Some(msg) => Some(msg@),
                            None => None,
                        },
                    },
                    mm[i].2,
                ),
            ),
        },
    }
}

/// The pull records after a batch of events, applied in order.
pub open spec fn pull_events_fold(
    mm: Seq<(Seq<char>, PullStateModel, Seq<Seq<char>>)>,
    evs: Seq<PullEvent>,
) -> Seq<(Seq<char>, PullStateModel, Seq<Seq<char>>)>
    decreases evs.len(),
{
    if evs.len() == 0 {
        mm
    } else {
        pull_events_fold(pull_event_step(mm, evs[0]), evs.subrange(1, evs.len() as int))
    }
}

/// The paths of the finish events, in order.
pub open spec fn finished_paths(evs: Seq<PullEvent>) -> Seq<Seq<char>>
    decreases evs.len(),
{
    if evs.len() == 0 {
        Seq::empty()
    } else {
        finished_paths(evs.drop_last()) + (if evs.last().kind is Finished {
            seq![evs.last().path@]
        } else {
            Seq::<Seq<char>>::empty()
        })
    }
}

proof fn lemma_pull_fold_snoc(
    mm: Seq<(Seq<char>, PullStateModel, Seq<Seq<char>>)>,
    evs: Seq<PullEvent>,
    k: int,
)
    requires
        0 <= k < evs.len(),
    ensures
        pull_events_fold(mm, evs.subrange(0, k + 1)) == pull_event_step(
            pull_events_fold(mm, evs.subrange(0, k)),
            evs[k],
        ),
    decreases k,
{
    let pre = evs.subrange(0, k + 1);
    if k == 0 {
        assert(pre[0] == evs[0]);
        assert(pre.subrange(1, pre.len() as int).len() == 0);
        assert(evs.subrange(0, 0).len() == 0);
        assert(pull_events_fold(mm, evs.subrange(0, 0)) == mm);
        assert(pull_events_fold(pull_event_step(mm, evs[0]), pre.subrange(1, pre.len() as int))
            == pull_event_step(mm, evs[0]));
        assert(pull_events_fold(mm, pre) == pull_event_step(mm, evs[0]));
    } else {
        assert(pre[0] == evs[0]);
        let mm2 = pull_event_step(mm, evs[0]);
        let shifted = evs.subrange(1, evs.len() as int);
        assert(pre.subrange(1, pre.len() as int) =~= shifted.subrange(0, k));
        lemma_pull_fold_snoc(mm2, shifted, k - 1);
        assert(shifted[k - 1] == evs[k]);
        assert(pull_events_fold(mm, pre) == pull_events_fold(mm2, shifted.subrange(0, k)));
        assert(pull_events_fold(mm, evs.subrange(0, k)) == pull_events_fold(
            mm2,
            shifted.subrange(0, k - 1),
        )) by {
            assert(evs.subrange(0, k)[0] == evs[0]);
            assert(evs.subrange(0, k).subrange(1, k) =~= shifted.subrange(0, k - 1));
        }
    }
}

/// Applies one pull event to the records.
fn apply_pull_event(infos: &mut Vec<(String, RepoPullInfo)>, ev: PullEvent)
    ensures
        pull_model(final(infos)@) == pull_event_step(pull_model(old(infos)@), ev),
{
    let ghost mm = pull_model(infos@);
    let mut i: usize = 0;
    while i < infos.len()
        invariant
            mm == pull_model(infos@),
            mm == pull_model(old(infos)@),
            infos@ == old(infos)@,
            mm.len() == infos@.len(),
            i <= mm.len(),
            model_find(mm, ev.path@, 0) == model_find(mm, ev.path@, i as int),
        decreases mm.len() - i,
    {
        if str_eq(infos[i].0.as_str(), ev.path.as_str()) {
            proof {
                assert(mm[i as int].0 == ev.path@);
                assert(model_find(mm, ev.path@, i as int) == Some(i as int));
            }
            let mut entry = infos.remove(i);
            proof {
                assert(entry == old(infos)@[i as int]);
            }
            match ev.kind {
                PullEventKind::Started => {
                    entry.1.status = PullStatus::Running;
                },
                PullEventKind::Line(l) => {
                    let stripped = crate::util::strip_ansi(l.as_str());
                    let ghost log0 = entry.1.log.deep_view();
                    entry.1.log.push(stripped);
                    proof {
                        assert(entry.1.log.deep_view() =~= log0.push(
                            without_cr(ansi_stripped(l@)),
                        ));
                    }
                    let ghost pushed = entry.1.log.deep_view();
                    while entry.1.log.len() > PULL_LOG_CAP
                        invariant
                            capped_log(entry.1.log.deep_view()) == capped_log(pushed),
                            entry.0@ == old(infos)@[i as int].0@,
                            entry.1.status == old(infos)@[i as int].1.status,
                        decreases entry.1.log@.len(),
                    {
                        let ghost cur = entry.1.log.deep_view();
                        entry.1.log.remove(0);
                        proof {
                            assert(entry.1.log.deep_view() =~= cur.subrange(
                                1,
                                cur.len() as int,
                            ));
                            assert(capped_log(cur.subrange(1, cur.len() as int)) =~= capped_log(
                                cur,
                            ));
                        }
                    }
                    proof {
                        assert(capped_log(entry.1.log.deep_view()) =~= entry.1.log.deep_view());
                    }
                },
                PullEventKind::Finished(code, message) => {
                    entry.1.status = PullStatus::Done { code, message };
                },
            }
            infos.insert(i, entry);
            proof {
                assert(pull_model(infos@) =~= pull_event_step(mm, ev));
            }
            return ;
        }
        proof {
            assert(mm[i as int].0 != ev.path@);
        }
        i = i + 1;
    }
    proof {
        assert(model_find(mm, ev.path@, mm.len() as int) is None);
    }
}

impl RegListCtrl {
    /// Applies a batch of pull events to the records: starts mark tasks
    /// running, output lines grow the capped logs, finishes mark tasks
    /// done. The paths of the finish events are handed back so their
    /// health can be probed again.
    pub fn drain_pull_events(&mut self, events: Vec<PullEvent>) -> (finished: Vec<String>)
        ensures
            pull_model(final(self).pull_infos@) == pull_events_fold(
                pull_model(old(self).pull_infos@),
                events@,
            ),
            finished.deep_view() == finished_paths(events@),
            final(self).status_infos@ == old(self).status_infos@,
            final(self).items@ == old(self).items@,
            final(self).pull_done as int == if old(self).pull_done + finished.deep_view().len()
                <= usize::MAX {
                old(self).pull_done + finished.deep_view().len()
            } else {
                usize::MAX as int
            },
    {
        let ghost evs = events@;
        let ghost mm0 = pull_model(self.pull_infos@);
        let mut finished: Vec<String> = Vec::new();
        let events_len: usize = events.len();
        let mut rest = events;
        let mut k: usize = 0;
        proof {
            assert(evs.subrange(0, 0).len() == 0);
            assert(finished.deep_view() =~= finished_paths(evs.subrange(0, 0)));
        }
        while k < events_len
            invariant
                evs.len() == events_len,
                rest@ == evs.subrange(k as int, evs.len() as int),
                k <= evs.len(),
                mm0 == pull_model(old(self).pull_infos@),
                pull_model(self.pull_infos@) == pull_events_fold(mm0, evs.subrange(0, k as int)),
                finished.deep_view() == finished_paths(evs.subrange(0, k as int)),
                self.status_infos@ == old(self).status_infos@,
                self.items@ == old(self).items@,
                self.pull_done as int == if old(self).pull_done + finished.deep_view().len()
                    <= usize::MAX {
                    old(self).pull_done + finished.deep_view().len()
                } else {
                    usize::MAX as int
                },
            decreases events_len - k,
        {
            proof {
                assert(rest@[0] == evs[k as int]);
                assert(evs.subrange(0, k + 1).drop_last() =~= evs.subrange(0, k as int));
                assert(evs.subrange(0, k + 1).last() == evs[k as int]);
            }
            let ev = rest.remove(0);
            proof {
                assert(rest@ =~= evs.subrange(k + 1, evs.len() as int));
            }
            let is_finish: bool = matches!(ev.kind, PullEventKind::Finished(..));
            if is_finish {
                if self.pull_done < usize::MAX {
                    self.pull_done = self.pull_done + 1;
                }
                finished.push(ev.path.clone());
            }
            let ghost fin_before = finished.deep_view();
            apply_pull_event(&mut self.pull_infos, ev);
            proof {
                lemma_pull_fold_snoc(mm0, evs, k as int);
                assert(finished.deep_view() =~= finished_paths(evs.subrange(0, k + 1)));
            }
            k = k + 1;
        }
        proof {
            assert(evs.subrange(0, evs.len() as int) =~= evs);
        }
        finished
    }
}

} // verus!
