//! The quick-jump screen's state: registered repositories and local
//! directory entries, filtered by out-of-order fragments and ranked by
//! match quality.

use vstd::prelude::*;

use crate::config::RegItem;
use crate::main_ctrl::DirEntry;
use crate::registry::AppContext;
use crate::strutil::{lower_of, split_fields, to_lower};
use crate::util::{calculate_goto_score, match_disorder, match_disorder_spec};

verus! {

/// One jump candidate.
pub enum GotoItem {
    Repo(RegItem),
    LocalDir(DirEntry),
    LocalFile(DirEntry),
}

impl Clone for GotoItem {
    fn clone(&self) -> (r: Self)
        ensures
            goto_target(r) == goto_target(*self),
    {
        match self {
            GotoItem::Repo(reg) => GotoItem::Repo(reg.clone()),
            GotoItem::LocalDir(d) => GotoItem::LocalDir(d.clone()),
            GotoItem::LocalFile(d) => GotoItem::LocalFile(d.clone()),
        }
    }
}

/// The text a candidate is matched against: a repository by its path, a
/// local entry by its name.
pub open spec fn goto_target(it: GotoItem) -> Seq<char> {
    match it {
        GotoItem::Repo(reg) => reg.path@,
        GotoItem::LocalDir(d) => d.name@,
        GotoItem::LocalFile(d) => d.name@,
    }
}

/// Whether a candidate passes the filter: every whitespace-separated
/// fragment of the lowercased filter occurs, without reuse, in the
/// candidate's lowercased target text.
pub open spec fn goto_passes(it: GotoItem, lf: Seq<char>) -> bool {
    match_disorder_spec(lower_of(goto_target(it)), crate::strutil::fields_spec(lf))
}

/// How many of the candidates pass the filter.
pub open spec fn count_passing(items: Seq<GotoItem>, lf: Seq<char>) -> int
    decreases items.len(),
{
    if items.len() == 0 {
        0
    } else {
        count_passing(items.drop_last(), lf) + if goto_passes(items.last(), lf) {
            1int
        } else {
            0int
        }
    }
}

/// The quick-jump state. The local entries of the current directory are
/// listed outside the library and handed in.
pub struct GotoCtrl {
    pub items: Vec<GotoItem>,
    pub selected_idx: usize,
    pub filter: String,
}

impl GotoCtrl {
    /// A jump list holding the registered repositories.
    pub fn with_repos(repos: Vec<RegItem>) -> (r: Self)
        ensures
            r.items@.len() == repos@.len(),
            forall|k: int|
                0 <= k < repos@.len() ==> goto_target(#[trigger] r.items@[k]) == repos@[k].path@,
            r.selected_idx == 0,
            r.filter@.len() == 0,
    {
        let mut items: Vec<GotoItem> = Vec::new();
        let mut i: usize = 0;
        while i < repos.len()
            invariant
                i <= repos@.len(),
                items@.len() == i,
                forall|k: int|
                    0 <= k < i ==> goto_target(#[trigger] items@[k]) == repos@[k].path@,
            decreases repos@.len() - i,
        {
            items.push(GotoItem::Repo(repos[i].clone()));
            i = i + 1;
        }
        GotoCtrl { items, selected_idx: 0, filter: String::new() }
    }

    /// A jump list over the registered repositories.
    pub fn new(ctx: &AppContext) -> (r: Self)
        ensures
            r.items@.len() == ctx.config.path@.len(),
            r.selected_idx == 0,
    {
        let mut repos: Vec<RegItem> = Vec::new();
        let mut i: usize = 0;
        while i < ctx.config.path.len()
            invariant
                i <= ctx.config.path@.len(),
                repos@.len() == i,
            decreases ctx.config.path@.len() - i,
        {
            repos.push(ctx.config.path[i].clone());
            i = i + 1;
        }
        Self::with_repos(repos)
    }

    /// Adds one local directory entry after the repositories.
    pub fn add_local_entry(&mut self, entry: DirEntry)
        ensures
            final(self).items@.len() == old(self).items@.len() + 1,
            goto_target(final(self).items@.last()) == entry.name@,
            forall|k: int|
                0 <= k < old(self).items@.len() ==> final(self).items@[k] == #[trigger] old(
                    self,
                ).items@[k],
    {
        if entry.is_dir {
            self.items.push(GotoItem::LocalDir(entry));
        } else {
            self.items.push(GotoItem::LocalFile(entry));
        }
    }

    /// The candidates that pass the filter, best match first: every
    /// returned candidate passes, and there are exactly as many as pass.
    /// With blank filter text, the whole list in its own order.
    pub fn filtered_items(&self) -> (r: Vec<GotoItem>)
        ensures
            crate::strutil::trimmed(self.filter@).len() == 0 ==> r@.len() == self.items@.len()
                && (forall|k: int|
                0 <= k < self.items@.len() ==> goto_target(#[trigger] r@[k]) == goto_target(
                    self.items@[k],
                )),
            crate::strutil::trimmed(self.filter@).len() != 0 ==> {
                &&& r@.len() == count_passing(self.items@, lower_of(self.filter@))
                &&& forall|k: int|
                    0 <= k < r@.len() ==> goto_passes(#[trigger] r@[k], lower_of(self.filter@))
                &&& (crate::strutil::fields_spec(lower_of(self.filter@)).len() <= 100000000
                    ==> forall|k: int|
                    0 <= k && k + 1 < r@.len() ==> goto_le(
                        #[trigger] r@[k],
                        r@[k + 1],
                        self.filter@,
                        crate::strutil::fields_spec(lower_of(self.filter@)),
                    ))
            },
    {
        let t = crate::strutil::trim_str(self.filter.as_str());
        if t.as_str().unicode_len() == 0 {
            let mut r: Vec<GotoItem> = Vec::new();
            let mut i: usize = 0;
            while i < self.items.len()
                invariant
                    i <= self.items@.len(),
                    r@.len() == i,
                    forall|k: int|
                        0 <= k < i ==> goto_target(#[trigger] r@[k]) == goto_target(
                            self.items@[k],
                        ),
                decreases self.items@.len() - i,
            {
                r.push(self.items[i].clone());
                i = i + 1;
            }
            return r;
        }
        let fl = to_lower(self.filter.as_str());
        let frags = split_fields(fl.as_str());
        let ghost lf = lower_of(self.filter@);
        let mut r: Vec<GotoItem> = Vec::new();
        let mut i: usize = 0;
        proof {
            assert(self.items@.subrange(0, 0).len() == 0);
        }
        while i < self.items.len()
            invariant
                fl@ == lf,
                frags.deep_view() == crate::strutil::fields_spec(lf),
                i <= self.items@.len(),
                r@.len() == count_passing(self.items@.subrange(0, i as int), lf),
                forall|k: int| 0 <= k < r@.len() ==> goto_passes(#[trigger] r@[k], lf),
            decreases self.items@.len() - i,
        {
            proof {
                assert(self.items@.subrange(0, i + 1).drop_last() =~= self.items@.subrange(
                    0,
                    i as int,
                ));
                assert(self.items@.subrange(0, i + 1).last() == self.items@[i as int]);
            }
            let target: String = match &self.items[i] {
                GotoItem::Repo(reg) => to_lower(reg.path.as_str()),
                GotoItem::LocalDir(d) => to_lower(d.name.as_str()),
                GotoItem::LocalFile(d) => to_lower(d.name.as_str()),
            };
            proof {
                assert(target@ == lower_of(goto_target(self.items@[i as int])));
            }
            if match_disorder(target.as_str(), &frags) {
                let ghost before = r@;
                r.push(self.items[i].clone());
                proof {
                    assert(goto_passes(self.items@[i as int], lf));
                    assert(goto_passes(r@[r@.len() - 1], lf));
                    assert(forall|k: int| 0 <= k < before.len() ==> r@[k] == #[trigger] before[k]);
                }
            } else {
                proof {
                    assert(!goto_passes(self.items@[i as int], lf));
                }
            }
            i = i + 1;
        }
        proof {
            assert(self.items@.subrange(0, self.items@.len() as int) =~= self.items@);
        }
        if frags.len() <= 100000000 {
            let ghost r_before = r@;
            rank_candidates(&mut r, self.filter.as_str(), &frags);
            proof {
                assert(r@.len() == count_passing(self.items@, lf));
                assert forall|k: int| 0 <= k < r@.len() implies goto_passes(
                    #[trigger] r@[k],
                    lf,
                ) by {
                    assert(from_pool(r@[k], r_before));
                    let jw = choose|jw: int|
                        0 <= jw < r_before.len() && r@[k] == #[trigger] r_before[jw];
                    assert(goto_passes(r_before[jw], lf));
                }
            }
        }
        r
    }

    /// The selected visible candidate, if the cursor is on one.
    pub fn focus_item(&self) -> (r: Option<GotoItem>)
        ensures
            match r {
                Some(it) => crate::strutil::trimmed(self.filter@).len() != 0 ==> goto_passes(
                    it,
                    lower_of(self.filter@),
                ),
                None => true,
            },
    {
        let filtered = self.filtered_items();
        if self.selected_idx < filtered.len() {
            Some(filtered[self.selected_idx].clone())
        } else {
            None
        }
    }

    /// Moves the cursor down, stopping at the last candidate.
    pub fn next(&mut self)
        ensures
            final(self).items@ == old(self).items@,
            final(self).filter@ == old(self).filter@,
    {
        let len = self.filtered_items().len();
        if len > 0 {
            if self.selected_idx < len - 1 {
                self.selected_idx = self.selected_idx + 1;
            } else {
                self.selected_idx = len - 1;
            }
        } else {
            self.selected_idx = 0;
        }
    }

    /// Moves the cursor up, stopping at the first candidate.
    pub fn prev(&mut self)
        ensures
            final(self).items@ == old(self).items@,
            final(self).filter@ == old(self).filter@,
            final(self).selected_idx == if old(self).selected_idx > 0 {
                old(self).selected_idx - 1
            } else {
                0int
            },
    {
        if self.selected_idx > 0 {
            self.selected_idx = self.selected_idx - 1;
        }
    }

    /// Moves the cursor to `idx` when that is a visible candidate.
    pub fn set_selected(&mut self, idx: usize)
        ensures
            final(self).items@ == old(self).items@,
            final(self).filter@ == old(self).filter@,
    {
        if idx < self.filtered_items().len() {
            self.selected_idx = idx;
        }
    }
}

/// The lowercased name a candidate is ranked by: the last path component
/// for a repository, the entry name otherwise.
pub open spec fn rank_name_of(it: GotoItem) -> Seq<char> {
    match it {
        GotoItem::Repo(reg) => lower_of(
            match crate::config::basename_of(reg.path@) {
                Some(b) => b,
                None => Seq::empty(),
            },
        ),
        GotoItem::LocalDir(d) => lower_of(d.name@),
        GotoItem::LocalFile(d) => lower_of(d.name@),
    }
}

/// The ordering of candidate kinds: repositories first, then directories,
/// then files.
pub open spec fn kind_rank_of(it: GotoItem) -> int {
    match it {
        GotoItem::Repo(_) => 0,
        GotoItem::LocalDir(_) => 1,
        GotoItem::LocalFile(_) => 2,
    }
}

/// The display order of two candidates: the higher score first, then the
/// lower kind, then the earlier name.
pub open spec fn goto_le(a: GotoItem, b: GotoItem, f: Seq<char>, frags: Seq<Seq<char>>) -> bool {
    let sa = crate::util::goto_score_spec(rank_name_of(a), f, frags);
    let sb = crate::util::goto_score_spec(rank_name_of(b), f, frags);
    if sa != sb {
        sa > sb
    } else if kind_rank_of(a) != kind_rank_of(b) {
        kind_rank_of(a) < kind_rank_of(b)
    } else {
        crate::strutil::lex_le(rank_name_of(a), rank_name_of(b))
    }
}

pub proof fn lemma_goto_le_total(a: GotoItem, b: GotoItem, f: Seq<char>, frags: Seq<Seq<char>>)
    ensures
        goto_le(a, b, f, frags) || goto_le(b, a, f, frags),
{
    crate::strutil::lemma_lex_le_total(rank_name_of(a), rank_name_of(b));
}

pub proof fn lemma_goto_le_trans(
    a: GotoItem,
    b: GotoItem,
    c: GotoItem,
    f: Seq<char>,
    frags: Seq<Seq<char>>,
)
    requires
        goto_le(a, b, f, frags),
        goto_le(b, c, f, frags),
    ensures
        goto_le(a, c, f, frags),
{
    let sa = crate::util::goto_score_spec(rank_name_of(a), f, frags);
    let sb = crate::util::goto_score_spec(rank_name_of(b), f, frags);
    let sc = crate::util::goto_score_spec(rank_name_of(c), f, frags);
    if sa == sb && sb == sc && kind_rank_of(a) == kind_rank_of(b) && kind_rank_of(b)
        == kind_rank_of(c) {
        crate::strutil::lemma_lex_le_trans(rank_name_of(a), rank_name_of(b), rank_name_of(c));
    }
}

/// Whether `x` is one of the candidates in `pool`.
pub open spec fn from_pool(x: GotoItem, pool: Seq<GotoItem>) -> bool {
    exists|j: int| 0 <= j < pool.len() && x == #[trigger] pool[j]
}

/// Orders the passing candidates best first: higher score, then
/// repositories before directories before files, then by name. The
/// result holds exactly the given candidates, in that order.
#[verifier::rlimit(60)]
fn rank_candidates(work: &mut Vec<GotoItem>, filter: &str, frags: &Vec<String>)
    requires
        frags@.len() <= 100000000,
    ensures
        final(work)@.len() == old(work)@.len(),
        forall|k: int|
            0 <= k < final(work)@.len() ==> from_pool(#[trigger] final(work)@[k], old(work)@),
        forall|k: int|
            0 <= k && k + 1 < final(work)@.len() ==> goto_le(
                #[trigger] final(work)@[k],
                final(work)@[k + 1],
                filter@,
                frags.deep_view(),
            ),
{
    let ghost f = filter@;
    let ghost fv = frags.deep_view();
    let n: usize = work.len();
    let ghost work0 = work@;
    let mut out: Vec<GotoItem> = Vec::new();
    proof {
        assert forall|k: int| 0 <= k < work@.len() implies from_pool(
            #[trigger] work@[k],
            work0,
        ) by {
            assert(work@[k] == work0[k]);
        }
    }
    while out.len() < n
        invariant
            f == filter@,
            fv == frags.deep_view(),
            frags@.len() <= 100000000,
            work0 == old(work)@,
            work0.len() == n,
            out@.len() + work@.len() == n,
            forall|k: int| 0 <= k < out@.len() ==> from_pool(#[trigger] out@[k], work0),
            forall|k: int| 0 <= k < work@.len() ==> from_pool(#[trigger] work@[k], work0),
            forall|k: int|
                0 <= k && k + 1 < out@.len() ==> goto_le(#[trigger] out@[k], out@[k + 1], f, fv),
            forall|k: int|
                0 <= k < work@.len() && out@.len() > 0 ==> goto_le(
                    out@[out@.len() - 1],
                    #[trigger] work@[k],
                    f,
                    fv,
                ),
        decreases n - out@.len(),
    {
        let mut best: usize = 0;
        let mut j: usize = 1;
        proof {
            lemma_goto_le_total(work@[0], work@[0], f, fv);
        }
        while j < work.len()
            invariant
                f == filter@,
                fv == frags.deep_view(),
                frags@.len() <= 100000000,
                work@.len() > 0,
                best < work@.len(),
                j <= work@.len(),
                forall|t: int|
                    0 <= t < j ==> goto_le(work@[best as int], #[trigger] work@[t], f, fv),
            decreases work@.len() - j,
        {
            if ranks_before(&work[j], &work[best], filter, frags) {
                proof {
                    assert forall|t: int| 0 <= t < j implies goto_le(
                        work@[j as int],
                        #[trigger] work@[t],
                        f,
                        fv,
                    ) by {
                        lemma_goto_le_trans(work@[j as int], work@[best as int], work@[t], f, fv);
                    }
                    lemma_goto_le_total(work@[j as int], work@[j as int], f, fv);
                }
                best = j;
            } else {
                proof {
                    lemma_goto_le_total(work@[best as int], work@[j as int], f, fv);
                }
            }
            j = j + 1;
        }
        let ghost work_before = work@;
        let picked = work.remove(best);
        let ghost out_before = out@;
        out.push(picked);
        proof {
            assert(out@.last() == work_before[best as int]);
            assert forall|k: int| 0 <= k < out@.len() implies from_pool(
                #[trigger] out@[k],
                work0,
            ) by {
                if k < out@.len() - 1 {
                    assert(out@[k] == out_before[k]);
                    assert(from_pool(out_before[k], work0));
                } else {
                    assert(from_pool(work_before[best as int], work0));
                }
            }
            assert forall|k: int| 0 <= k < work@.len() implies from_pool(
                #[trigger] work@[k],
                work0,
            ) by {
                if k < best {
                    assert(work@[k] == work_before[k]);
                    assert(from_pool(work_before[k], work0));
                } else {
                    assert(work@[k] == work_before[k + 1]);
                    assert(from_pool(work_before[k + 1], work0));
                }
            }
            assert forall|k: int| 0 <= k && k + 1 < out@.len() implies goto_le(
                #[trigger] out@[k],
                out@[k + 1],
                f,
                fv,
            ) by {
                if k + 1 < out@.len() - 1 {
                    assert(out@[k] == out_before[k] && out@[k + 1] == out_before[k + 1]);
                } else {
                    assert(out@[k] == out_before[out_before.len() - 1]);
                    assert(goto_le(
                        out_before[out_before.len() - 1],
                        work_before[best as int],
                        f,
                        fv,
                    ));
                }
            }
            assert forall|k: int|
                0 <= k < work@.len() && out@.len() > 0 implies goto_le(
                out@[out@.len() - 1],
                #[trigger] work@[k],
                f,
                fv,
            ) by {
                if k < best {
                    assert(work@[k] == work_before[k]);
                    assert(goto_le(work_before[best as int], work_before[k], f, fv));
                } else {
                    assert(work@[k] == work_before[k + 1]);
                    assert(goto_le(work_before[best as int], work_before[k + 1], f, fv));
                }
            }
        }
    }
    *work = out;
}

/// Whether `a` ranks strictly before `b`: a higher score, then a
/// lower kind (repository, directory, file), then an earlier name.
fn ranks_before(a: &GotoItem, b: &GotoItem, filter: &str, frags: &Vec<String>) -> (r: bool)
    requires
        frags@.len() <= 100000000,
    ensures
        r == goto_le(*a, *b, filter@, frags.deep_view()),
{
    let name_a = rank_name(a);
    let name_b = rank_name(b);
    let score_a = calculate_goto_score(name_a.as_str(), filter, frags);
    let score_b = calculate_goto_score(name_b.as_str(), filter, frags);
    if score_a != score_b {
        return score_a > score_b;
    }
    let ta = type_rank(a);
    let tb = type_rank(b);
    if ta != tb {
        return ta < tb;
    }
    crate::strutil::str_le(name_a.as_str(), name_b.as_str())
}

/// The lowercased name a candidate is ranked by: the last path component
/// for a repository, the entry name otherwise.
fn rank_name(it: &GotoItem) -> (r: String)
    ensures
        r@ == rank_name_of(*it),
{
    match it {
        GotoItem::Repo(reg) => {
            match crate::config::basename(reg.path.as_str()) {
                Some(b) => to_lower(b.as_str()),
                None => {
                    let r = to_lower("");
                    proof {
                        reveal_strlit("");
                        assert(""@ =~= Seq::<char>::empty());
                        assert(r@ =~= lower_of(Seq::<char>::empty()));
                    }
                    r
                },
            }
        },
        GotoItem::LocalDir(d) => to_lower(d.name.as_str()),
        GotoItem::LocalFile(d) => to_lower(d.name.as_str()),
    }
}

/// The ordering of candidate kinds: repositories first, then
/// directories, then files.
fn type_rank(it: &GotoItem) -> (r: u8)
    ensures
        it is Repo ==> r == 0,
        it is LocalDir ==> r == 1,
        it is LocalFile ==> r == 2,
{
    match it {
        GotoItem::Repo(_) => 0,
        GotoItem::LocalDir(_) => 1,
        GotoItem::LocalFile(_) => 2,
    }
}

} // verus!
