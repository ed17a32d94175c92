//! The registry data model: a registered working copy, and the tool's
//! configuration with its executable-dependent defaults.

use vstd::prelude::*;

use crate::strutil::find_char_from;

verus! {

/// One registered working copy: where it lives, the names it answers to,
/// optional grouping, and whether it is under version control.
pub struct RegItem {
    pub names: Vec<String>,
    pub path: String,
    pub groups: Vec<String>,
    pub repo: bool,
}

/// Two registry items that hold the same data.
pub open spec fn reg_item_like(a: RegItem, b: RegItem) -> bool {
    &&& a.names@ == b.names@
    &&& a.path@ == b.path@
    &&& a.groups@ == b.groups@
    &&& a.repo == b.repo
}

/// The data of a registry item, as one comparable value.
pub open spec fn reg_model(it: RegItem) -> (Seq<String>, String, Seq<String>, bool) {
    (it.names@, it.path, it.groups@, it.repo)
}

/// The data of a registry list, item by item.
pub open spec fn reg_models(s: Seq<RegItem>) -> Seq<(Seq<String>, String, Seq<String>, bool)> {
    s.map_values(|it: RegItem| reg_model(it))
}

impl Clone for RegItem {
    fn clone(&self) -> (r: Self)
        ensures
            reg_model(r) == reg_model(*self),
            reg_item_like(*self, r),
    {
        let r = RegItem {
            names: self.names.clone(),
            path: self.path.clone(),
            groups: self.groups.clone(),
            repo: self.repo,
        };
        proof {
            assert forall|i: int| 0 <= i < self.names@.len() implies r.names@[i]
                == self.names@[i] by {
                assert(cloned::<String>(self.names[i], r.names[i]));
            }
            assert forall|i: int| 0 <= i < self.groups@.len() implies r.groups@[i]
                == self.groups@[i] by {
                assert(cloned::<String>(self.groups[i], r.groups[i]));
            }
            assert(r.names@ =~= self.names@);
            assert(r.groups@ =~= self.groups@);
        }
        r
    }
}

/// The last path component, as the default display name of a directory:
/// the text after the final separator, with trailing separators ignored;
/// nothing for the root, or for a `.`/`..` component.
pub open spec fn basename_of(p: Seq<char>) -> Option<Seq<char>> {
    let t = drop_trailing_slashes(p);
    if t.len() == 0 {
        None
    } else {
        let rest = after_last_slash(t);
        if rest.len() == 0 || rest == seq!['.'] || rest == seq!['.', '.'] {
            None
        } else {
            Some(rest)
        }
    }
}

/// `p` without its trailing separator characters.
pub open spec fn drop_trailing_slashes(p: Seq<char>) -> Seq<char>
    decreases p.len(),
{
    if p.len() > 0 && p.last() == '/' {
        drop_trailing_slashes(p.drop_last())
    } else {
        p
    }
}

/// The text after the last separator of `t` (all of `t` when it has none).
pub open spec fn after_last_slash(t: Seq<char>) -> Seq<char>
    decreases t.len(),
{
    if t.len() == 0 {
        Seq::empty()
    } else if t.last() == '/' {
        Seq::empty()
    } else {
        if find_char_from(t, 0, '/') is None {
            t
        } else {
            after_last_slash_suffix(t, t.len() - 1)
        }
    }
}

/// The suffix of `t` that starts after its last separator, found by
/// scanning backwards from position `i`.
pub open spec fn after_last_slash_suffix(t: Seq<char>, i: int) -> Seq<char>
    decreases i + 1,
{
    if i < 0 {
        t
    } else if 0 <= i < t.len() && t[i] == '/' {
        t.subrange(i + 1, t.len() as int)
    } else {
        after_last_slash_suffix(t, i - 1)
    }
}

impl RegItem {
    /// Fills in the default display name: a registry entry without names
    /// is shown under the last component of its path.
    pub fn normalized(self) -> (r: Self)
        ensures
            r.path@ == self.path@,
            r.groups@ == self.groups@,
            r.repo == self.repo,
            self.names@.len() > 0 ==> r.names@ == self.names@,
            self.names@.len() == 0 ==> r.names.deep_view() == match basename_of(self.path@) {
                Some(b) => seq![b],
                None => Seq::<Seq<char>>::empty(),
            },
    {
        if self.names.len() > 0 {
            return self;
        }
        let RegItem { names, path, groups, repo } = self;
        let mut new_names: Vec<String> = Vec::new();
        match basename(path.as_str()) {
            Some(b) => {
                new_names.push(b);
                proof {
                    assert(new_names.deep_view() =~= seq![basename_of(path@)->Some_0]);
                }
            },
            None => {
                proof {
                    assert(new_names.deep_view() =~= Seq::<Seq<char>>::empty());
                }
            },
        }
        RegItem { names: new_names, path, groups, repo }
    }
}

/// The last path component of `p`, per [`basename_of`].
pub fn basename(p: &str) -> (r: Option<String>)
    ensures
        match r {
            Some(b) => basename_of(p@) == Some(b@),
            None => basename_of(p@) is None,
        },
{
    let cs = crate::strutil::chars_vec(p);
    let mut hi: usize = cs.len();
    proof {
        assert(cs@.subrange(0, hi as int) =~= cs@);
    }
    while hi > 0 && cs[hi - 1] == '/'
        invariant
            hi <= cs@.len(),
            drop_trailing_slashes(cs@) == drop_trailing_slashes(cs@.subrange(0, hi as int)),
        decreases hi,
    {
        proof {
            assert(cs@.subrange(0, hi as int).last() == cs@[hi - 1]);
            assert(cs@.subrange(0, hi as int).drop_last() =~= cs@.subrange(0, hi - 1));
        }
        hi = hi - 1;
    }
    proof {
        let t = cs@.subrange(0, hi as int);
        if hi > 0 {
            assert(t.last() == cs@[hi - 1]);
            assert(t.last() != '/');
        }
        assert(drop_trailing_slashes(cs@) == t);
    }
    if hi == 0 {
        return None;
    }
    let ghost t = cs@.subrange(0, hi as int);
    let mut lo: usize = hi;
    while lo > 0 && cs[lo - 1] != '/'
        invariant
            lo <= hi <= cs@.len(),
            hi > 0,
            t == cs@.subrange(0, hi as int),
            t.last() != '/',
            forall|k: int| lo <= k < hi ==> cs@[k] != '/',
        decreases lo,
    {
        lo = lo - 1;
    }
    let ghost rest_expected = after_last_slash(t);
    proof {
        if lo == 0 {
            assert forall|k: int| 0 <= k < t.len() implies t[k] != '/' by {
                assert(t[k] == cs@[k]);
            }
            lemma_no_slash_whole(t);
            assert(rest_expected == t);
        } else {
            assert(cs@[lo - 1] == '/');
            assert(t[lo - 1] == '/');
            lemma_after_last_slash_at(t, lo - 1);
            assert(rest_expected =~= t.subrange(lo as int, hi as int));
        }
    }
    let mut rest: Vec<char> = Vec::new();
    let mut i: usize = lo;
    while i < hi
        invariant
            lo <= i <= hi <= cs@.len(),
            rest@ == cs@.subrange(lo as int, i as int),
        decreases hi - i,
    {
        rest.push(cs[i]);
        i = i + 1;
        proof {
            assert(rest@ =~= cs@.subrange(lo as int, i as int));
        }
    }
    proof {
        assert(rest@ =~= t.subrange(lo as int, hi as int));
        if lo == 0 {
            assert(rest@ =~= t);
        }
        assert(rest@ == rest_expected);
    }
    if rest.len() == 0 {
        return None;
    }
    if rest.len() == 1 && rest[0] == '.' {
        proof {
            assert(rest@ =~= seq!['.']);
        }
        return None;
    }
    if rest.len() == 2 && rest[0] == '.' && rest[1] == '.' {
        proof {
            assert(rest@ =~= seq!['.', '.']);
        }
        return None;
    }
    proof {
        assert(rest@ != seq!['.'] && rest@ != seq!['.', '.']) by {
            if rest@.len() == 1 {
                assert(rest@[0] != '.');
            }
            if rest@.len() == 2 {
                assert(rest@[0] != '.' || rest@[1] != '.');
            }
            assert(seq!['.'].len() == 1);
            assert(seq!['.', '.'].len() == 2);
        }
    }
    Some(crate::strutil::string_from_chars(&rest))
}

proof fn lemma_no_slash_whole(t: Seq<char>)
    requires
        t.len() > 0,
        t.last() != '/',
        forall|k: int| 0 <= k < t.len() ==> t[k] != '/',
    ensures
        after_last_slash(t) == t,
{
    assert(find_char_from(t, 0, '/') is None) by {
        if find_char_from(t, 0, '/') is Some {
            crate::strutil::lemma_find_char_from_some(t, 0, '/');
        }
    }
}

proof fn lemma_after_last_slash_at(t: Seq<char>, p: int)
    requires
        t.len() > 0,
        t.last() != '/',
        0 <= p < t.len(),
        t[p] == '/',
        forall|k: int| p < k < t.len() ==> t[k] != '/',
    ensures
        after_last_slash(t) == t.subrange(p + 1, t.len() as int),
{
    assert(find_char_from(t, 0, '/') is Some) by {
        lemma_find_char_some_of_witness(t, 0, p);
    }
    lemma_suffix_scan(t, t.len() - 1, p);
}

proof fn lemma_find_char_some_of_witness(t: Seq<char>, i: int, w: int)
    requires
        0 <= i <= w < t.len(),
        t[w] == '/',
    ensures
        find_char_from(t, i, '/') is Some,
    decreases w - i,
{
    if t[i] != '/' {
        lemma_find_char_some_of_witness(t, i + 1, w);
    }
}

proof fn lemma_suffix_scan(t: Seq<char>, i: int, p: int)
    requires
        0 <= p <= i < t.len(),
        t[p] == '/',
        forall|k: int| p < k < t.len() ==> t[k] != '/',
    ensures
        after_last_slash_suffix(t, i) == t.subrange(p + 1, t.len() as int),
    decreases i,
{
    if i == p {
    } else {
        assert(t[i] != '/');
        lemma_suffix_scan(t, i - 1, p);
    }
}

/// The tool's configuration: the registered working copies and a few
/// behavioural switches.
pub struct Config {
    pub path: Vec<RegItem>,
    pub is_pull_rebase: bool,
    pub is_push_rebase: bool,
    pub grep_app: String,
    pub edit_app: String,
    pub debug_print_system: bool,
}

/// Relies on `which::which`: whether an executable of that name can be
/// found through the search path. The answer depends on the machine's
/// state, so nothing more is promised of it.
#[verifier::external_body]
pub fn is_executable_in_path(name: &str) -> bool {
    which::which(name).is_ok()
}

/// The search tool to use, by preference among those installed.
pub fn pick_grep_app(has_ag: bool, has_ack: bool) -> (r: String)
    ensures
        has_ag ==> r@ == "ag"@,
        !has_ag && has_ack ==> r@ == "ack"@,
        !has_ag && !has_ack ==> r@ == "grep"@,
{
    if has_ag {
        String::from_str("ag")
    } else if has_ack {
        String::from_str("ack")
    } else {
        String::from_str("grep")
    }
}

/// The editor to use, by preference among those installed.
pub fn pick_edit_app(has_code: bool) -> (r: String)
    ensures
        has_code ==> r@ == "code"@,
        !has_code ==> r@ == "vi"@,
{
    if has_code {
        String::from_str("code")
    } else {
        String::from_str("vi")
    }
}

impl Config {
    /// Fills in the search and editor commands when the configuration
    /// leaves them empty, preferring the better tools when they are
    /// installed.
    pub fn ensure_defaults(&mut self)
        ensures
            final(self).path@ == old(self).path@,
            final(self).is_pull_rebase == old(self).is_pull_rebase,
            final(self).is_push_rebase == old(self).is_push_rebase,
            final(self).debug_print_system == old(self).debug_print_system,
            old(self).grep_app@.len() > 0 ==> final(self).grep_app@ == old(self).grep_app@,
            old(self).grep_app@.len() == 0 ==> (final(self).grep_app@ == "ag"@
                || final(self).grep_app@ == "ack"@ || final(self).grep_app@ == "grep"@),
            old(self).edit_app@.len() > 0 ==> final(self).edit_app@ == old(self).edit_app@,
            old(self).edit_app@.len() == 0 ==> (final(self).edit_app@ == "code"@
                || final(self).edit_app@ == "vi"@),
    {
        if self.grep_app.as_str().unicode_len() == 0 {
            let has_ag = is_executable_in_path("ag");
            let has_ack = is_executable_in_path("ack");
            self.grep_app = pick_grep_app(has_ag, has_ack);
        }
        if self.edit_app.as_str().unicode_len() == 0 {
            let has_code = is_executable_in_path("code");
            self.edit_app = pick_edit_app(has_code);
        }
    }

    /// A configuration with no registered paths, rebasing pulls and
    /// pushes, and the default tools.
    pub fn fresh() -> (r: Config)
        ensures
            r.path@.len() == 0,
            r.is_pull_rebase,
            r.is_push_rebase,
            !r.debug_print_system,
            r.grep_app@ == "ag"@ || r.grep_app@ == "ack"@ || r.grep_app@ == "grep"@,
            r.edit_app@ == "code"@ || r.edit_app@ == "vi"@,
    {
        let mut cfg = Config {
            path: Vec::new(),
            is_pull_rebase: true,
            is_push_rebase: true,
            grep_app: String::new(),
            edit_app: String::new(),
            debug_print_system: false,
        };
        cfg.ensure_defaults();
        cfg
    }
}

impl Default for Config {
    fn default() -> (r: Config)
        ensures
            r.path@.len() == 0,
            r.is_pull_rebase,
            r.is_push_rebase,
    {
        Config::fresh()
    }
}

} // verus!
