//! Text rules shared across the tool: quoted-filename unwrapping, ANSI
//! stripping, and the out-of-order fragment matching that drives the
//! quick-jump filter.

use vstd::prelude::*;

use crate::strutil::{
    chars_vec, eq_chars, find_from, find_sub, has_prefix, lemma_find_from_some, remove_span,
    splice_out, starts_with_chars, string_from_chars, trim_chars, trimmed,
};

verus! {

/// `s` with every occurrence of `pat` (scanned left to right, without
/// overlap) replaced by `rep`.
pub open spec fn replace_all_spec(s: Seq<char>, pat: Seq<char>, rep: Seq<char>) -> Seq<char>
    decreases s.len(),
{
    match find_from(s, pat, 0) {
        Some(i) => if 0 <= i && pat.len() > 0 && i + pat.len() <= s.len() {
            s.subrange(0, i) + rep + replace_all_spec(
                s.subrange(i + pat.len() as int, s.len() as int),
                pat,
                rep,
            )
        } else {
            s
        },
        None => s,
    }
}

/// Replaces every occurrence of `pat` by `rep`, scanning left to right.
pub fn replace_all_chars(text: &Vec<char>, pat: &Vec<char>, rep: &Vec<char>) -> (r: Vec<char>)
    requires
        pat@.len() > 0,
    ensures
        r@ == replace_all_spec(text@, pat@, rep@),
{
    let mut acc: Vec<char> = Vec::new();
    let mut cur: Vec<char> = Vec::new();
    let mut i: usize = 0;
    while i < text.len()
        invariant
            i <= text@.len(),
            cur@ == text@.subrange(0, i as int),
        decreases text@.len() - i,
    {
        cur.push(text[i]);
        i = i + 1;
        proof {
            assert(cur@ =~= text@.subrange(0, i as int));
        }
    }
    proof {
        assert(cur@ =~= text@);
    }
    loop
        invariant
            pat@.len() > 0,
            replace_all_spec(text@, pat@, rep@) =~= acc@ + replace_all_spec(cur@, pat@, rep@),
        decreases cur@.len(),
    {
        match find_sub(&cur, pat) {
            Some(pos) => {
                proof {
                    lemma_find_from_some(cur@, pat@, 0);
                }
                let ghost acc0 = acc@;
                let mut j: usize = 0;
                while j < pos
                    invariant
                        pos + pat@.len() <= cur@.len(),
                        j <= pos,
                        acc@ == acc0 + cur@.subrange(0, j as int),
                    decreases pos - j,
                {
                    acc.push(cur[j]);
                    j = j + 1;
                    proof {
                        assert(acc@ =~= acc0 + cur@.subrange(0, j as int));
                    }
                }
                let mut k: usize = 0;
                while k < rep.len()
                    invariant
                        pos + pat@.len() <= cur@.len(),
                        k <= rep@.len(),
                        acc@ == acc0 + cur@.subrange(0, pos as int) + rep@.subrange(0, k as int),
                    decreases rep@.len() - k,
                {
                    acc.push(rep[k]);
                    k = k + 1;
                    proof {
                        assert(acc@ =~= acc0 + cur@.subrange(0, pos as int) + rep@.subrange(
                            0,
                            k as int,
                        ));
                    }
                }
                let clen: usize = cur.len();
                proof {
                    assert(pos + pat@.len() <= clen);
                }
                let next = remove_span(&cur, 0, pos + pat.len());
                proof {
                    assert(next@ =~= cur@.subrange(pos + pat@.len() as int, cur@.len() as int));
                    assert(rep@.subrange(0, rep@.len() as int) =~= rep@);
                    assert(replace_all_spec(cur@, pat@, rep@) == cur@.subrange(0, pos as int)
                        + rep@ + replace_all_spec(next@, pat@, rep@));
                    assert(replace_all_spec(text@, pat@, rep@) =~= acc@ + replace_all_spec(
                        next@,
                        pat@,
                        rep@,
                    ));
                }
                cur = next;
            },
            None => {
                let ghost acc0 = acc@;
                let mut j: usize = 0;
                while j < cur.len()
                    invariant
                        j <= cur@.len(),
                        acc@ == acc0 + cur@.subrange(0, j as int),
                    decreases cur@.len() - j,
                {
                    acc.push(cur[j]);
                    j = j + 1;
                    proof {
                        assert(acc@ =~= acc0 + cur@.subrange(0, j as int));
                    }
                }
                proof {
                    assert(cur@.subrange(0, cur@.len() as int) =~= cur@);
                    assert(replace_all_spec(text@, pat@, rep@) =~= acc@);
                }
                return acc;
            },
        }
    }
}

/// The unquoted form of a status line's filename field: the trimmed text,
/// with a surrounding pair of double quotes removed and `\"` unescaped.
pub open spec fn unquoted_filename(s: Seq<char>) -> Seq<char> {
    let t = trimmed(s);
    if t.len() >= 2 && t[0] == '"' && t.last() == '"' {
        replace_all_spec(t.subrange(1, t.len() - 1), seq!['\\', '"'], seq!['"'])
    } else {
        t
    }
}

/// Undoes the quoting the version-control tool applies to filenames with
/// special characters.
pub fn unwrap_quotes_filename(input: &str) -> (r: String)
    ensures
        r@ == unquoted_filename(input@),
{
    let cs = chars_vec(input);
    let t = trim_chars(&cs);
    if t.len() >= 2 && t[0] == '"' && t[t.len() - 1] == '"' {
        let inner = remove_span(&t, 0, 1);
        let inner2 = remove_span(&inner, inner.len() - 1, 1);
        proof {
            assert(inner@ =~= t@.subrange(1, t@.len() as int));
            assert(inner2@ =~= t@.subrange(1, t@.len() - 1));
        }
        let mut pat: Vec<char> = Vec::new();
        pat.push('\\');
        pat.push('"');
        let mut rep: Vec<char> = Vec::new();
        rep.push('"');
        proof {
            assert(pat@ =~= seq!['\\', '"']);
            assert(rep@ =~= seq!['"']);
        }
        let out = replace_all_chars(&inner2, &pat, &rep);
        string_from_chars(&out)
    } else {
        string_from_chars(&t)
    }
}

/// What the ANSI-stripping expression returns: the input with terminal
/// escape sequences removed; it depends on the characters alone.
pub uninterp spec fn ansi_stripped(s: Seq<char>) -> Seq<char>;

/// Relies on `regex::Regex::replace_all` with the fixed pattern
/// `\x1b\[[0-9;]*[a-zA-Z]`: removes ANSI escape sequences, a function of
/// the input characters alone.
#[verifier::external_body]
fn strip_ansi_codes(input: &str) -> (r: String)
    ensures
        r@ == ansi_stripped(input@),
{
    let re = regex::Regex::new("\\x1b\\[[0-9;]*[a-zA-Z]").unwrap();
    re.replace_all(input, "").into_owned()
}

/// `s` without its carriage returns.
pub open spec fn without_cr(s: Seq<char>) -> Seq<char>
    decreases s.len(),
{
    if s.len() == 0 {
        Seq::empty()
    } else if s.last() == '\r' {
        without_cr(s.drop_last())
    } else {
        without_cr(s.drop_last()).push(s.last())
    }
}

/// Removes ANSI escape sequences and carriage returns from command output.
pub fn strip_ansi(input: &str) -> (r: String)
    ensures
        r@ == without_cr(ansi_stripped(input@)),
{
    let cleaned = strip_ansi_codes(input);
    let cs = chars_vec(cleaned.as_str());
    let mut out: Vec<char> = Vec::new();
    let mut i: usize = 0;
    while i < cs.len()
        invariant
            i <= cs@.len(),
            out@ == without_cr(cs@.subrange(0, i as int)),
        decreases cs@.len() - i,
    {
        let c = cs[i];
        i = i + 1;
        proof {
            assert(cs@.subrange(0, i as int).drop_last() =~= cs@.subrange(0, i - 1));
        }
        if c != '\r' {
            out.push(c);
        }
    }
    proof {
        assert(cs@.subrange(0, cs@.len() as int) =~= cs@);
    }
    string_from_chars(&out)
}

/// `text` with the first occurrence of `pat` cut out, when there is one.
pub open spec fn remove_first_spec(text: Seq<char>, pat: Seq<char>) -> Option<Seq<char>> {
    match find_from(text, pat, 0) {
        Some(i) => Some(splice_out(text, i, pat.len() as int)),
        None => None,
    }
}

/// Whether every filter fragment occurs in `text`, consuming each match:
/// fragments are removed one after the other, so two equal fragments need
/// two separate occurrences.
pub open spec fn match_disorder_spec(text: Seq<char>, pats: Seq<Seq<char>>) -> bool
    decreases pats.len(),
{
    if pats.len() == 0 {
        true
    } else {
        match remove_first_spec(text, pats[0]) {
            Some(t) => match_disorder_spec(t, pats.subrange(1, pats.len() as int)),
            None => false,
        }
    }
}

/// How many filter fragments can be consumed, in order, each match being
/// removed from the text before the next fragment is tried.
pub open spec fn disorder_count_spec(text: Seq<char>, pats: Seq<Seq<char>>) -> int
    decreases pats.len(),
{
    if pats.len() == 0 {
        0
    } else {
        match remove_first_spec(text, pats[0]) {
            Some(t) => 1 + disorder_count_spec(t, pats.subrange(1, pats.len() as int)),
            None => disorder_count_spec(text, pats.subrange(1, pats.len() as int)),
        }
    }
}

pub proof fn lemma_disorder_count_bound(text: Seq<char>, pats: Seq<Seq<char>>)
    ensures
        0 <= disorder_count_spec(text, pats) <= pats.len(),
    decreases pats.len(),
{
    if pats.len() > 0 {
        match remove_first_spec(text, pats[0]) {
            Some(t) => lemma_disorder_count_bound(t, pats.subrange(1, pats.len() as int)),
            None => lemma_disorder_count_bound(text, pats.subrange(1, pats.len() as int)),
        }
    }
}

/// Whether all filter fragments occur in `input`, in any order, without
/// reusing matched text.
pub fn match_disorder(input: &str, filters: &Vec<String>) -> (r: bool)
    ensures
        r == match_disorder_spec(input@, filters.deep_view()),
{
    let ghost pats = filters.deep_view();
    let mut text = chars_vec(input);
    let mut k: usize = 0;
    proof {
        assert(pats.subrange(0, pats.len() as int) =~= pats);
    }
    while k < filters.len()
        invariant
            pats == filters.deep_view(),
            pats.len() == filters@.len(),
            k <= pats.len(),
            match_disorder_spec(input@, pats) == match_disorder_spec(
                text@,
                pats.subrange(k as int, pats.len() as int),
            ),
        decreases filters@.len() - k,
    {
        let pat = chars_vec(filters[k].as_str());
        proof {
            assert(pats.subrange(k as int, pats.len() as int)[0] == pats[k as int]);
            assert(pats[k as int] == filters@[k as int]@);
            assert(pats.subrange(k as int, pats.len() as int).subrange(
                1,
                pats.len() - k,
            ) =~= pats.subrange(k + 1, pats.len() as int));
        }
        match find_sub(&text, &pat) {
            Some(pos) => {
                proof {
                    lemma_find_from_some(text@, pat@, 0);
                }
                text = remove_span(&text, pos, pat.len());
            },
            None => {
                return false;
            },
        }
        k = k + 1;
    }
    proof {
        assert(pats.subrange(k as int, pats.len() as int) =~= Seq::<Seq<char>>::empty());
    }
    true
}

/// How many filter fragments occur in `input`, counted the same way
/// [`match_disorder`] matches them.
pub fn match_disorder_count(input: &str, filters: &Vec<String>) -> (r: usize)
    ensures
        r as int == disorder_count_spec(input@, filters.deep_view()),
        r <= filters@.len(),
{
    let ghost pats = filters.deep_view();
    let mut text = chars_vec(input);
    let mut count: usize = 0;
    let mut k: usize = 0;
    proof {
        assert(pats.subrange(0, pats.len() as int) =~= pats);
    }
    while k < filters.len()
        invariant
            pats == filters.deep_view(),
            pats.len() == filters@.len(),
            k <= pats.len(),
            count <= k,
            disorder_count_spec(input@, pats) == count + disorder_count_spec(
                text@,
                pats.subrange(k as int, pats.len() as int),
            ),
        decreases filters@.len() - k,
    {
        let pat = chars_vec(filters[k].as_str());
        proof {
            assert(pats.subrange(k as int, pats.len() as int)[0] == pats[k as int]);
            assert(pats[k as int] == filters@[k as int]@);
            assert(pats.subrange(k as int, pats.len() as int).subrange(
                1,
                pats.len() - k,
            ) =~= pats.subrange(k + 1, pats.len() as int));
        }
        match find_sub(&text, &pat) {
            Some(pos) => {
                proof {
                    lemma_find_from_some(text@, pat@, 0);
                }
                text = remove_span(&text, pos, pat.len());
                count = count + 1;
            },
            None => {
            },
        }
        k = k + 1;
    }
    proof {
        assert(pats.subrange(k as int, pats.len() as int) =~= Seq::<Seq<char>>::empty());
        lemma_disorder_count_bound(input@, pats);
    }
    count
}

/// `s` without its plain space characters.
pub open spec fn without_spaces(s: Seq<char>) -> Seq<char>
    decreases s.len(),
{
    if s.len() == 0 {
        Seq::empty()
    } else if s.last() == ' ' {
        without_spaces(s.drop_last())
    } else {
        without_spaces(s.drop_last()).push(s.last())
    }
}

/// The quick-jump score of a candidate name: ten points per matched
/// fragment, plus a bonus of 100 when the name equals the filter (spaces
/// removed) or 50 when it merely starts with it; zero when no fragment
/// matches.
pub open spec fn goto_score_spec(name: Seq<char>, filter: Seq<char>, frags: Seq<Seq<char>>) -> int {
    let score = disorder_count_spec(name, frags);
    if score == 0 {
        0
    } else {
        let target = without_spaces(filter);
        let bonus: int = if name == target {
            100
        } else if has_prefix(name, target) {
            50
        } else {
            0
        };
        score * 10 + bonus
    }
}

/// Scores a candidate name against the quick-jump filter.
pub fn calculate_goto_score(name: &str, filter: &str, fragments: &Vec<String>) -> (r: i32)
    requires
        fragments@.len() <= 100000000,
    ensures
        r as int == goto_score_spec(name@, filter@, fragments.deep_view()),
{
    let score = match_disorder_count(name, fragments);
    if score == 0 {
        return 0;
    }
    let fcs = chars_vec(filter);
    let mut target: Vec<char> = Vec::new();
    let mut i: usize = 0;
    while i < fcs.len()
        invariant
            i <= fcs@.len(),
            target@ == without_spaces(fcs@.subrange(0, i as int)),
        decreases fcs@.len() - i,
    {
        let c = fcs[i];
        i = i + 1;
        proof {
            assert(fcs@.subrange(0, i as int).drop_last() =~= fcs@.subrange(0, i - 1));
        }
        if c != ' ' {
            target.push(c);
        }
    }
    proof {
        assert(fcs@.subrange(0, fcs@.len() as int) =~= fcs@);
    }
    let ncs = chars_vec(name);
    let bonus: i32 = if eq_chars(&ncs, &target) {
        100
    } else if starts_with_chars(&ncs, &target) {
        50
    } else {
        0
    };
    (score as i32) * 10 + bonus
}


/// The counting semaphore that bounds how many workers run at once.
/// This is the semaphore's state; the blocking wait that parks a thread
/// until a permit is free lives with the thread runtime, outside the
/// library, and calls `acquire` only when a permit is free.
pub struct Semaphore {
    pub max: usize,
    pub count: usize,
}

impl Semaphore {
    /// The semaphore's invariant: never more holders than permits.
    pub open spec fn wf(self) -> bool {
        self.count <= self.max
    }

    /// A semaphore with the given number of permits and no holders.
    pub fn new(max: usize) -> (r: Self)
        ensures
            r.max == max,
            r.count == 0,
            r.wf(),
    {
        Semaphore { max, count: 0 }
    }

    /// Takes a permit. A caller may only take a permit that is free, so
    /// the number of holders never exceeds the bound.
    pub fn acquire(&mut self)
        requires
            old(self).wf(),
            old(self).count < old(self).max,
        ensures
            final(self).max == old(self).max,
            final(self).count == old(self).count + 1,
            final(self).wf(),
    {
        self.count = self.count + 1;
    }

    /// Returns a permit; with no holders it changes nothing.
    pub fn release(&mut self)
        requires
            old(self).wf(),
        ensures
            final(self).max == old(self).max,
            final(self).count == if old(self).count > 0 {
                old(self).count - 1
            } else {
                0int
            },
            final(self).wf(),
    {
        if self.count > 0 {
            self.count = self.count - 1;
        }
    }
}

} // verus!
