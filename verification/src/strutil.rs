//! Verified string helpers: character access, trimming, line splitting,
//! substring search, decimal rendering, and the small lexical rules the
//! rest of the library is specified with.

use vstd::prelude::*;

verus! {

/// Whitespace as this library understands it: the ASCII blanks that occur
/// in the tool's inputs (command output and file listings).
pub open spec fn is_space_char(c: char) -> bool {
    c == ' ' || c == '\t' || c == '\r' || c == '\n'
}

/// Executable twin of [`is_space_char`].
pub fn is_space(c: char) -> (r: bool)
    ensures
        r == is_space_char(c),
{
    c == ' ' || c == '\t' || c == '\r' || c == '\n'
}

/// Relies on `String::push`: appends exactly one character to the string.
#[verifier::external_body]
pub fn push_char(s: &mut String, c: char)
    ensures
        final(s)@ == old(s)@ + seq![c],
{
    s.push(c);
}

/// The characters of a string slice, as a vector.
pub fn chars_vec(s: &str) -> (r: Vec<char>)
    ensures
        r@ == s@,
{
    let n = s.unicode_len();
    let mut r: Vec<char> = Vec::new();
    let mut i: usize = 0;
    while i < n
        invariant
            n == s@.len(),
            i <= n,
            r@ == s@.subrange(0, i as int),
        decreases n - i,
    {
        r.push(s.get_char(i));
        i = i + 1;
        proof {
            assert(r@ =~= s@.subrange(0, i as int));
        }
    }
    proof {
        assert(r@ =~= s@);
    }
    r
}

/// A string with the given characters.
pub fn string_from_chars(cs: &Vec<char>) -> (r: String)
    ensures
        r@ == cs@,
{
    let mut r = String::new();
    let mut i: usize = 0;
    while i < cs.len()
        invariant
            i <= cs@.len(),
            r@ == cs@.subrange(0, i as int),
        decreases cs@.len() - i,
    {
        push_char(&mut r, cs[i]);
        i = i + 1;
        proof {
            assert(r@ =~= cs@.subrange(0, i as int));
        }
    }
    proof {
        assert(r@ =~= cs@);
    }
    r
}

/// Index of the first position at or after `i` where `pat` occurs in `text`,
/// if any.
pub open spec fn find_from(text: Seq<char>, pat: Seq<char>, i: int) -> Option<int>
    decreases text.len() - i,
{
    if i < 0 || i + pat.len() > text.len() {
        None
    } else if pat.len() == 0 {
        Some(i)
    } else if text.subrange(i, i + pat.len() as int) == pat {
        Some(i)
    } else {
        find_from(text, pat, i + 1)
    }
}

pub proof fn lemma_find_from_some(text: Seq<char>, pat: Seq<char>, i: int)
    requires
        find_from(text, pat, i) is Some,
    ensures
        i <= find_from(text, pat, i)->Some_0,
        find_from(text, pat, i)->Some_0 + pat.len() <= text.len(),
        text.subrange(
            find_from(text, pat, i)->Some_0,
            find_from(text, pat, i)->Some_0 + pat.len() as int,
        ) == pat,
    decreases text.len() - i,
{
    if i < 0 || i + pat.len() > text.len() {
    } else if pat.len() == 0 {
        assert(text.subrange(i, i) =~= pat);
    } else if text.subrange(i, i + pat.len() as int) == pat {
    } else {
        lemma_find_from_some(text, pat, i + 1);
    }
}

/// First occurrence of `pat` in `text`, by character index.
pub fn find_sub(text: &Vec<char>, pat: &Vec<char>) -> (r: Option<usize>)
    ensures
        match r {
            Some(i) => find_from(text@, pat@, 0) == Some(i as int),
            None => find_from(text@, pat@, 0) is None,
        },
{
    if pat.len() > text.len() {
        return None;
    }
    if pat.len() == 0 {
        return Some(0);
    }
    let n: usize = text.len();
    let limit: usize = n - pat.len();
    let mut i: usize = 0;
    loop
        invariant
            n == text@.len(),
            0 < pat@.len() <= text@.len(),
            limit == text@.len() - pat@.len(),
            i <= limit + 1,
            find_from(text@, pat@, 0) == find_from(text@, pat@, i as int),
        decreases limit + 1 - i,
    {
        if i > limit {
            return None;
        }
        let mut j: usize = 0;
        let mut matches: bool = true;
        while j < pat.len()
            invariant
                n == text@.len(),
                0 < pat@.len() <= text@.len(),
                i + pat@.len() <= text@.len(),
                j <= pat@.len(),
                matches ==> text@.subrange(i as int, i + j) =~= pat@.subrange(0, j as int),
                !matches ==> text@.subrange(i as int, i + pat@.len() as int) != pat@,
            decreases pat@.len() - j,
        {
            if text[i + j] != pat[j] {
                proof {
                    assert(text@.subrange(i as int, i + pat@.len() as int)[j as int]
                        != pat@[j as int]);
                }
                matches = false;
                j = pat.len();
            } else {
                proof {
                    if matches {
                        assert(text@.subrange(i as int, i + j + 1) =~= text@.subrange(
                            i as int,
                            i + j,
                        ).push(text@[i + j]));
                        assert(pat@.subrange(0, j + 1) =~= pat@.subrange(0, j as int).push(
                            pat@[j as int],
                        ));
                    }
                }
                j = j + 1;
            }
        }
        if matches {
            proof {
                assert(text@.subrange(i as int, i + pat@.len() as int) =~= pat@);
            }
            return Some(i);
        }
        i = i + 1;
    }
}

/// `text` with the range `[i, i + k)` removed.
pub open spec fn splice_out(text: Seq<char>, i: int, k: int) -> Seq<char> {
    text.subrange(0, i) + text.subrange(i + k, text.len() as int)
}

/// Removes `count` characters of `text` starting at `start`.
pub fn remove_span(text: &Vec<char>, start: usize, count: usize) -> (r: Vec<char>)
    requires
        start + count <= text@.len(),
    ensures
        r@ == splice_out(text@, start as int, count as int),
{
    let n: usize = text.len();
    let mut r: Vec<char> = Vec::new();
    let mut i: usize = 0;
    while i < start
        invariant
            n == text@.len(),
            start + count <= text@.len(),
            i <= start,
            r@ == text@.subrange(0, i as int),
        decreases start - i,
    {
        r.push(text[i]);
        i = i + 1;
        proof {
            assert(r@ =~= text@.subrange(0, i as int));
        }
    }
    let mut j: usize = start + count;
    while j < text.len()
        invariant
            n == text@.len(),
            start + count <= text@.len(),
            start + count <= j <= text@.len(),
            r@ == text@.subrange(0, start as int) + text@.subrange(start + count, j as int),
        decreases text@.len() - j,
    {
        r.push(text[j]);
        j = j + 1;
        proof {
            assert(r@ =~= text@.subrange(0, start as int) + text@.subrange(
                start + count,
                j as int,
            ));
        }
    }
    proof {
        assert(r@ =~= splice_out(text@, start as int, count as int));
    }
    r
}

/// Number of leading characters of `s` that are whitespace.
pub open spec fn leading_spaces(s: Seq<char>) -> int
    decreases s.len(),
{
    if s.len() == 0 || !is_space_char(s[0]) {
        0
    } else {
        1 + leading_spaces(s.subrange(1, s.len() as int))
    }
}

/// Number of trailing characters of `s` that are whitespace.
pub open spec fn trailing_spaces(s: Seq<char>) -> int
    decreases s.len(),
{
    if s.len() == 0 || !is_space_char(s.last()) {
        0
    } else {
        1 + trailing_spaces(s.drop_last())
    }
}

/// `s` with leading and trailing whitespace removed; empty when `s` is all
/// whitespace.
pub open spec fn trimmed(s: Seq<char>) -> Seq<char> {
    if leading_spaces(s) + trailing_spaces(s) >= s.len() {
        Seq::empty()
    } else {
        s.subrange(leading_spaces(s), s.len() - trailing_spaces(s))
    }
}

pub proof fn lemma_leading_spaces_bound(s: Seq<char>)
    ensures
        0 <= leading_spaces(s) <= s.len(),
        forall|i: int| 0 <= i < leading_spaces(s) ==> is_space_char(s[i]),
        leading_spaces(s) < s.len() ==> !is_space_char(s[leading_spaces(s)]),
    decreases s.len(),
{
    if s.len() == 0 || !is_space_char(s[0]) {
    } else {
        lemma_leading_spaces_bound(s.subrange(1, s.len() as int));
        assert forall|i: int| 0 <= i < leading_spaces(s) implies is_space_char(s[i]) by {
            if i > 0 {
                assert(s.subrange(1, s.len() as int)[i - 1] == s[i]);
            }
        }
        if leading_spaces(s) < s.len() {
            assert(s.subrange(1, s.len() as int)[leading_spaces(s) - 1] == s[leading_spaces(s)]);
        }
    }
}

pub proof fn lemma_trailing_spaces_bound(s: Seq<char>)
    ensures
        0 <= trailing_spaces(s) <= s.len(),
        forall|i: int| s.len() - trailing_spaces(s) <= i < s.len() ==> is_space_char(s[i]),
        trailing_spaces(s) < s.len() ==> !is_space_char(s[s.len() - trailing_spaces(s) - 1]),
    decreases s.len(),
{
    if s.len() == 0 || !is_space_char(s.last()) {
    } else {
        lemma_trailing_spaces_bound(s.drop_last());
        assert forall|i: int| s.len() - trailing_spaces(s) <= i < s.len() implies is_space_char(
            s[i],
        ) by {
            if i < s.len() - 1 {
                assert(s.drop_last()[i] == s[i]);
            }
        }
        if trailing_spaces(s) < s.len() {
            assert(s.drop_last()[s.len() - trailing_spaces(s) - 1] == s[s.len() - trailing_spaces(
                s,
            ) - 1]);
        }
    }
}

/// Trims whitespace from both ends of a character vector.
pub fn trim_chars(text: &Vec<char>) -> (r: Vec<char>)
    ensures
        r@ == trimmed(text@),
{
    proof {
        lemma_leading_spaces_bound(text@);
        lemma_trailing_spaces_bound(text@);
    }
    let mut lo: usize = 0;
    while lo < text.len() && is_space(text[lo])
        invariant
            lo <= text@.len(),
            forall|i: int| 0 <= i < lo ==> is_space_char(text@[i]),
            lo <= leading_spaces(text@),
        decreases text@.len() - lo,
    {
        proof {
            lemma_leading_spaces_bound(text@);
            if leading_spaces(text@) == lo {
                assert(!is_space_char(text@[lo as int]));
            }
        }
        lo = lo + 1;
    }
    proof {
        lemma_leading_spaces_bound(text@);
        if lo < leading_spaces(text@) {
            assert(is_space_char(text@[lo as int]));
        }
        assert(lo == leading_spaces(text@));
    }
    if lo == text.len() {
        let r: Vec<char> = Vec::new();
        proof {
            lemma_trailing_spaces_bound(text@);
            assert(r@ =~= trimmed(text@));
        }
        return r;
    }
    let mut k: usize = 0;
    while k < text.len() && is_space(text[text.len() - 1 - k])
        invariant
            lo == leading_spaces(text@),
            lo < text@.len(),
            k <= text@.len(),
            forall|i: int| text@.len() - k <= i < text@.len() ==> is_space_char(text@[i]),
            k <= trailing_spaces(text@),
        decreases text@.len() - k,
    {
        proof {
            lemma_trailing_spaces_bound(text@);
            if trailing_spaces(text@) == k {
                assert(!is_space_char(text@[text@.len() - 1 - k]));
            }
        }
        k = k + 1;
    }
    proof {
        lemma_trailing_spaces_bound(text@);
        if k < trailing_spaces(text@) {
            assert(is_space_char(text@[text@.len() - 1 - k]));
        }
        assert(k == trailing_spaces(text@));
        lemma_leading_spaces_bound(text@);
        assert(!is_space_char(text@[lo as int]));
        if text@.len() - k <= lo {
            assert(is_space_char(text@[lo as int]));
        }
    }
    let hi: usize = text.len() - k;
    let mut r: Vec<char> = Vec::new();
    let mut i: usize = lo;
    while i < hi
        invariant
            lo <= i <= hi <= text@.len(),
            r@ == text@.subrange(lo as int, i as int),
        decreases hi - i,
    {
        r.push(text[i]);
        i = i + 1;
        proof {
            assert(r@ =~= text@.subrange(lo as int, i as int));
        }
    }
    proof {
        assert(r@ =~= trimmed(text@));
    }
    r
}

/// Trims whitespace from both ends of a string.
pub fn trim_str(s: &str) -> (r: String)
    ensures
        r@ == trimmed(s@),
{
    let cs = chars_vec(s);
    let t = trim_chars(&cs);
    string_from_chars(&t)
}

/// Decimal digits of `n`, most significant first.
pub open spec fn dec_seq(n: nat) -> Seq<char>
    decreases n,
{
    if n < 10 {
        seq![dec_digit(n)]
    } else {
        dec_seq(n / 10).push(dec_digit(n % 10))
    }
}

/// The character for one decimal digit.
pub open spec fn dec_digit(d: nat) -> char {
    ((48 + d) as u8) as char
}

/// Appends the decimal rendering of `n`.
pub fn push_dec(out: &mut String, n: usize)
    ensures
        final(out)@ == old(out)@ + dec_seq(n as nat),
    decreases n,
{
    if n >= 10 {
        push_dec(out, n / 10);
    }
    let d: u8 = (n % 10) as u8;
    push_char(out, (48 + d) as char);
}

/// The decimal rendering of `n`.
pub fn usize_to_string(n: usize) -> (r: String)
    ensures
        r@ == dec_seq(n as nat),
{
    let mut r = String::new();
    push_dec(&mut r, n);
    r
}

/// Whether two character vectors hold the same characters.
pub fn eq_chars(a: &Vec<char>, b: &Vec<char>) -> (r: bool)
    ensures
        r == (a@ == b@),
{
    if a.len() != b.len() {
        return false;
    }
    let mut i: usize = 0;
    while i < a.len()
        invariant
            a@.len() == b@.len(),
            i <= a@.len(),
            forall|k: int| 0 <= k < i ==> a@[k] == b@[k],
        decreases a@.len() - i,
    {
        if a[i] != b[i] {
            return false;
        }
        i = i + 1;
    }
    proof {
        assert(a@ =~= b@);
    }
    true
}

/// Whether `text` begins with `prefix`.
pub open spec fn has_prefix(text: Seq<char>, prefix: Seq<char>) -> bool {
    text.len() >= prefix.len() && text.subrange(0, prefix.len() as int) == prefix
}

/// Executable prefix test.
pub fn starts_with_chars(text: &Vec<char>, prefix: &Vec<char>) -> (r: bool)
    ensures
        r == has_prefix(text@, prefix@),
{
    if prefix.len() > text.len() {
        return false;
    }
    let mut i: usize = 0;
    while i < prefix.len()
        invariant
            prefix@.len() <= text@.len(),
            i <= prefix@.len(),
            forall|k: int| 0 <= k < i ==> text@[k] == prefix@[k],
        decreases prefix@.len() - i,
    {
        if text[i] != prefix[i] {
            proof {
                assert(text@.subrange(0, prefix@.len() as int)[i as int] != prefix@[i as int]);
            }
            return false;
        }
        i = i + 1;
    }
    proof {
        assert(text@.subrange(0, prefix@.len() as int) =~= prefix@);
    }
    true
}

/// Whether the string `text` begins with the string `prefix`.
pub fn str_has_prefix(text: &str, prefix: &str) -> (r: bool)
    ensures
        r == has_prefix(text@, prefix@),
{
    let t = chars_vec(text);
    let p = chars_vec(prefix);
    starts_with_chars(&t, &p)
}

/// Whether `pat` occurs anywhere in `text`.
pub open spec fn contains_sub(text: Seq<char>, pat: Seq<char>) -> bool {
    find_from(text, pat, 0) is Some
}

/// Executable substring test.
pub fn str_contains(text: &str, pat: &str) -> (r: bool)
    ensures
        r == contains_sub(text@, pat@),
{
    let t = chars_vec(text);
    let p = chars_vec(pat);
    find_sub(&t, &p).is_some()
}

/// Index of the first occurrence of `c` in `s` at or after `i`, if any.
pub open spec fn find_char_from(s: Seq<char>, i: int, c: char) -> Option<int>
    decreases s.len() - i,
{
    if i < 0 || i >= s.len() {
        None
    } else if s[i] == c {
        Some(i)
    } else {
        find_char_from(s, i + 1, c)
    }
}

pub proof fn lemma_find_char_from_some(s: Seq<char>, i: int, c: char)
    requires
        find_char_from(s, i, c) is Some,
    ensures
        i <= find_char_from(s, i, c)->Some_0 < s.len(),
        s[find_char_from(s, i, c)->Some_0] == c,
        forall|k: int| i <= k < find_char_from(s, i, c)->Some_0 ==> s[k] != c,
    decreases s.len() - i,
{
    if i < 0 || i >= s.len() {
    } else if s[i] == c {
    } else {
        lemma_find_char_from_some(s, i + 1, c);
    }
}

/// Executable search for a single character.
pub fn find_char(cs: &Vec<char>, start: usize, c: char) -> (r: Option<usize>)
    requires
        start <= cs@.len(),
    ensures
        match r {
            Some(i) => find_char_from(cs@, start as int, c) == Some(i as int),
            None => find_char_from(cs@, start as int, c) is None,
        },
{
    let mut i: usize = start;
    while i < cs.len()
        invariant
            start <= i <= cs@.len(),
            find_char_from(cs@, start as int, c) == find_char_from(cs@, i as int, c),
        decreases cs@.len() - i,
    {
        if cs[i] == c {
            return Some(i);
        }
        i = i + 1;
    }
    None
}

/// A line as it is reported: without the terminating newline, and without a
/// carriage return just before that newline.
pub open spec fn strip_cr(l: Seq<char>) -> Seq<char> {
    if l.len() > 0 && l.last() == '\r' {
        l.drop_last()
    } else {
        l
    }
}

/// The lines of `s`: split at `'\n'`, each line stripped of one trailing
/// `'\r'`, with no entry for a final line terminator.
pub open spec fn lines_spec(s: Seq<char>) -> Seq<Seq<char>>
    decreases s.len(),
{
    if s.len() == 0 {
        Seq::empty()
    } else {
        match find_char_from(s, 0, '\n') {
            Some(i) => if 0 <= i < s.len() {
                seq![strip_cr(s.subrange(0, i))] + lines_spec(s.subrange(i + 1, s.len() as int))
            } else {
                seq![s]
            },
            None => seq![s],
        }
    }
}

proof fn lemma_find_char_sub(t: Seq<char>, c: char, k: int, j: int)
    requires
        0 <= k,
        0 <= j,
        k + j <= t.len(),
    ensures
        find_char_from(t, k + j, c) == match find_char_from(
            t.subrange(k, t.len() as int),
            j,
            c,
        ) {
            Some(i) => Some(i + k),
            None => None::<int>,
        },
    decreases t.len() - k - j,
{
    let suffix = t.subrange(k, t.len() as int);
    if k + j == t.len() {
    } else if t[k + j] == c {
        assert(suffix[j] == c);
    } else {
        assert(suffix[j] != c);
        lemma_find_char_sub(t, c, k, j + 1);
    }
}

proof fn lemma_find_char_from_suffix(s: Seq<char>, pos: int, c: char)
    requires
        0 <= pos <= s.len(),
    ensures
        match find_char_from(s, pos, c) {
            Some(i) => find_char_from(s.subrange(pos, s.len() as int), 0, c) == Some(i - pos),
            None => find_char_from(s.subrange(pos, s.len() as int), 0, c) is None,
        },
{
    lemma_find_char_sub(s, c, pos, 0);
}

/// Splits a string into its lines.
pub fn split_lines(s: &str) -> (r: Vec<String>)
    ensures
        r.deep_view() == lines_spec(s@),
{
    let cs = chars_vec(s);
    let n: usize = cs.len();
    let mut out: Vec<String> = Vec::new();
    let mut pos: usize = 0;
    proof {
        assert(cs@.subrange(0, n as int) =~= s@);
        assert(out.deep_view() =~= Seq::<Seq<char>>::empty());
    }
    while pos < n
        invariant
            n == cs@.len(),
            cs@ == s@,
            pos <= n,
            lines_spec(s@) =~= out.deep_view() + lines_spec(cs@.subrange(pos as int, n as int)),
        decreases n - pos,
    {
        let ghost rest = cs@.subrange(pos as int, n as int);
        match find_char(&cs, pos, '\n') {
            Some(j) => {
                proof {
                    lemma_find_char_from_some(cs@, pos as int, '\n');
                    lemma_find_char_from_suffix(cs@, pos as int, '\n');
                }
                let mut line: Vec<char> = Vec::new();
                let mut i: usize = pos;
                let stop: usize = if j > pos && cs[j - 1] == '\r' {
                    j - 1
                } else {
                    j
                };
                while i < stop
                    invariant
                        pos <= i <= stop <= cs@.len(),
                        line@ == cs@.subrange(pos as int, i as int),
                    decreases stop - i,
                {
                    line.push(cs[i]);
                    i = i + 1;
                    proof {
                        assert(line@ =~= cs@.subrange(pos as int, i as int));
                    }
                }
                proof {
                    assert(rest.subrange(0, j - pos) =~= cs@.subrange(pos as int, j as int));
                    assert(strip_cr(rest.subrange(0, j - pos)) =~= line@);
                    assert(rest.subrange(j - pos + 1, rest.len() as int) =~= cs@.subrange(
                        j + 1,
                        n as int,
                    ));
                }
                out.push(string_from_chars(&line));
                pos = j + 1;
                proof {
                    assert(out.deep_view() =~= out.deep_view().drop_last().push(line@));
                    assert(lines_spec(s@) =~= out.deep_view() + lines_spec(
                        cs@.subrange(pos as int, n as int),
                    ));
                }
            },
            None => {
                proof {
                    lemma_find_char_from_suffix(cs@, pos as int, '\n');
                }
                let mut line: Vec<char> = Vec::new();
                let mut i: usize = pos;
                while i < n
                    invariant
                        pos <= i <= n <= cs@.len(),
                        line@ == cs@.subrange(pos as int, i as int),
                    decreases n - i,
                {
                    line.push(cs[i]);
                    i = i + 1;
                    proof {
                        assert(line@ =~= cs@.subrange(pos as int, i as int));
                    }
                }
                out.push(string_from_chars(&line));
                proof {
                    assert(line@ =~= rest);
                    assert(out.deep_view() =~= out.deep_view().drop_last().push(rest));
                    assert(lines_spec(s@) =~= out.deep_view() + lines_spec(
                        cs@.subrange(n as int, n as int),
                    ));
                }
                pos = n;
            },
        }
    }
    proof {
        assert(cs@.subrange(n as int, n as int) =~= Seq::<char>::empty());
        assert(lines_spec(s@) =~= out.deep_view());
    }
    out
}

/// Index of the first whitespace character at or after `i`, if any.
pub open spec fn find_space_from(s: Seq<char>, i: int) -> Option<int>
    decreases s.len() - i,
{
    if i < 0 || i >= s.len() {
        None
    } else if is_space_char(s[i]) {
        Some(i)
    } else {
        find_space_from(s, i + 1)
    }
}

pub proof fn lemma_find_space_from_some(s: Seq<char>, i: int)
    requires
        find_space_from(s, i) is Some,
    ensures
        i <= find_space_from(s, i)->Some_0 < s.len(),
        is_space_char(s[find_space_from(s, i)->Some_0]),
        forall|k: int| i <= k < find_space_from(s, i)->Some_0 ==> !is_space_char(s[k]),
    decreases s.len() - i,
{
    if i < 0 || i >= s.len() {
    } else if is_space_char(s[i]) {
    } else {
        lemma_find_space_from_some(s, i + 1);
    }
}

proof fn lemma_find_space_sub(t: Seq<char>, k: int, j: int)
    requires
        0 <= k,
        0 <= j,
        k + j <= t.len(),
    ensures
        find_space_from(t, k + j) == match find_space_from(t.subrange(k, t.len() as int), j) {
            Some(i) => Some(i + k),
            None => None::<int>,
        },
    decreases t.len() - k - j,
{
    let suffix = t.subrange(k, t.len() as int);
    if k + j == t.len() {
    } else if is_space_char(t[k + j]) {
        assert(is_space_char(suffix[j]));
    } else {
        assert(!is_space_char(suffix[j]));
        lemma_find_space_sub(t, k, j + 1);
    }
}

proof fn lemma_find_space_some_of_witness(s: Seq<char>, i: int, w: int)
    requires
        0 <= i <= w < s.len(),
        is_space_char(s[w]),
    ensures
        find_space_from(s, i) is Some,
    decreases w - i,
{
    if !is_space_char(s[i]) {
        lemma_find_space_some_of_witness(s, i + 1, w);
    }
}

/// The whitespace-separated fields of `s`, in order.
pub open spec fn fields_spec(s: Seq<char>) -> Seq<Seq<char>>
    decreases s.len(),
{
    if s.len() == 0 {
        Seq::empty()
    } else if is_space_char(s[0]) {
        fields_spec(s.subrange(1, s.len() as int))
    } else {
        match find_space_from(s, 0) {
            Some(i) => if 0 < i < s.len() {
                seq![s.subrange(0, i)] + fields_spec(s.subrange(i, s.len() as int))
            } else {
                seq![s]
            },
            None => seq![s],
        }
    }
}

/// Splits a string at runs of whitespace.
pub fn split_fields(s: &str) -> (r: Vec<String>)
    ensures
        r.deep_view() == fields_spec(s@),
{
    let cs = chars_vec(s);
    let n: usize = cs.len();
    let mut out: Vec<String> = Vec::new();
    let mut pos: usize = 0;
    proof {
        assert(cs@.subrange(0, n as int) =~= s@);
        assert(out.deep_view() =~= Seq::<Seq<char>>::empty());
    }
    while pos < n
        invariant
            n == cs@.len(),
            cs@ == s@,
            pos <= n,
            fields_spec(s@) =~= out.deep_view() + fields_spec(cs@.subrange(pos as int, n as int)),
        decreases n - pos,
    {
        let ghost rest = cs@.subrange(pos as int, n as int);
        if is_space(cs[pos]) {
            proof {
                assert(rest[0] == cs@[pos as int]);
                assert(rest.subrange(1, rest.len() as int) =~= cs@.subrange(pos + 1, n as int));
            }
            pos = pos + 1;
        } else {
            let mut stop: usize = pos;
            while stop < n && !is_space(cs[stop])
                invariant
                    pos <= stop <= n,
                    n == cs@.len(),
                    forall|k: int| pos <= k < stop ==> !is_space_char(cs@[k]),
                decreases n - stop,
            {
                stop = stop + 1;
            }
            let mut word: Vec<char> = Vec::new();
            let mut i: usize = pos;
            while i < stop
                invariant
                    pos <= i <= stop <= cs@.len(),
                    word@ == cs@.subrange(pos as int, i as int),
                decreases stop - i,
            {
                word.push(cs[i]);
                i = i + 1;
                proof {
                    assert(word@ =~= cs@.subrange(pos as int, i as int));
                }
            }
            proof {
                assert(!is_space_char(rest[0]));
                if stop < n {
                    assert(is_space_char(cs@[stop as int]));
                    assert(find_space_from(cs@, pos as int) == Some(stop as int)) by {
                        if find_space_from(cs@, pos as int) is Some {
                            lemma_find_space_from_some(cs@, pos as int);
                            let w = find_space_from(cs@, pos as int)->Some_0;
                            if w < stop {
                                assert(!is_space_char(cs@[w]));
                            }
                            if w > stop {
                                assert(!is_space_char(cs@[stop as int]));
                            }
                        } else {
                            lemma_find_space_some_of_witness(cs@, pos as int, stop as int);
                        }
                    }
                    lemma_find_space_sub(cs@, pos as int, 0);
                    assert(rest =~= cs@.subrange(pos as int, cs@.len() as int));
                    assert(find_space_from(rest, 0) == Some(stop - pos));
                    assert(rest.subrange(0, stop - pos) =~= word@);
                    assert(rest.subrange(stop - pos, rest.len() as int) =~= cs@.subrange(
                        stop as int,
                        n as int,
                    ));
                } else {
                    assert(find_space_from(rest, 0) is None) by {
                        if find_space_from(rest, 0) is Some {
                            lemma_find_space_from_some(rest, 0);
                            let w = find_space_from(rest, 0)->Some_0;
                            assert(rest[w] == cs@[pos + w]);
                            assert(!is_space_char(cs@[pos + w]));
                        }
                    }
                    assert(word@ =~= rest);
                }
            }
            out.push(string_from_chars(&word));
            proof {
                assert(out.deep_view() =~= out.deep_view().drop_last().push(word@));
                assert(fields_spec(s@) =~= out.deep_view() + fields_spec(
                    cs@.subrange(stop as int, n as int),
                ));
            }
            pos = stop;
        }
    }
    proof {
        assert(cs@.subrange(n as int, n as int) =~= Seq::<char>::empty());
        assert(fields_spec(s@) =~= out.deep_view());
    }
    out
}

/// Index of the last position where `pat` occurs in `text` at or before
/// `i`, if any.
pub open spec fn find_last_at(text: Seq<char>, pat: Seq<char>, i: int) -> Option<int>
    decreases i + 1,
{
    if i < 0 {
        None
    } else if i + pat.len() <= text.len() && text.subrange(i, i + pat.len() as int) == pat {
        Some(i)
    } else {
        find_last_at(text, pat, i - 1)
    }
}

pub proof fn lemma_find_last_some(text: Seq<char>, pat: Seq<char>, i: int)
    requires
        find_last_at(text, pat, i) is Some,
    ensures
        0 <= find_last_at(text, pat, i)->Some_0 <= i,
        find_last_at(text, pat, i)->Some_0 + pat.len() <= text.len(),
        text.subrange(
            find_last_at(text, pat, i)->Some_0,
            find_last_at(text, pat, i)->Some_0 + pat.len() as int,
        ) == pat,
    decreases i + 1,
{
    if i < 0 {
    } else if i + pat.len() <= text.len() && text.subrange(i, i + pat.len() as int) == pat {
    } else {
        lemma_find_last_some(text, pat, i - 1);
    }
}

/// Last occurrence of `pat` in `text`, by character index.
pub fn find_last(text: &Vec<char>, pat: &Vec<char>) -> (r: Option<usize>)
    requires
        pat@.len() > 0,
    ensures
        match r {
            Some(i) => find_last_at(text@, pat@, text@.len() - pat@.len()) == Some(i as int),
            None => find_last_at(text@, pat@, text@.len() - pat@.len()) is None,
        },
{
    if pat.len() > text.len() {
        proof {
            lemma_find_last_none_short(text@, pat@, text@.len() - pat@.len());
        }
        return None;
    }
    let n: usize = text.len();
    let mut i: usize = n - pat.len();
    loop
        invariant
            n == text@.len(),
            0 < pat@.len() <= text@.len(),
            i <= text@.len() - pat@.len(),
            find_last_at(text@, pat@, text@.len() - pat@.len()) == find_last_at(
                text@,
                pat@,
                i as int,
            ),
        decreases i + 1,
    {
        let mut j: usize = 0;
        let mut matches: bool = true;
        while j < pat.len()
            invariant
                n == text@.len(),
                0 < pat@.len() <= text@.len(),
                i + pat@.len() <= text@.len(),
                j <= pat@.len(),
                matches ==> text@.subrange(i as int, i + j) =~= pat@.subrange(0, j as int),
                !matches ==> text@.subrange(i as int, i + pat@.len() as int) != pat@,
            decreases pat@.len() - j,
        {
            if text[i + j] != pat[j] {
                proof {
                    assert(text@.subrange(i as int, i + pat@.len() as int)[j as int]
                        != pat@[j as int]);
                }
                matches = false;
                j = pat.len();
            } else {
                proof {
                    if matches {
                        assert(text@.subrange(i as int, i + j + 1) =~= text@.subrange(
                            i as int,
                            i + j,
                        ).push(text@[i + j]));
                        assert(pat@.subrange(0, j + 1) =~= pat@.subrange(0, j as int).push(
                            pat@[j as int],
                        ));
                    }
                }
                j = j + 1;
            }
        }
        if matches {
            proof {
                assert(text@.subrange(i as int, i + pat@.len() as int) =~= pat@);
            }
            return Some(i);
        }
        if i == 0 {
            proof {
                assert(find_last_at(text@, pat@, -1) is None);
                assert(find_last_at(text@, pat@, 0) is None);
            }
            return None;
        }
        i = i - 1;
    }
}

proof fn lemma_find_last_none_short(text: Seq<char>, pat: Seq<char>, i: int)
    requires
        pat.len() > text.len(),
    ensures
        find_last_at(text, pat, i) is None,
    decreases i + 1,
{
    if i >= 0 {
        lemma_find_last_none_short(text, pat, i - 1);
    }
}

/// Whether two string slices hold the same characters.
pub fn str_eq(a: &str, b: &str) -> (r: bool)
    ensures
        r == (a@ == b@),
{
    let ca = chars_vec(a);
    let cb = chars_vec(b);
    eq_chars(&ca, &cb)
}

/// Lexicographic order on character sequences, by code point.
pub open spec fn lex_le(a: Seq<char>, b: Seq<char>) -> bool
    decreases a.len(),
{
    if a.len() == 0 {
        true
    } else if b.len() == 0 {
        false
    } else if a[0] != b[0] {
        (a[0] as u32) < (b[0] as u32)
    } else {
        lex_le(a.subrange(1, a.len() as int), b.subrange(1, b.len() as int))
    }
}

/// Any two sequences are ordered one way or the other.
pub proof fn lemma_lex_le_total(a: Seq<char>, b: Seq<char>)
    ensures
        lex_le(a, b) || lex_le(b, a),
    decreases a.len(),
{
    if a.len() == 0 || b.len() == 0 {
    } else if a[0] != b[0] {
        assert((a[0] as u32) != (b[0] as u32)) by {
            lemma_char_cast_injective(a[0], b[0]);
        }
    } else {
        lemma_lex_le_total(a.subrange(1, a.len() as int), b.subrange(1, b.len() as int));
    }
}

/// Distinct characters have distinct code points.
proof fn lemma_char_cast_injective(x: char, y: char)
    requires
        x != y,
    ensures
        (x as u32) != (y as u32),
{
    if (x as u32) == (y as u32) {
        assert(x == y) by {
            assert(x as u32 as char == x);
            assert(y as u32 as char == y);
        }
    }
}

/// The order is transitive.
pub proof fn lemma_lex_le_trans(a: Seq<char>, b: Seq<char>, c: Seq<char>)
    requires
        lex_le(a, b),
        lex_le(b, c),
    ensures
        lex_le(a, c),
    decreases a.len(),
{
    if a.len() == 0 {
    } else if b.len() == 0 {
    } else if c.len() == 0 {
    } else {
        if a[0] == b[0] && b[0] == c[0] {
            lemma_lex_le_trans(
                a.subrange(1, a.len() as int),
                b.subrange(1, b.len() as int),
                c.subrange(1, c.len() as int),
            );
        }
    }
}

/// Compares two strings in lexicographic order.
pub fn str_le(a: &str, b: &str) -> (r: bool)
    ensures
        r == lex_le(a@, b@),
{
    let ca = chars_vec(a);
    let cb = chars_vec(b);
    let mut i: usize = 0;
    proof {
        assert(ca@.subrange(0, ca@.len() as int) =~= a@);
        assert(cb@.subrange(0, cb@.len() as int) =~= b@);
    }
    loop
        invariant
            ca@ == a@,
            cb@ == b@,
            i <= ca@.len(),
            i <= cb@.len(),
            lex_le(a@, b@) == lex_le(
                ca@.subrange(i as int, ca@.len() as int),
                cb@.subrange(i as int, cb@.len() as int),
            ),
        decreases ca@.len() - i,
    {
        let ghost sa = ca@.subrange(i as int, ca@.len() as int);
        let ghost sb = cb@.subrange(i as int, cb@.len() as int);
        if i >= ca.len() {
            proof {
                assert(sa.len() == 0);
            }
            return true;
        }
        if i >= cb.len() {
            proof {
                assert(sb.len() == 0 && sa.len() > 0);
            }
            return false;
        }
        proof {
            assert(sa[0] == ca@[i as int]);
            assert(sb[0] == cb@[i as int]);
            assert(sa.subrange(1, sa.len() as int) =~= ca@.subrange(i + 1, ca@.len() as int));
            assert(sb.subrange(1, sb.len() as int) =~= cb@.subrange(i + 1, cb@.len() as int));
        }
        let x = ca[i];
        let y = cb[i];
        if x != y {
            return (x as u32) < (y as u32);
        }
        i = i + 1;
    }
}

/// What `str::to_lowercase` returns; it depends on the characters alone.
pub uninterp spec fn lower_of(s: Seq<char>) -> Seq<char>;

/// Relies on `str::to_lowercase`: Unicode lowercasing, a function of the
/// characters alone.
#[verifier::external_body]
pub fn to_lower(s: &str) -> (r: String)
    ensures
        r@ == lower_of(s@),
        s@.len() == 0 ==> r@.len() == 0,
{
    s.to_lowercase()
}

} // verus!
