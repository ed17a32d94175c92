//! The version-control model: repository status records, commit
//! summaries, the staging list, the pull scheduler's event vocabulary,
//! and the per-repository action decision engine. Everything here decides
//! and formats; running the version-control executable happens outside
//! the library, which is handed the outputs as plain values.

use vstd::prelude::*;

use crate::config::{reg_item_like, RegItem};
use crate::strutil::{
    chars_vec, dec_seq, fields_spec, find_char_from, find_last, find_last_at, has_prefix,
    lemma_find_char_from_some, lower_of, push_dec, split_fields, split_lines, str_eq,
    str_has_prefix, string_from_chars, to_lower, trim_chars, trim_str, trimmed,
};
use crate::util::{unquoted_filename, unwrap_quotes_filename};

verus! {

/// The comparison of a local branch with its upstream, as one status probe
/// reports it.
pub struct BranchStatus {
    pub branch: String,
    pub rev: String,
    pub upstream: String,
    pub remote_rev: String,
    pub ahead: usize,
    pub behind: usize,
}

/// A row of the staging list: a section header or a file entry.
#[derive(Clone, Copy, PartialEq, Eq, Structural)]
pub enum GitItemKind {
    Header,
    Entry,
}

/// One row of the staging list.
pub struct GitItem {
    pub label: String,
    pub status: Option<String>,
    pub kind: GitItemKind,
    pub path: Option<String>,
}

/// The data a staging row holds, over character sequences.
pub ghost struct GitItemModel {
    pub label: Seq<char>,
    pub status: Option<Seq<char>>,
    pub header: bool,
    pub path: Option<Seq<char>>,
}

/// The model of one row.
pub open spec fn item_model(it: GitItem) -> GitItemModel {
    GitItemModel {
        label: it.label@,
        status: match it.status {
            Some(s) => Some(s@),
            None => None,
        },
        header: it.kind is Header,
        path: match it.path {
            Some(p) => Some(p@),
            None => None,
        },
    }
}

/// The models of a row list.
pub open spec fn models_of(v: Seq<GitItem>) -> Seq<GitItemModel> {
    v.map_values(|x: GitItem| item_model(x))
}

/// One repository's health, as the read-only status probe reports it.
pub struct RepoStatusInfo {
    pub branch: String,
    pub upstream: String,
    pub dirty: bool,
    pub ahead: usize,
    pub behind: usize,
}

/// The data of a health record, over plain values.
pub open spec fn info_model(i: RepoStatusInfo) -> (Seq<char>, Seq<char>, bool, int, int) {
    (i.branch@, i.upstream@, i.dirty, i.ahead as int, i.behind as int)
}

impl RepoStatusInfo {
    /// A copy of this record.
    pub fn clone_info(&self) -> (r: Self)
        ensures
            r == *self,
    {
        RepoStatusInfo {
            branch: self.branch.clone(),
            upstream: self.upstream.clone(),
            dirty: self.dirty,
            ahead: self.ahead,
            behind: self.behind,
        }
    }
}

/// The attention marker of a health record: `*` for a dirty tree, `+n`
/// commits ahead, `-n` commits behind, space-separated with one leading
/// space; empty when the repository is clean and in sync.
pub open spec fn status_marker(dirty: bool, ahead: int, behind: int) -> Seq<char> {
    let parts = (if dirty {
        seq![seq!['*']]
    } else {
        Seq::<Seq<char>>::empty()
    }) + (if ahead > 0 {
        seq![seq!['+'] + dec_seq(ahead as nat)]
    } else {
        Seq::<Seq<char>>::empty()
    }) + (if behind > 0 {
        seq![seq!['-'] + dec_seq(behind as nat)]
    } else {
        Seq::<Seq<char>>::empty()
    });
    if parts.len() == 0 {
        Seq::empty()
    } else {
        joined_with_spaces(parts)
    }
}

/// The given pieces, each preceded by one space.
pub open spec fn joined_with_spaces(parts: Seq<Seq<char>>) -> Seq<char>
    decreases parts.len(),
{
    if parts.len() == 0 {
        Seq::empty()
    } else {
        joined_with_spaces(parts.drop_last()) + seq![' '] + parts.last()
    }
}

impl RepoStatusInfo {
    /// Renders the attention marker for this record.
    pub fn format_status(&self) -> (r: String)
        ensures
            r@ == status_marker(self.dirty, self.ahead as int, self.behind as int),
    {
        let mut r = String::new();
        let mut any: bool = false;
        if self.dirty {
            r.append(" *");
            any = true;
        }
        if self.ahead > 0 {
            r.append(" +");
            push_dec(&mut r, self.ahead);
            any = true;
        }
        if self.behind > 0 {
            r.append(" -");
            push_dec(&mut r, self.behind);
            any = true;
        }
        proof {
            let parts = (if self.dirty {
                seq![seq!['*']]
            } else {
                Seq::<Seq<char>>::empty()
            }) + (if self.ahead > 0 {
                seq![seq!['+'] + dec_seq(self.ahead as nat)]
            } else {
                Seq::<Seq<char>>::empty()
            }) + (if self.behind > 0 {
                seq![seq!['-'] + dec_seq(self.behind as nat)]
            } else {
                Seq::<Seq<char>>::empty()
            });
            if parts.len() > 0 {
                assert(r@ =~= joined_with_spaces(parts)) by {
                    lemma_join_small(parts);
                    reveal_strlit(" *");
                    reveal_strlit(" +");
                    reveal_strlit(" -");
                    assert(" *"@ =~= seq![' ', '*']);
                    assert(" +"@ =~= seq![' ', '+']);
                    assert(" -"@ =~= seq![' ', '-']);
                }
            } else {
                assert(r@ =~= Seq::<char>::empty());
            }
        }
        r
    }
}

proof fn lemma_join_small(parts: Seq<Seq<char>>)
    requires
        1 <= parts.len() <= 3,
    ensures
        parts.len() == 1 ==> joined_with_spaces(parts) == seq![' '] + parts[0],
        parts.len() == 2 ==> joined_with_spaces(parts) == seq![' '] + parts[0] + seq![' ']
            + parts[1],
        parts.len() == 3 ==> joined_with_spaces(parts) == seq![' '] + parts[0] + seq![' ']
            + parts[1] + seq![' '] + parts[2],
{
    if parts.len() == 1 {
        assert(parts.drop_last().len() == 0);
        assert(joined_with_spaces(parts.drop_last()) =~= Seq::<char>::empty());
        assert(parts.last() == parts[0]);
        assert(joined_with_spaces(parts) =~= seq![' '] + parts[0]);
    } else if parts.len() == 2 {
        assert(parts.drop_last().drop_last().len() == 0);
        assert(joined_with_spaces(parts.drop_last().drop_last()) =~= Seq::<char>::empty());
        assert(parts.drop_last().last() == parts[0]);
        assert(parts.last() == parts[1]);
        assert(joined_with_spaces(parts.drop_last()) =~= seq![' '] + parts[0]);
        assert(joined_with_spaces(parts) =~= seq![' '] + parts[0] + seq![' '] + parts[1]);
    } else if parts.len() == 3 {
        assert(parts.drop_last().drop_last().drop_last().len() == 0);
        assert(joined_with_spaces(parts.drop_last().drop_last().drop_last())
            =~= Seq::<char>::empty());
        assert(parts.drop_last().drop_last().last() == parts[0]);
        assert(parts.drop_last().last() == parts[1]);
        assert(parts.last() == parts[2]);
        assert(joined_with_spaces(parts.drop_last().drop_last()) =~= seq![' '] + parts[0]);
        assert(joined_with_spaces(parts.drop_last()) =~= seq![' '] + parts[0] + seq![' ']
            + parts[1]);
        assert(joined_with_spaces(parts) =~= seq![' '] + parts[0] + seq![' '] + parts[1]
            + seq![' '] + parts[2]);
    }
}

/// One commit, summarized for a history list.
pub struct CommitSummary {
    pub hash: String,
    pub author: String,
    pub date: String,
    pub subject: String,
}

impl Clone for CommitSummary {
    fn clone(&self) -> (r: Self)
        ensures
            r.hash@ == self.hash@,
            r.author@ == self.author@,
            r.date@ == self.date@,
            r.subject@ == self.subject@,
    {
        CommitSummary {
            hash: self.hash.clone(),
            author: self.author.clone(),
            date: self.date.clone(),
            subject: self.subject.clone(),
        }
    }
}

impl CommitSummary {
    /// The one-line list label: hash, date, author and subject, space
    /// separated.
    pub fn to_list_label(&self) -> (r: String)
        ensures
            r@ == self.hash@ + seq![' '] + self.date@ + seq![' '] + self.author@ + seq![' ']
                + self.subject@,
    {
        let mut r = self.hash.clone();
        r.append(" ");
        r.append(self.date.as_str());
        r.append(" ");
        r.append(self.author.as_str());
        r.append(" ");
        r.append(self.subject.as_str());
        proof {
            reveal_strlit(" ");
            assert(" "@ =~= seq![' ']);
            assert(r@ =~= self.hash@ + seq![' '] + self.date@ + seq![' '] + self.author@
                + seq![' '] + self.subject@);
        }
        r
    }
}

/// The abbreviated form of a commit hash: its first seven characters.
pub open spec fn short_hash_spec(h: Seq<char>) -> Seq<char> {
    if h.len() <= 7 {
        h
    } else {
        h.subrange(0, 7)
    }
}

/// Abbreviates a commit hash.
pub fn short_hash(hash: &str) -> (r: String)
    ensures
        r@ == short_hash_spec(hash@),
{
    let cs = chars_vec(hash);
    let mut out: Vec<char> = Vec::new();
    let mut i: usize = 0;
    while i < cs.len() && i < 7
        invariant
            i <= cs@.len(),
            i <= 7,
            out@ == cs@.subrange(0, i as int),
        decreases cs@.len() - i,
    {
        out.push(cs[i]);
        i = i + 1;
        proof {
            assert(out@ =~= cs@.subrange(0, i as int));
        }
    }
    proof {
        if cs@.len() <= 7 {
            assert(out@ =~= cs@);
        } else {
            assert(out@ =~= cs@.subrange(0, 7));
        }
    }
    string_from_chars(&out)
}

/// A commit message's display line: its first line, trimmed; a
/// placeholder when that is empty.
pub open spec fn first_line_spec(text: Seq<char>) -> Seq<char> {
    let ls = crate::strutil::lines_spec(text);
    if ls.len() == 0 {
        "< no message >"@
    } else {
        let t = trimmed(ls[0]);
        if t.len() == 0 {
            "< no message >"@
        } else {
            t
        }
    }
}

/// The display line of a commit message.
pub fn first_line(text: &str) -> (r: String)
    ensures
        r@ == first_line_spec(text@),
{
    let ls = split_lines(text);
    if ls.len() == 0 {
        return String::from_str("< no message >");
    }
    proof {
        assert(ls.deep_view()[0] == ls@[0]@);
    }
    let t = trim_str(ls[0].as_str());
    if t.as_str().unicode_len() == 0 {
        return String::from_str("< no message >");
    }
    t
}

/// One status event from a read-only probe.
pub struct StatusEvent {
    pub path: String,
    pub info: Option<RepoStatusInfo>,
}

/// One repository's pull record: where its task stands, and the captured
/// output lines.
pub struct RepoPullInfo {
    pub status: PullStatus,
    pub log: Vec<String>,
}

/// Where a pull task stands.
pub enum PullStatus {
    Pending,
    Running,
    Done { code: i32, message: Option<String> },
}

impl PullStatus {
    /// The four-character list tag of a state.
    pub fn label(&self) -> (r: &'static str)
        ensures
            self is Pending ==> r@ == "PEND"@,
            self is Running ==> r@ == "RUN"@,
            (self is Done && self->Done_code == 0) ==> r@ == "OK"@,
            (self is Done && self->Done_code != 0) ==> r@ == "ERR"@,
    {
        match self {
            PullStatus::Pending => "PEND",
            PullStatus::Running => "RUN",
            PullStatus::Done { code, .. } => {
                if *code == 0 {
                    "OK"
                } else {
                    "ERR"
                }
            },
        }
    }
}

/// One event out of a pull worker.
pub struct PullEvent {
    pub path: String,
    pub kind: PullEventKind,
}

/// What a pull worker reports: it started, it produced one output line,
/// or it finished with an exit code and an optional failure message.
pub enum PullEventKind {
    Started,
    Line(String),
    Finished(i32, Option<String>),
}

impl PullEvent {
    /// The event that a worker for `path` has begun.
    pub fn started(path: String) -> (r: Self)
        ensures
            r.path@ == path@,
            r.kind is Started,
    {
        PullEvent { path, kind: PullEventKind::Started }
    }

    /// The event that the worker for `path` finished with `code`,
    /// carrying its chosen failure message.
    pub fn finished(path: String, code: i32, message: Option<String>) -> (r: Self)
        ensures
            r.path@ == path@,
            r.kind is Finished,
            r.kind->Finished_0 == code,
            r.kind->Finished_1 == message,
    {
        PullEvent { path, kind: PullEventKind::Finished(code, message) }
    }
}

/// The last output line that announces an error: trimmed, non-empty, and
/// starting (without regard to case) with `error`.
pub open spec fn last_error_line(ls: Seq<Seq<char>>) -> Option<Seq<char>>
    decreases ls.len(),
{
    if ls.len() == 0 {
        None
    } else {
        let t = trimmed(ls.last());
        if t.len() > 0 && has_prefix(lower_of(t), "error"@) {
            Some(t)
        } else {
            last_error_line(ls.drop_last())
        }
    }
}

/// The last non-empty output line, trimmed.
pub open spec fn last_nonempty_line(ls: Seq<Seq<char>>) -> Option<Seq<char>>
    decreases ls.len(),
{
    if ls.len() == 0 {
        None
    } else {
        let t = trimmed(ls.last());
        if t.len() > 0 {
            Some(t)
        } else {
            last_nonempty_line(ls.drop_last())
        }
    }
}

/// The failure message a finished pull reports: nothing on success; on
/// failure, the last error-announcing output line if one was seen, else
/// the last non-empty line, else nothing.
pub open spec fn failure_message_spec(ls: Seq<Seq<char>>, code: int) -> Option<Seq<char>> {
    if code == 0 {
        None
    } else {
        match last_error_line(ls) {
            Some(e) => Some(e),
            None => last_nonempty_line(ls),
        }
    }
}

/// Chooses the failure message of a finished pull from its captured
/// output lines and exit code.
pub fn pull_failure_message(lines: &Vec<String>, code: i32) -> (r: Option<String>)
    ensures
        match r {
            Some(m) => failure_message_spec(lines.deep_view(), code as int) == Some(m@),
            None => failure_message_spec(lines.deep_view(), code as int) is None,
        },
{
    let ghost lv = lines.deep_view();
    let mut err_line: Option<String> = None;
    let mut last_line: Option<String> = None;
    let mut i: usize = 0;
    proof {
        assert(lv.subrange(0, 0) =~= Seq::<Seq<char>>::empty());
    }
    while i < lines.len()
        invariant
            lv == lines.deep_view(),
            lv.len() == lines@.len(),
            i <= lv.len(),
            match err_line {
                Some(m) => last_error_line(lv.subrange(0, i as int)) == Some(m@),
                None => last_error_line(lv.subrange(0, i as int)) is None,
            },
            match last_line {
                Some(m) => last_nonempty_line(lv.subrange(0, i as int)) == Some(m@),
                None => last_nonempty_line(lv.subrange(0, i as int)) is None,
            },
        decreases lv.len() - i,
    {
        let t = trim_str(lines[i].as_str());
        proof {
            assert(lv.subrange(0, i + 1).drop_last() =~= lv.subrange(0, i as int));
            assert(lv.subrange(0, i + 1).last() == lv[i as int]);
            assert(lv[i as int] == lines@[i as int]@);
        }
        if t.as_str().unicode_len() > 0 {
            let lt = to_lower(t.as_str());
            if str_has_prefix(lt.as_str(), "error") {
                err_line = Some(t.clone());
            }
            last_line = Some(t);
        }
        i = i + 1;
    }
    proof {
        assert(lv.subrange(0, lv.len() as int) =~= lv);
    }
    if code == 0 {
        return None;
    }
    match err_line {
        Some(e) => Some(e),
        None => last_line,
    }
}


/// The quoted invocation of the version-control tool in a given
/// directory.
pub fn git_cmd_at(root: &str, cmd: &str) -> (r: String)
    ensures
        r@ == "git -C \""@ + root@ + "\" "@ + cmd@,
{
    let mut r = String::from_str("git -C \"");
    r.append(root);
    r.append("\" ");
    r.append(cmd);
    proof {
        assert(r@ =~= "git -C \""@ + root@ + "\" "@ + cmd@);
    }
    r
}

/// The filename field of one status line: the text after the first space,
/// taking the right side of a rename arrow, unquoted; nothing when the
/// line has no space at all.
pub open spec fn file_last_name_spec(line: Seq<char>) -> Option<Seq<char>> {
    let text = trimmed(line);
    match find_char_from(text, 0, ' ') {
        None => None,
        Some(sp) => {
            let rest = trimmed(text.subrange(sp + 1, text.len() as int));
            match find_last_at(rest, seq![' ', '-', '>', ' '], rest.len() - 4) {
                Some(p) => Some(unquoted_filename(rest.subrange(p + 4, rest.len() as int))),
                None => Some(unquoted_filename(rest)),
            }
        },
    }
}

/// Extracts the filename a status line reports.
pub fn git_file_last_name(line: &str) -> (r: Option<String>)
    ensures
        match r {
            Some(f) => file_last_name_spec(line@) == Some(f@),
            None => file_last_name_spec(line@) is None,
        },
{
    let cs = chars_vec(line);
    let text = trim_chars(&cs);
    match crate::strutil::find_char(&text, 0, ' ') {
        None => None,
        Some(sp) => {
            let n: usize = text.len();
            proof {
                lemma_find_char_from_some(text@, 0, ' ');
                assert(sp < n);
            }
            let mut tail: Vec<char> = Vec::new();
            let mut i: usize = sp + 1;
            while i < text.len()
                invariant
                    sp + 1 <= i <= text@.len(),
                    tail@ == text@.subrange(sp + 1, i as int),
                decreases text@.len() - i,
            {
                tail.push(text[i]);
                i = i + 1;
                proof {
                    assert(tail@ =~= text@.subrange(sp + 1, i as int));
                }
            }
            proof {
                assert(tail@ =~= text@.subrange(sp + 1, text@.len() as int));
            }
            let rest = trim_chars(&tail);
            let mut arrow: Vec<char> = Vec::new();
            arrow.push(' ');
            arrow.push('-');
            arrow.push('>');
            arrow.push(' ');
            proof {
                assert(arrow@ =~= seq![' ', '-', '>', ' ']);
            }
            match find_last(&rest, &arrow) {
                Some(p) => {
                    let rn: usize = rest.len();
                    proof {
                        crate::strutil::lemma_find_last_some(rest@, arrow@, rest@.len() - 4);
                        assert(p + 4 <= rn);
                    }
                    let mut target: Vec<char> = Vec::new();
                    let mut k: usize = p + 4;
                    while k < rest.len()
                        invariant
                            p + 4 <= k <= rest@.len(),
                            target@ == rest@.subrange(p + 4, k as int),
                        decreases rest@.len() - k,
                    {
                        target.push(rest[k]);
                        k = k + 1;
                        proof {
                            assert(target@ =~= rest@.subrange(p + 4, k as int));
                        }
                    }
                    proof {
                        assert(target@ =~= rest@.subrange(p + 4, rest@.len() as int));
                    }
                    let ts = string_from_chars(&target);
                    Some(unwrap_quotes_filename(ts.as_str()))
                },
                None => {
                    let rs = string_from_chars(&rest);
                    Some(unwrap_quotes_filename(rs.as_str()))
                },
            }
        },
    }
}

/// The entries of the short status listing: each line of at least three
/// characters, paired with its two-character status code.
pub open spec fn status_entries(ls: Seq<Seq<char>>) -> Seq<(Seq<char>, Seq<char>)>
    decreases ls.len(),
{
    if ls.len() == 0 {
        Seq::empty()
    } else {
        status_entries(ls.drop_last()) + (if ls.last().len() >= 3 {
            seq![(ls.last(), ls.last().subrange(0, 2))]
        } else {
            Seq::<(Seq<char>, Seq<char>)>::empty()
        })
    }
}

/// Parses the short status output into lines paired with their status
/// codes.
pub fn status_file_list(out: &str) -> (r: Vec<(String, String)>)
    ensures
        r.deep_view() == status_entries(crate::strutil::lines_spec(out@)),
{
    let ls = split_lines(out);
    let ghost lv = ls.deep_view();
    let mut r: Vec<(String, String)> = Vec::new();
    let mut i: usize = 0;
    proof {
        assert(lv.subrange(0, 0) =~= Seq::<Seq<char>>::empty());
        assert(r.deep_view() =~= status_entries(lv.subrange(0, 0)));
    }
    while i < ls.len()
        invariant
            lv == ls.deep_view(),
            lv.len() == ls@.len(),
            i <= lv.len(),
            r.deep_view() == status_entries(lv.subrange(0, i as int)),
        decreases lv.len() - i,
    {
        proof {
            assert(lv.subrange(0, i + 1).drop_last() =~= lv.subrange(0, i as int));
            assert(lv.subrange(0, i + 1).last() == lv[i as int]);
            assert(lv[i as int] == ls@[i as int]@);
        }
        let line = &ls[i];
        let lcs = chars_vec(line.as_str());
        if lcs.len() >= 3 {
            let mut code: Vec<char> = Vec::new();
            code.push(lcs[0]);
            code.push(lcs[1]);
            proof {
                assert(code@ =~= lcs@.subrange(0, 2));
            }
            let ghost before = r.deep_view();
            r.push((line.clone(), string_from_chars(&code)));
            proof {
                assert(r.deep_view() =~= before.push((lv[i as int], lv[i as int].subrange(0, 2))));
                assert(status_entries(lv.subrange(0, i + 1)) =~= before.push(
                    (lv[i as int], lv[i as int].subrange(0, 2)),
                ));
            }
        } else {
            proof {
                assert(status_entries(lv.subrange(0, i + 1)) =~= r.deep_view());
            }
        }
        i = i + 1;
    }
    proof {
        assert(lv.subrange(0, lv.len() as int) =~= lv);
    }
    r
}

/// The model of a file entry row for one status line.
pub open spec fn entry_model(line: Seq<char>, status: Seq<char>) -> GitItemModel {
    GitItemModel {
        label: line,
        status: Some(status),
        header: false,
        path: file_last_name_spec(line),
    }
}

/// The model of a section header row.
pub open spec fn header_model(title: Seq<char>) -> GitItemModel {
    GitItemModel { label: title, status: None, header: true, path: None }
}

/// Whether a status code marks an untracked file.
pub open spec fn code_untracked(code: Seq<char>) -> bool {
    code == seq!['?', '?']
}

/// Whether a status code marks staged content.
pub open spec fn code_staged(code: Seq<char>) -> bool {
    !code_untracked(code) && code.len() >= 1 && code[0] != ' '
}

/// Whether a status code marks unstaged modification.
pub open spec fn code_modified(code: Seq<char>) -> bool {
    !code_untracked(code) && code.len() >= 2 && code[1] != ' '
}

/// The modified-file entries of a status list.
pub open spec fn modified_models(list: Seq<(Seq<char>, Seq<char>)>) -> Seq<GitItemModel>
    decreases list.len(),
{
    if list.len() == 0 {
        Seq::empty()
    } else {
        modified_models(list.drop_last()) + (if code_modified(list.last().1) {
            seq![entry_model(list.last().0, Seq::empty())]
        } else {
            Seq::<GitItemModel>::empty()
        })
    }
}

/// The untracked-file entries of a status list.
pub open spec fn untracked_models(list: Seq<(Seq<char>, Seq<char>)>) -> Seq<GitItemModel>
    decreases list.len(),
{
    if list.len() == 0 {
        Seq::empty()
    } else {
        untracked_models(list.drop_last()) + (if code_untracked(list.last().1) {
            seq![entry_model(list.last().0, seq!['?'])]
        } else {
            Seq::<GitItemModel>::empty()
        })
    }
}

/// The staged-file entries of a status list.
pub open spec fn staged_models(list: Seq<(Seq<char>, Seq<char>)>) -> Seq<GitItemModel>
    decreases list.len(),
{
    if list.len() == 0 {
        Seq::empty()
    } else {
        staged_models(list.drop_last()) + (if code_staged(list.last().1) {
            seq![entry_model(list.last().0, seq!['s'])]
        } else {
            Seq::<GitItemModel>::empty()
        })
    }
}

/// A section of the staging list: empty, or a header followed by its
/// entries.
pub open spec fn section_models(title: Seq<char>, items: Seq<GitItemModel>) -> Seq<GitItemModel> {
    if items.len() == 0 {
        Seq::empty()
    } else {
        seq![header_model(title)] + items
    }
}

/// The full staging list for a status listing: the modified, untracked
/// and staged sections, in that order, each present only when non-empty.
pub open spec fn git_items_model(list: Seq<(Seq<char>, Seq<char>)>) -> Seq<GitItemModel> {
    section_models("< Modified >"@, modified_models(list)) + section_models(
        "< Untracked >"@,
        untracked_models(list),
    ) + section_models("< Staged >"@, staged_models(list))
}

/// Builds the staging list from the parsed short status entries.
pub fn build_git_items(list: &Vec<(String, String)>) -> (r: Vec<GitItem>)
    ensures
        models_of(r@) == git_items_model(list.deep_view()),
{
    let ghost pairs = list.deep_view();
    let mut modified: Vec<GitItem> = Vec::new();
    let mut untracked: Vec<GitItem> = Vec::new();
    let mut staged: Vec<GitItem> = Vec::new();
    let mut i: usize = 0;
    proof {
        assert(pairs.subrange(0, 0) =~= Seq::<(Seq<char>, Seq<char>)>::empty());
        assert(models_of(modified@) =~= modified_models(pairs.subrange(0, 0)));
        assert(models_of(untracked@) =~= untracked_models(pairs.subrange(0, 0)));
        assert(models_of(staged@) =~= staged_models(pairs.subrange(0, 0)));
    }
    while i < list.len()
        invariant
            pairs == list.deep_view(),
            pairs.len() == list@.len(),
            i <= pairs.len(),
            models_of(modified@) == modified_models(pairs.subrange(0, i as int)),
            models_of(untracked@) == untracked_models(pairs.subrange(0, i as int)),
            models_of(staged@) == staged_models(pairs.subrange(0, i as int)),
        decreases pairs.len() - i,
    {
        proof {
            assert(pairs.subrange(0, i + 1).drop_last() =~= pairs.subrange(0, i as int));
            assert(pairs.subrange(0, i + 1).last() == pairs[i as int]);
            assert(pairs[i as int].0 == list@[i as int].0@);
            assert(pairs[i as int].1 == list@[i as int].1@);
        }
        let line: &String = &list[i].0;
        let code: &String = &list[i].1;
        let ccs = chars_vec(code.as_str());
        let is_untracked: bool = ccs.len() == 2 && ccs[0] == '?' && ccs[1] == '?';
        proof {
            if is_untracked {
                assert(ccs@ =~= seq!['?', '?']);
            } else {
                if ccs@.len() == 2 {
                    assert(ccs@ != seq!['?', '?']) by {
                        if ccs@ == seq!['?', '?'] {
                            assert(ccs@[0] == '?' && ccs@[1] == '?');
                        }
                    }
                } else {
                    assert(ccs@.len() != seq!['?', '?'].len());
                }
            }
        }
        if is_untracked {
            let path = git_file_last_name(line.as_str());
            let mut st = String::new();
            crate::strutil::push_char(&mut st, '?');
            let it = GitItem {
                label: line.clone(),
                status: Some(st),
                kind: GitItemKind::Entry,
                path,
            };
            let ghost before = untracked@;
            untracked.push(it);
            proof {
                assert(item_model(untracked@.last()) == entry_model(
                    pairs[i as int].0,
                    seq!['?'],
                )) by {
                    assert(untracked@.last().status->Some_0@ =~= seq!['?']);
                }
                assert(models_of(untracked@) =~= models_of(before).push(
                    entry_model(pairs[i as int].0, seq!['?']),
                ));
                assert(untracked_models(pairs.subrange(0, i + 1)) =~= models_of(before).push(
                    entry_model(pairs[i as int].0, seq!['?']),
                ));
                assert(modified_models(pairs.subrange(0, i + 1)) =~= models_of(modified@));
                assert(staged_models(pairs.subrange(0, i + 1)) =~= models_of(staged@));
            }
        } else {
            let staged_flag: bool = ccs.len() >= 1 && ccs[0] != ' ';
            let modified_flag: bool = ccs.len() >= 2 && ccs[1] != ' ';
            if staged_flag {
                let path = git_file_last_name(line.as_str());
                let mut st = String::new();
                crate::strutil::push_char(&mut st, 's');
                let it = GitItem {
                    label: line.clone(),
                    status: Some(st),
                    kind: GitItemKind::Entry,
                    path,
                };
                let ghost before = staged@;
                staged.push(it);
                proof {
                    assert(item_model(staged@.last()) == entry_model(
                        pairs[i as int].0,
                        seq!['s'],
                    )) by {
                        assert(staged@.last().status->Some_0@ =~= seq!['s']);
                    }
                    assert(models_of(staged@) =~= models_of(before).push(
                        entry_model(pairs[i as int].0, seq!['s']),
                    ));
                    assert(staged_models(pairs.subrange(0, i + 1)) =~= models_of(before).push(
                        entry_model(pairs[i as int].0, seq!['s']),
                    ));
                }
            } else {
                proof {
                    assert(staged_models(pairs.subrange(0, i + 1)) =~= models_of(staged@));
                }
            }
            if modified_flag {
                let path = git_file_last_name(line.as_str());
                let it = GitItem {
                    label: line.clone(),
                    status: Some(String::new()),
                    kind: GitItemKind::Entry,
                    path,
                };
                let ghost before = modified@;
                modified.push(it);
                proof {
                    assert(item_model(modified@.last()) == entry_model(
                        pairs[i as int].0,
                        Seq::empty(),
                    ));
                    assert(models_of(modified@) =~= models_of(before).push(
                        entry_model(pairs[i as int].0, Seq::empty()),
                    ));
                    assert(modified_models(pairs.subrange(0, i + 1)) =~= models_of(before).push(
                        entry_model(pairs[i as int].0, Seq::empty()),
                    ));
                }
            } else {
                proof {
                    assert(modified_models(pairs.subrange(0, i + 1)) =~= models_of(modified@));
                }
            }
            proof {
                assert(untracked_models(pairs.subrange(0, i + 1)) =~= models_of(untracked@));
            }
        }
        i = i + 1;
    }
    proof {
        assert(pairs.subrange(0, pairs.len() as int) =~= pairs);
    }
    let mut out: Vec<GitItem> = Vec::new();
    let ghost mm = models_of(modified@);
    let ghost um = models_of(untracked@);
    let ghost sm = models_of(staged@);
    if modified.len() > 0 {
        out.push(header_item("< Modified >"));
        out.append(&mut modified);
        proof {
            assert(models_of(out@) =~= section_models("< Modified >"@, mm));
        }
    } else {
        proof {
            assert(models_of(out@) =~= section_models("< Modified >"@, mm));
        }
    }
    let ghost out1 = models_of(out@);
    if untracked.len() > 0 {
        out.push(header_item("< Untracked >"));
        out.append(&mut untracked);
        proof {
            assert(models_of(out@) =~= out1 + section_models("< Untracked >"@, um));
        }
    } else {
        proof {
            assert(models_of(out@) =~= out1 + section_models("< Untracked >"@, um));
        }
    }
    let ghost out2 = models_of(out@);
    if staged.len() > 0 {
        out.push(header_item("< Staged >"));
        out.append(&mut staged);
        proof {
            assert(models_of(out@) =~= out2 + section_models("< Staged >"@, sm));
        }
    } else {
        proof {
            assert(models_of(out@) =~= out2 + section_models("< Staged >"@, sm));
        }
    }
    proof {
        assert(models_of(out@) =~= git_items_model(pairs));
    }
    out
}

/// A section header row.
fn header_item(title: &str) -> (r: GitItem)
    ensures
        item_model(r) == header_model(title@),
{
    GitItem {
        label: String::from_str(title),
        status: None,
        kind: GitItemKind::Header,
        path: None,
    }
}


/// The actions the executor can decide about.
#[derive(Clone, Copy)]
pub enum GitAction {
    Fetch,
    Merge,
    Status,
    Update,
}

/// Everything the decision engine reads about one repository, gathered by
/// short metadata queries: the current branch and its upstream, the two
/// branch tips, their merge-base, how many commits the local branch is
/// ahead, whether the sentinel stash entry exists, and the
/// files-changed-since-merge-base listings of both sides.
pub struct RepoProbe {
    pub branch: String,
    pub tracking: Option<String>,
    pub local_rev: String,
    pub remote_rev: String,
    pub merge_base: String,
    pub gap: usize,
    pub stash_present: bool,
    pub local_diff: String,
    pub remote_diff: String,
}

/// How a local branch tip relates to its upstream tip.
#[derive(Clone, Copy, PartialEq, Eq, Structural)]
pub enum RevRelation {
    Identical,
    Ahead,
    Diverged,
}

/// Compares the two branch tips: identical revisions; ahead, when the
/// merge-base is the remote tip itself (the remote tip is an ancestor of
/// the local tip); else diverged.
pub fn classify_revisions(local_rev: &str, remote_rev: &str, merge_base: &str) -> (r: RevRelation)
    ensures
        (r is Identical) <==> local_rev@ == remote_rev@,
        (r is Ahead) <==> (local_rev@ != remote_rev@ && merge_base@ == remote_rev@),
        (r is Diverged) <==> (local_rev@ != remote_rev@ && merge_base@ != remote_rev@),
{
    if str_eq(local_rev, remote_rev) {
        RevRelation::Identical
    } else if str_eq(merge_base, remote_rev) {
        RevRelation::Ahead
    } else {
        RevRelation::Diverged
    }
}

/// Whether a sequence of file names has this member.
pub open spec fn seq_has(b: Seq<Seq<char>>, x: Seq<char>) -> bool {
    exists|j: int| 0 <= j < b.len() && b[j] == x
}

/// The members of `a` that also occur in `b`, in the order of `a`.
pub open spec fn overlap_spec(a: Seq<Seq<char>>, b: Seq<Seq<char>>) -> Seq<Seq<char>>
    decreases a.len(),
{
    if a.len() == 0 {
        Seq::empty()
    } else {
        (if seq_has(b, a[0]) {
            seq![a[0]]
        } else {
            Seq::<Seq<char>>::empty()
        }) + overlap_spec(a.subrange(1, a.len() as int), b)
    }
}

/// The rebaseable heuristic: branches that touched disjoint file sets
/// since their merge-base have no overlap, and a file both touched always
/// shows up in the overlap.
pub proof fn lemma_rebaseable_heuristic(a: Seq<Seq<char>>, b: Seq<Seq<char>>)
    ensures
        (forall|x: Seq<char>| seq_has(a, x) ==> !seq_has(b, x)) ==> overlap_spec(a, b).len() == 0,
        forall|x: Seq<char>|
            seq_has(a, x) && seq_has(b, x) ==> #[trigger] overlap_spec(a, b).len() > 0,
    decreases a.len(),
{
    if a.len() == 0 {
    } else {
        let tail = a.subrange(1, a.len() as int);
        lemma_rebaseable_heuristic(tail, b);
        if forall|x: Seq<char>| seq_has(a, x) ==> !seq_has(b, x) {
            assert(seq_has(a, a[0]));
            assert forall|x: Seq<char>| seq_has(tail, x) implies !seq_has(b, x) by {
                let j = choose|j: int| 0 <= j < tail.len() && tail[j] == x;
                assert(a[j + 1] == x);
                assert(seq_has(a, x));
            }
        }
        assert forall|x: Seq<char>|
            seq_has(a, x) && seq_has(b, x) implies #[trigger] overlap_spec(a, b).len() > 0 by {
            if seq_has(b, a[0]) {
            } else {
                let j = choose|j: int| 0 <= j < a.len() && a[j] == x;
                assert(a[0] != x);
                assert(tail[j - 1] == x);
                assert(seq_has(tail, x));
                assert(overlap_spec(tail, b).len() > 0);
            }
        }
    }
}

/// Whether one of the strings equals `x`.
fn vec_has_str(b: &Vec<String>, x: &str) -> (r: bool)
    ensures
        r == seq_has(b.deep_view(), x@),
{
    let mut j: usize = 0;
    while j < b.len()
        invariant
            j <= b@.len(),
            forall|k: int| 0 <= k < j ==> b.deep_view()[k] != x@,
        decreases b@.len() - j,
    {
        if str_eq(b[j].as_str(), x) {
            proof {
                assert(b.deep_view()[j as int] == x@);
            }
            return true;
        }
        j = j + 1;
    }
    proof {
        if seq_has(b.deep_view(), x@) {
            let k = choose|k: int| 0 <= k < b.deep_view().len() && b.deep_view()[k] == x@;
            assert(b.deep_view()[k] != x@);
        }
    }
    false
}

/// The files both branches touched since their merge-base: the overlap of
/// the two `--name-only` listings. An empty result predicts that a rebase
/// is safe.
pub fn check_rebaseable(local_diff: &str, remote_diff: &str) -> (overlap: Vec<String>)
    ensures
        overlap.deep_view() == overlap_spec(
            fields_spec(local_diff@),
            fields_spec(remote_diff@),
        ),
{
    let a = split_fields(local_diff);
    let b = split_fields(remote_diff);
    let ghost av = a.deep_view();
    let ghost bv = b.deep_view();
    let mut out: Vec<String> = Vec::new();
    let mut i: usize = 0;
    proof {
        assert(av.subrange(0, av.len() as int) =~= av);
        assert(out.deep_view() =~= Seq::<Seq<char>>::empty());
    }
    while i < a.len()
        invariant
            av == a.deep_view(),
            bv == b.deep_view(),
            av.len() == a@.len(),
            i <= av.len(),
            overlap_spec(av, bv) =~= out.deep_view() + overlap_spec(
                av.subrange(i as int, av.len() as int),
                bv,
            ),
        decreases av.len() - i,
    {
        let ghost rest = av.subrange(i as int, av.len() as int);
        proof {
            assert(rest[0] == av[i as int]);
            assert(rest.subrange(1, rest.len() as int) =~= av.subrange(i + 1, av.len() as int));
        }
        if vec_has_str(&b, a[i].as_str()) {
            out.push(a[i].clone());
            proof {
                assert(out.deep_view() =~= out.deep_view().drop_last().push(av[i as int]));
                assert(overlap_spec(av, bv) =~= out.deep_view() + overlap_spec(
                    av.subrange(i + 1, av.len() as int),
                    bv,
                ));
            }
        } else {
            proof {
                assert(overlap_spec(av, bv) =~= out.deep_view() + overlap_spec(
                    av.subrange(i + 1, av.len() as int),
                    bv,
                ));
            }
        }
        i = i + 1;
    }
    proof {
        assert(av.subrange(av.len() as int, av.len() as int) =~= Seq::<Seq<char>>::empty());
        assert(overlap_spec(av, bv) =~= out.deep_view());
    }
    out
}

/// What the executor decides should happen for one repository.
pub enum ActionPlan {
    /// Run the prune-and-fetch command.
    Fetch,
    /// The branch has no upstream: report and skip.
    NoTracking,
    /// Nothing to integrate: the local branch already holds the remote
    /// tip.
    UpToDate,
    /// Safe to integrate: run the rebase onto this remote branch.
    Rebase(String),
    /// Both sides touched these files: report, do not rebase.
    MergeBlocked(Vec<String>),
    /// The sentinel stash entry exists: report and skip.
    StashPending,
    /// In sync: show the local working-tree status.
    ShowStatus,
    /// Ahead of the upstream: report how many commits the local branch
    /// carries beyond the remote tip, with the log of that range.
    ShowAhead { gap: usize },
    /// Diverged, but the changed file sets are disjoint: report that a
    /// fast-forward would be safe.
    FastForwardable,
    /// Diverged with these files touched on both sides: report that a
    /// fast-forward is unsafe.
    NotFastForward(Vec<String>),
    /// Run the pull (optionally rebasing), then probe the status again.
    Pull { rebase: bool },
}

/// The per-repository executor: decides, from a probe of the repository's
/// state, what each action should do there.
pub struct GitActor {
    pub is_pull_rebase: bool,
    pub repo_list: Vec<RegItem>,
}

/// The index of the first registered repository that answers to `name`.
pub open spec fn first_named(items: Seq<RegItem>, name: Seq<char>, i: int) -> Option<int>
    decreases items.len() - i,
{
    if i < 0 || i >= items.len() {
        None
    } else if exists|j: int| 0 <= j < items[i].names@.len() && (#[trigger] items[i].names@[j])@
        == name {
        Some(i)
    } else {
        first_named(items, name, i + 1)
    }
}

impl GitActor {
    /// An executor over the given registry.
    pub fn new(is_pull_rebase: bool, repo_list: Vec<RegItem>) -> (r: Self)
        ensures
            r.is_pull_rebase == is_pull_rebase,
            r.repo_list@ == repo_list@,
    {
        GitActor { is_pull_rebase, repo_list }
    }

    /// Resolves an action target to a directory: an absolute path names
    /// itself; anything else is looked up among the registered names, and
    /// fails when no repository answers to it.
    pub fn resolve_target(&self, name: &str) -> (r: Option<String>)
        ensures
            match r {
                Some(p) => (name@.len() > 0 && name@[0] == '/' && p@ == name@) || (!(name@.len()
                    > 0 && name@[0] == '/') && first_named(self.repo_list@, name@, 0) is Some
                    && p@ == self.repo_list@[first_named(
                    self.repo_list@,
                    name@,
                    0,
                )->Some_0].path@),
                None => !(name@.len() > 0 && name@[0] == '/') && first_named(
                    self.repo_list@,
                    name@,
                    0,
                ) is None,
            },
    {
        let cs = chars_vec(name);
        if cs.len() > 0 && cs[0] == '/' {
            return Some(String::from_str(name));
        }
        let ghost items = self.repo_list@;
        let mut i: usize = 0;
        while i < self.repo_list.len()
            invariant
                items == self.repo_list@,
                !(name@.len() > 0 && name@[0] == '/'),
                i <= items.len(),
                first_named(items, name@, 0) == first_named(items, name@, i as int),
            decreases items.len() - i,
        {
            let it = &self.repo_list[i];
            let mut j: usize = 0;
            let mut matched: bool = false;
            while j < it.names.len()
                invariant
                    items == self.repo_list@,
                    i < items.len(),
                    it == &self.repo_list[i as int],
                    j <= it.names@.len(),
                    matched ==> exists|t: int|
                        0 <= t < items[i as int].names@.len() && (#[trigger] items[i
                            as int].names@[t])@ == name@,
                    !matched ==> forall|t: int|
                        0 <= t < j ==> (#[trigger] it.names@[t])@ != name@,
                decreases it.names@.len() - j,
            {
                if str_eq(it.names[j].as_str(), name) {
                    matched = true;
                }
                j = j + 1;
            }
            if matched {
                proof {
                    assert(first_named(items, name@, i as int) == Some(i as int));
                }
                return Some(self.repo_list[i].path.clone());
            }
            proof {
                assert(forall|t: int|
                    0 <= t < items[i as int].names@.len() ==> (#[trigger] items[i
                        as int].names@[t])@ != name@);
            }
            i = i + 1;
        }
        None
    }

    /// Whether the local branch needs nothing from its upstream: the tips
    /// are identical, or the remote tip is already an ancestor of the
    /// local one.
    pub fn check_same_with(&self, probe: &RepoProbe) -> (same: bool)
        ensures
            same <==> (probe.local_rev@ == probe.remote_rev@ || probe.merge_base@
                == probe.remote_rev@),
    {
        let rel = classify_revisions(
            probe.local_rev.as_str(),
            probe.remote_rev.as_str(),
            probe.merge_base.as_str(),
        );
        match rel {
            RevRelation::Diverged => false,
            _ => true,
        }
    }

    /// Decides what one action does, given the repository's probed state:
    /// fetching always proceeds; merging and status need an upstream;
    /// status halts on the sentinel stash; a branch that is merely ahead
    /// needs no integration, but its status reports the commit count
    /// beyond the remote tip; a diverged branch is rebased exactly when
    /// the two sides touched disjoint files; updating runs the pull with
    /// the configured rebase flag.
    pub fn apply(&self, action: GitAction, probe: &RepoProbe) -> (r: ActionPlan)
        ensures
            ({
                let has_upstream = probe.tracking is Some;
                let identical = probe.local_rev@ == probe.remote_rev@;
                let ahead = probe.local_rev@ != probe.remote_rev@ && probe.merge_base@
                    == probe.remote_rev@;
                let overlap = overlap_spec(
                    fields_spec(probe.local_diff@),
                    fields_spec(probe.remote_diff@),
                );
                match action {
                    GitAction::Fetch => r is Fetch,
                    GitAction::Merge => if !has_upstream {
                        r is NoTracking
                    } else if identical || ahead {
                        r is UpToDate
                    } else if overlap.len() == 0 {
                        r is Rebase && r->Rebase_0@ == probe.tracking->Some_0@
                    } else {
                        r is MergeBlocked && r->MergeBlocked_0.deep_view() == overlap
                    },
                    GitAction::Status => if probe.stash_present {
                        r is StashPending
                    } else if !has_upstream {
                        r is NoTracking
                    } else if identical {
                        r is ShowStatus
                    } else if ahead {
                        r is ShowAhead && r->ShowAhead_gap == probe.gap
                    } else if overlap.len() == 0 {
                        r is FastForwardable
                    } else {
                        r is NotFastForward && r->NotFastForward_0.deep_view() == overlap
                    },
                    GitAction::Update => r is Pull && r->Pull_rebase == self.is_pull_rebase,
                }
            }),
    {
        match action {
            GitAction::Fetch => ActionPlan::Fetch,
            GitAction::Merge => {
                match &probe.tracking {
                    None => ActionPlan::NoTracking,
                    Some(remote) => {
                        if self.check_same_with(probe) {
                            ActionPlan::UpToDate
                        } else {
                            let overlap = check_rebaseable(
                                probe.local_diff.as_str(),
                                probe.remote_diff.as_str(),
                            );
                            if overlap.len() == 0 {
                                proof {
                                    assert(overlap.deep_view() =~= Seq::<Seq<char>>::empty());
                                }
                                ActionPlan::Rebase(remote.clone())
                            } else {
                                ActionPlan::MergeBlocked(overlap)
                            }
                        }
                    },
                }
            },
            GitAction::Status => {
                if probe.stash_present {
                    ActionPlan::StashPending
                } else {
                    match &probe.tracking {
                        None => ActionPlan::NoTracking,
                        Some(_) => {
                            let rel = classify_revisions(
                                probe.local_rev.as_str(),
                                probe.remote_rev.as_str(),
                                probe.merge_base.as_str(),
                            );
                            if matches!(rel, RevRelation::Identical) {
                                ActionPlan::ShowStatus
                            } else if matches!(rel, RevRelation::Ahead) {
                                ActionPlan::ShowAhead { gap: probe.gap }
                            } else {
                                let overlap = check_rebaseable(
                                    probe.local_diff.as_str(),
                                    probe.remote_diff.as_str(),
                                );
                                if overlap.len() == 0 {
                                    proof {
                                        assert(overlap.deep_view() =~= Seq::<Seq<char>>::empty());
                                    }
                                    ActionPlan::FastForwardable
                                } else {
                                    ActionPlan::NotFastForward(overlap)
                                }
                            }
                        },
                    }
                }
            },
            GitAction::Update => ActionPlan::Pull { rebase: self.is_pull_rebase },
        }
    }
}

/// Whether a character is a decimal digit.
pub open spec fn is_digit(c: char) -> bool {
    48 <= c as u32 <= 57
}

/// The decimal value of a digit string.
pub open spec fn dec_value(s: Seq<char>) -> int
    decreases s.len(),
{
    if s.len() == 0 {
        0
    } else {
        dec_value(s.drop_last()) * 10 + (s.last() as u32 - 48)
    }
}

/// Whether every character of `s` is a decimal digit.
pub open spec fn all_digits(s: Seq<char>) -> bool {
    forall|i: int| 0 <= i < s.len() ==> is_digit(#[trigger] s[i])
}

/// The count a probe field parses to: its decimal value for a non-empty
/// digit string that fits the machine, and zero for anything else.
pub open spec fn parsed_count(s: Seq<char>) -> int {
    if s.len() > 0 && all_digits(s) && dec_value(s) <= usize::MAX {
        dec_value(s)
    } else {
        0
    }
}

proof fn lemma_dec_value_nonneg(s: Seq<char>)
    requires
        all_digits(s),
    ensures
        dec_value(s) >= 0,
    decreases s.len(),
{
    if s.len() > 0 {
        assert(is_digit(s.last()));
        assert(all_digits(s.drop_last())) by {
            assert(forall|i: int|
                0 <= i < s.len() - 1 ==> #[trigger] s.drop_last()[i] == s[i]);
        }
        lemma_dec_value_nonneg(s.drop_last());
        assert(dec_value(s.drop_last()) * 10 >= 0);
    }
}

proof fn lemma_dec_value_prefix(s: Seq<char>, k: int)
    requires
        all_digits(s),
        0 <= k <= s.len(),
    ensures
        dec_value(s.subrange(0, k)) <= dec_value(s),
    decreases s.len() - k,
{
    if k == s.len() {
        assert(s.subrange(0, k) =~= s);
    } else {
        lemma_dec_value_prefix(s, k + 1);
        let t = s.subrange(0, k + 1);
        assert(t.drop_last() =~= s.subrange(0, k));
        assert(t.last() == s[k]);
        assert(is_digit(s[k]));
        assert(all_digits(s.subrange(0, k))) by {
            assert(forall|i: int|
                0 <= i < k ==> #[trigger] s.subrange(0, k)[i] == s[i]);
        }
        lemma_dec_value_nonneg(s.subrange(0, k));
        assert(dec_value(t) == dec_value(s.subrange(0, k)) * 10 + (t.last() as u32 - 48));
        assert(dec_value(s.subrange(0, k)) * 10 >= dec_value(s.subrange(0, k)));
    }
}

/// Parses a count field: the decimal value of a digit string, and zero
/// for anything unparsable or out of range.
pub fn parse_count(s: &str) -> (r: usize)
    ensures
        r as int == parsed_count(s@),
{
    let cs = chars_vec(s);
    if cs.len() == 0 {
        return 0;
    }
    let mut i: usize = 0;
    while i < cs.len()
        invariant
            cs@ == s@,
            i <= cs@.len(),
            forall|k: int| 0 <= k < i ==> is_digit(#[trigger] cs@[k]),
        decreases cs@.len() - i,
    {
        let c = cs[i];
        let v: u32 = c as u32;
        if v < 48 || v > 57 {
            proof {
                assert(!is_digit(cs@[i as int]));
                assert(!all_digits(cs@));
            }
            return 0;
        }
        i = i + 1;
    }
    proof {
        assert(all_digits(cs@));
        lemma_dec_value_nonneg(cs@);
    }
    let mut acc: usize = 0;
    let mut j: usize = 0;
    proof {
        assert(cs@.subrange(0, 0) =~= Seq::<char>::empty());
    }
    while j < cs.len()
        invariant
            j <= cs@.len(),
            all_digits(cs@),
            cs@ == s@,
            acc as int == dec_value(cs@.subrange(0, j as int)),
        decreases cs@.len() - j,
    {
        let c = cs[j];
        let d: u32 = c as u32 - 48;
        proof {
            assert(is_digit(cs@[j as int]));
            assert(cs@.subrange(0, j + 1).drop_last() =~= cs@.subrange(0, j as int));
            assert(cs@.subrange(0, j + 1).last() == cs@[j as int]);
        }
        if acc > (usize::MAX - d as usize) / 10 {
            proof {
                assert(acc as int * 10 + d > usize::MAX) by (nonlinear_arith)
                    requires
                        acc as int > (usize::MAX - d as int) / 10,
                        0 <= d <= 9,
                ;
                assert(dec_value(cs@.subrange(0, j + 1)) > usize::MAX);
                lemma_dec_value_prefix(cs@, j + 1);
                assert(dec_value(cs@) > usize::MAX);
            }
            return 0;
        }
        proof {
            assert(acc as int * 10 + d <= usize::MAX) by (nonlinear_arith)
                requires
                    acc as int <= (usize::MAX - d as int) / 10,
                    0 <= d <= 9,
            ;
        }
        acc = acc * 10 + d as usize;
        j = j + 1;
    }
    proof {
        assert(cs@.subrange(0, cs@.len() as int) =~= cs@);
    }
    acc
}

/// The ahead and behind counts a left-right revision count reports: its
/// two whitespace-separated fields parsed as counts, and zeroes when the
/// output does not have exactly two fields.
pub open spec fn ahead_behind_spec(s: Seq<char>) -> (int, int) {
    let fs = fields_spec(s);
    if fs.len() == 2 {
        (parsed_count(fs[0]), parsed_count(fs[1]))
    } else {
        (0, 0)
    }
}

/// Parses the output of a left-right revision count into the ahead and
/// behind counts.
pub fn parse_ahead_behind(out: &str) -> (r: (usize, usize))
    ensures
        r.0 as int == ahead_behind_spec(out@).0,
        r.1 as int == ahead_behind_spec(out@).1,
{
    let fs = split_fields(out);
    if fs.len() == 2 {
        proof {
            assert(fs.deep_view()[0] == fs@[0]@);
            assert(fs.deep_view()[1] == fs@[1]@);
        }
        let a = parse_count(fs[0].as_str());
        let b = parse_count(fs[1].as_str());
        (a, b)
    } else {
        (0, 0)
    }
}

/// The remotes a remote listing reports: each line, trimmed.
pub fn remote_list(out: &str) -> (r: Vec<String>)
    ensures
        r.deep_view() == crate::strutil::lines_spec(out@).map_values(|l: Seq<char>| trimmed(l)),
{
    let ls = split_lines(out);
    let ghost lv = ls.deep_view();
    let mut r: Vec<String> = Vec::new();
    let mut i: usize = 0;
    proof {
        assert(r.deep_view() =~= lv.subrange(0, 0).map_values(|l: Seq<char>| trimmed(l)));
    }
    while i < ls.len()
        invariant
            lv == ls.deep_view(),
            lv.len() == ls@.len(),
            i <= lv.len(),
            r.deep_view() == lv.subrange(0, i as int).map_values(|l: Seq<char>| trimmed(l)),
        decreases lv.len() - i,
    {
        proof {
            assert(lv[i as int] == ls@[i as int]@);
        }
        let ghost before = r.deep_view();
        r.push(trim_str(ls[i].as_str()));
        proof {
            assert(r.deep_view() =~= before.push(trimmed(lv[i as int])));
            assert(r.deep_view() =~= lv.subrange(0, i + 1).map_values(
                |l: Seq<char>| trimmed(l),
            ));
        }
        i = i + 1;
    }
    proof {
        assert(lv.subrange(0, lv.len() as int) =~= lv);
    }
    r
}

} // verus!
