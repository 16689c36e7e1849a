//! Scanning the lines of one file for marker records.

use vstd::prelude::*;

use crate::pattern::match_marker;
use crate::pattern::match_spec;
use crate::pattern::Marker;
use crate::ScanError;

verus! {

/// One extracted marker record: the base name of the file it was found in,
/// the priority (count of repeated terminal letters), and the trimmed
/// message.
#[derive(Debug, PartialEq, Eq)]
pub struct Comment {
    pub file_name: String,
    pub priority: usize,
    pub message: String,
}

/// The mathematical content of a `Comment`.
pub ghost struct CommentView {
    pub file_name: Seq<char>,
    pub priority: int,
    pub message: Seq<char>,
}

impl View for Comment {
    type V = CommentView;

    open spec fn view(&self) -> CommentView {
        CommentView {
            file_name: self.file_name@,
            priority: self.priority as int,
            message: self.message@,
        }
    }
}

impl DeepView for Comment {
    type V = CommentView;

    open spec fn deep_view(&self) -> CommentView {
        self.view()
    }
}

/// `p` without its trailing `/` characters.
pub open spec fn strip_trailing(p: Seq<char>) -> Seq<char>
    decreases p.len(),
{
    if p.len() > 0 && p[p.len() - 1] == '/' {
        strip_trailing(p.drop_last())
    } else {
        p
    }
}

/// The suffix of `q` after its last `/`; all of `q` when it has none.
pub open spec fn after_last_slash(q: Seq<char>) -> Seq<char>
    decreases q.len(),
{
    if q.len() == 0 {
        q
    } else if q[q.len() - 1] == '/' {
        Seq::empty()
    } else {
        after_last_slash(q.drop_last()).push(q[q.len() - 1])
    }
}

/// The base name a path is reported under: its last path segment, with
/// trailing separators ignored. A path with no segment (empty, or separators
/// only), or whose last segment is `.` or `..`, has none.
pub open spec fn base_name_spec(path: Seq<char>) -> Option<Seq<char>> {
    let b = after_last_slash(strip_trailing(path));
    if b.len() == 0 || b == seq!['.'] || b == seq!['.', '.'] {
        None
    } else {
        Some(b)
    }
}

proof fn lemma_strip_trailing_at(p: Seq<char>, e: int)
    requires
        0 <= e <= p.len(),
        forall|d: int| e <= d < p.len() ==> p[d] == '/',
        e == 0 || p[e - 1] != '/',
    ensures
        strip_trailing(p) == p.subrange(0, e),
    decreases p.len(),
{
    if e == p.len() {
        if p.len() > 0 && p[p.len() - 1] == '/' {
            assert(false);
        }
        assert(p =~= p.subrange(0, e));
    } else {
        assert(p[p.len() - 1] == '/');
        assert(forall|d: int| 0 <= d < p.len() - 1 ==> p.drop_last()[d] == p[d]);
        lemma_strip_trailing_at(p.drop_last(), e);
        assert(p.drop_last().subrange(0, e) =~= p.subrange(0, e));
    }
}

proof fn lemma_after_last_slash_at(q: Seq<char>, s: int)
    requires
        0 <= s <= q.len(),
        forall|d: int| s <= d < q.len() ==> q[d] != '/',
        s == 0 || q[s - 1] == '/',
    ensures
        after_last_slash(q) == q.subrange(s, q.len() as int),
    decreases q.len(),
{
    if s == q.len() {
        assert(after_last_slash(q) =~= q.subrange(s, q.len() as int));
    } else {
        assert(q[q.len() - 1] != '/');
        assert(forall|d: int| 0 <= d < q.len() - 1 ==> q.drop_last()[d] == q[d]);
        lemma_after_last_slash_at(q.drop_last(), s);
        assert(
            q.drop_last().subrange(s, q.len() - 1).push(q[q.len() - 1]) =~= q.subrange(
                s,
                q.len() as int,
            )
        );
    }
}

/// The base name of `path`, or nothing when the path has no resolvable one.
pub fn base_name(path: &str) -> (r: Option<String>)
    ensures
        match r {
            Some(s) => base_name_spec(path@) == Some(s@),
            None => base_name_spec(path@) is None,
        },
{
    let n = path.unicode_len();
    let mut e = n;
    while e > 0 && path.get_char(e - 1) == '/'
        invariant
            n == path@.len(),
            0 <= e <= n,
            forall|d: int| e <= d < n ==> path@[d] == '/',
        decreases e,
    {
        e = e - 1;
    }
    proof {
        lemma_strip_trailing_at(path@, e as int);
    }
    if e == 0 {
        return None;
    }
    let mut s = e;
    while s > 0 && path.get_char(s - 1) != '/'
        invariant
            n == path@.len(),
            0 < e <= n,
            path@[e - 1] != '/',
            strip_trailing(path@) == path@.subrange(0, e as int),
            0 <= s <= e,
            forall|d: int| s <= d < e ==> path@[d] != '/',
        decreases s,
    {
        s = s - 1;
    }
    let ghost stripped = path@.subrange(0, e as int);
    proof {
        assert(forall|d: int| 0 <= d < e ==> stripped[d] == path@[d]);
        lemma_after_last_slash_at(stripped, s as int);
        assert(stripped.subrange(s as int, e as int) =~= path@.subrange(s as int, e as int));
        assert(s < e);
    }
    let ghost b = path@.subrange(s as int, e as int);
    if e - s == 1 && path.get_char(s) == '.' {
        proof {
            assert(b =~= seq!['.']);
        }
        return None;
    }
    if e - s == 2 && path.get_char(s) == '.' && path.get_char(s + 1) == '.' {
        proof {
            assert(b =~= seq!['.', '.']);
        }
        return None;
    }
    proof {
        assert(b[0] == path@[s as int]);
        if b == seq!['.'] {
            assert(false);
        }
        if b == seq!['.', '.'] {
            assert(b[1] == path@[s + 1]);
            assert(false);
        }
    }
    Some(path.substring_char(s, e).to_owned())
}

/// Index of the first newline of `t`; `t.len()` when it has none.
pub open spec fn find_newline(t: Seq<char>) -> int
    decreases t.len(),
{
    if t.len() == 0 {
        0
    } else if t[0] == '\n' {
        0
    } else {
        1 + find_newline(t.drop_first())
    }
}

/// A line with its terminating carriage return, if any, removed.
pub open spec fn chomp_cr(s: Seq<char>) -> Seq<char> {
    if s.len() > 0 && s[s.len() - 1] == '\r' {
        s.drop_last()
    } else {
        s
    }
}

/// The lines of a text: pieces delimited by `\n`, each without its line
/// ending (`\n` or `\r\n`). A trailing piece with no terminator still counts
/// as a line and keeps a lone `\r`; a terminated text yields no extra empty
/// line.
pub open spec fn split_lines_spec(t: Seq<char>) -> Seq<Seq<char>>
    decreases t.len(),
{
    if t.len() == 0 {
        Seq::empty()
    } else {
        let i = find_newline(t);
        if i < 0 || i >= t.len() {
            seq![t]
        } else {
            seq![chomp_cr(t.subrange(0, i))] + split_lines_spec(t.subrange(i + 1, t.len() as int))
        }
    }
}

proof fn lemma_find_newline_at(t: Seq<char>, d: int)
    requires
        0 <= d <= t.len(),
        forall|x: int| 0 <= x < d ==> t[x] != '\n',
        d == t.len() || t[d] == '\n',
    ensures
        find_newline(t) == d,
    decreases d,
{
    if d == 0 {
    } else {
        assert(forall|x: int| 0 <= x < t.len() - 1 ==> t.drop_first()[x] == t[x + 1]);
        lemma_find_newline_at(t.drop_first(), d - 1);
    }
}

/// Splits a text into its lines, as the scanner reads a file.
pub fn split_lines(text: &str) -> (r: Vec<String>)
    ensures
        r.deep_view() == split_lines_spec(text@),
{
    let n = text.unicode_len();
    let mut out: Vec<String> = Vec::new();
    let mut pos: usize = 0;
    proof {
        assert(text@.subrange(0, n as int) =~= text@);
        assert(out.deep_view() =~= Seq::<Seq<char>>::empty());
        assert(Seq::<Seq<char>>::empty() + split_lines_spec(text@) =~= split_lines_spec(text@));
    }
    while pos < n
        invariant
            n == text@.len(),
            0 <= pos <= n,
            split_lines_spec(text@) == out.deep_view() + split_lines_spec(
                text@.subrange(pos as int, n as int),
            ),
        decreases n - pos,
    {
        let mut j = pos;
        while j < n && text.get_char(j) != '\n'
            invariant
                n == text@.len(),
                pos <= j <= n,
                forall|d: int| pos <= d < j ==> text@[d] != '\n',
            decreases n - j,
        {
            j = j + 1;
        }
        let ghost rem = text@.subrange(pos as int, n as int);
        proof {
            assert(forall|d: int| 0 <= d < rem.len() ==> rem[d] == text@[pos + d]);
            lemma_find_newline_at(rem, j - pos);
        }
        let e = if j < n && j > pos && text.get_char(j - 1) == '\r' {
            j - 1
        } else {
            j
        };
        let line = text.substring_char(pos, e).to_owned();
        let ghost out0 = out.deep_view();
        out.push(line);
        proof {
            assert(out.deep_view() =~= out0.push(line@));
            if j < n {
                assert(rem.subrange(0, j - pos) =~= text@.subrange(pos as int, j as int));
                assert(chomp_cr(rem.subrange(0, j - pos)) == line@);
                assert(
                    rem.subrange(j - pos + 1, rem.len() as int) =~= text@.subrange(
                        j + 1,
                        n as int,
                    )
                );
                assert(
                    split_lines_spec(rem) == seq![line@] + split_lines_spec(
                        text@.subrange(j + 1, n as int),
                    )
                );
                assert(
                    out0.push(line@) + split_lines_spec(text@.subrange(j + 1, n as int)) =~= out0
                        + split_lines_spec(rem)
                );
            } else {
                assert(line@ == rem);
                assert(split_lines_spec(rem) == seq![rem]);
                assert(split_lines_spec(text@.subrange(n as int, n as int)) =~= Seq::<
                    Seq<char>,
                >::empty());
                assert(
                    out0.push(line@) + split_lines_spec(text@.subrange(n as int, n as int)) =~= out0
                        + split_lines_spec(rem)
                );
            }
        }
        pos = if j < n {
            j + 1
        } else {
            n
        };
    }
    proof {
        assert(split_lines_spec(text@.subrange(pos as int, n as int)) =~= Seq::<Seq<char>>::empty());
        assert(out.deep_view() + Seq::<Seq<char>>::empty() =~= out.deep_view());
    }
    out
}

/// The records one line contributes for a kind: one, when the line matches,
/// none otherwise.
pub open spec fn line_records(name: Seq<char>, line: Seq<char>, kind: Marker) -> Seq<CommentView> {
    match match_spec(line, kind) {
        Some(pm) => seq![CommentView { file_name: name, priority: pm.0, message: pm.1 }],
        None => Seq::empty(),
    }
}

/// The records the lines of one file contribute for a kind, in line order.
pub open spec fn scan_spec(name: Seq<char>, lines: Seq<Seq<char>>, kind: Marker) -> Seq<CommentView>
    decreases lines.len(),
{
    if lines.len() == 0 {
        Seq::empty()
    } else {
        line_records(name, lines.first(), kind) + scan_spec(name, lines.drop_first(), kind)
    }
}

proof fn lemma_scan_snoc(name: Seq<char>, lines: Seq<Seq<char>>, l: Seq<char>, kind: Marker)
    ensures
        scan_spec(name, lines.push(l), kind) == scan_spec(name, lines, kind) + line_records(
            name,
            l,
            kind,
        ),
    decreases lines.len(),
{
    if lines.len() == 0 {
        let e = Seq::<Seq<char>>::empty();
        assert(lines.push(l).first() == l);
        assert(lines.push(l).drop_first() =~= e);
        assert(scan_spec(name, e, kind) == Seq::<CommentView>::empty());
        assert(scan_spec(name, lines.push(l), kind) == line_records(name, l, kind) + scan_spec(
            name,
            e,
            kind,
        ));
        assert(lines =~= e);
        assert(
            scan_spec(name, lines.push(l), kind) =~= scan_spec(name, lines, kind) + line_records(
                name,
                l,
                kind,
            )
        );
    } else {
        assert(lines.push(l).first() == lines.first());
        assert(lines.push(l).drop_first() =~= lines.drop_first().push(l));
        lemma_scan_snoc(name, lines.drop_first(), l, kind);
        assert(
            line_records(name, lines.first(), kind) + (scan_spec(name, lines.drop_first(), kind)
                + line_records(name, l, kind)) =~= scan_spec(name, lines, kind) + line_records(
                name,
                l,
                kind,
            )
        );
    }
}

fn scan_lines_into(records: &mut Vec<Comment>, name: &String, lines: &Vec<String>, kind: Marker)
    ensures
        final(records).deep_view() == old(records).deep_view() + scan_spec(
            name@,
            lines.deep_view(),
            kind,
        ),
{
    let mut idx: usize = 0;
    while idx < lines.len()
        invariant
            0 <= idx <= lines@.len(),
            records.deep_view() == old(records).deep_view() + scan_spec(
                name@,
                lines.deep_view().take(idx as int),
                kind,
            ),
        decreases lines@.len() - idx,
    {
        let ghost lv = lines.deep_view();
        match match_marker(lines[idx].as_str(), kind) {
            Some((p, m)) => {
                let ghost r0 = records.deep_view();
                records.push(Comment { file_name: name.clone(), priority: p, message: m });
                proof {
                    assert(records.deep_view() =~= r0.push(
                        CommentView { file_name: name@, priority: p as int, message: m@ },
                    ));
                }
            },
            None => {},
        }
        proof {
            lemma_scan_snoc(name@, lv.take(idx as int), lv[idx as int], kind);
            assert(lv.take(idx + 1) =~= lv.take(idx as int).push(lv[idx as int]));
            assert(lv[idx as int] == lines@[idx as int]@);
            assert(
                records.deep_view() =~= old(records).deep_view() + scan_spec(
                    name@,
                    lv.take(idx + 1),
                    kind,
                )
            );
        }
        idx = idx + 1;
    }
    proof {
        assert(lines.deep_view().take(lines@.len() as int) =~= lines.deep_view());
    }
}

/// The records of one scanned file: those of its lines, in line order.
pub struct File {
    pub todos: Vec<Comment>,
    pub fixmes: Vec<Comment>,
}

impl File {
    /// A scanner that has found nothing yet.
    pub fn new() -> (r: File)
        ensures
            r.todos@.len() == 0,
            r.fixmes@.len() == 0,
    {
        File { todos: Vec::new(), fixmes: Vec::new() }
    }

    /// Appends to `self.todos` one record per line of the file at `path`
    /// that holds a TODO marker, in line order. Records carry the base name
    /// of the path; a path with no base name is refused and nothing changes.
    pub fn parse_todos(&mut self, path: &str, lines: &Vec<String>) -> (r: Result<(), ScanError>)
        ensures
            match base_name_spec(path@) {
                Some(name) => {
                    &&& r is Ok
                    &&& final(self).todos.deep_view() == old(self).todos.deep_view() + scan_spec(
                        name,
                        lines.deep_view(),
                        Marker::Todo,
                    )
                    &&& final(self).fixmes == old(self).fixmes
                },
                None => {
                    &&& r == Err::<(), ScanError>(ScanError::MissingFileName)
                    &&& *final(self) == *old(self)
                },
            },
    {
        let name = match base_name(path) {
            Some(n) => n,
            None => {
                return Err(ScanError::MissingFileName);
            },
        };
        scan_lines_into(&mut self.todos, &name, lines, Marker::Todo);
        Ok(())
    }

    /// Appends to `self.fixmes` one record per line of the file at `path`
    /// that holds a FIXME marker, in line order, as `parse_todos` does for
    /// TODO markers.
    pub fn parse_fixmes(&mut self, path: &str, lines: &Vec<String>) -> (r: Result<(), ScanError>)
        ensures
            match base_name_spec(path@) {
                Some(name) => {
                    &&& r is Ok
                    &&& final(self).fixmes.deep_view() == old(self).fixmes.deep_view() + scan_spec(
                        name,
                        lines.deep_view(),
                        Marker::Fixme,
                    )
                    &&& final(self).todos == old(self).todos
                },
                None => {
                    &&& r == Err::<(), ScanError>(ScanError::MissingFileName)
                    &&& *final(self) == *old(self)
                },
            },
    {
        let name = match base_name(path) {
            Some(n) => n,
            None => {
                return Err(ScanError::MissingFileName);
            },
        };
        scan_lines_into(&mut self.fixmes, &name, lines, Marker::Fixme);
        Ok(())
    }
}

} // verus!
