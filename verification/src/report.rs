//! Aggregation of the records of all scanned files into a sorted report.

use vstd::prelude::*;

use crate::pattern::Marker;
use crate::source::file::base_name_spec;
use crate::source::file::scan_spec;
use crate::source::file::split_lines;
use crate::source::file::split_lines_spec;
use crate::source::file::Comment;
use crate::source::file::CommentView;
use crate::source::file::File;
use crate::ScanError;

verus! {

/// The text of one discovered file, handed in by the reading layer.
pub struct Source {
    /// Path of the file, as the walk discovered it.
    pub path: String,
    /// The entire decoded text of the file.
    pub text: String,
}

/// The mathematical content of a `Source`.
pub ghost struct SourceView {
    pub path: Seq<char>,
    pub text: Seq<char>,
}

impl View for Source {
    type V = SourceView;

    open spec fn view(&self) -> SourceView {
        SourceView { path: self.path@, text: self.text@ }
    }
}

impl DeepView for Source {
    type V = SourceView;

    open spec fn deep_view(&self) -> SourceView {
        self.view()
    }
}

/// The records one source contributes for a kind: those of its lines, under
/// the base name of its path.
pub open spec fn source_records(s: SourceView, kind: Marker) -> Seq<CommentView> {
    match base_name_spec(s.path) {
        Some(name) => scan_spec(name, split_lines_spec(s.text), kind),
        None => Seq::empty(),
    }
}

/// The records of all sources for a kind, in source order, then line order.
pub open spec fn collect_spec(sources: Seq<SourceView>, kind: Marker) -> Seq<CommentView>
    decreases sources.len(),
{
    if sources.len() == 0 {
        Seq::empty()
    } else {
        source_records(sources.first(), kind) + collect_spec(sources.drop_first(), kind)
    }
}

/// Every source path has a base name to report under.
pub open spec fn sources_ok(sources: Seq<SourceView>) -> bool {
    forall|i: int| 0 <= i < sources.len() ==> base_name_spec(#[trigger] sources[i].path) is Some
}

proof fn lemma_collect_snoc(sources: Seq<SourceView>, s: SourceView, kind: Marker)
    ensures
        collect_spec(sources.push(s), kind) == collect_spec(sources, kind) + source_records(
            s,
            kind,
        ),
    decreases sources.len(),
{
    if sources.len() == 0 {
        let e = Seq::<SourceView>::empty();
        assert(sources.push(s).first() == s);
        assert(sources.push(s).drop_first() =~= e);
        assert(collect_spec(e, kind) == Seq::<CommentView>::empty());
        assert(sources =~= e);
        let none = Seq::<CommentView>::empty();
        assert(source_records(s, kind) + none =~= none + source_records(s, kind));
    } else {
        assert(sources.push(s).first() == sources.first());
        assert(sources.push(s).drop_first() =~= sources.drop_first().push(s));
        lemma_collect_snoc(sources.drop_first(), s, kind);
        assert(
            source_records(sources.first(), kind) + (collect_spec(sources.drop_first(), kind)
                + source_records(s, kind)) =~= collect_spec(sources, kind) + source_records(
                s,
                kind,
            )
        );
    }
}

/// `c` inserted into `s` after every record whose priority is at least its
/// own.
pub open spec fn insert_desc(s: Seq<CommentView>, c: CommentView) -> Seq<CommentView>
    decreases s.len(),
{
    if s.len() == 0 {
        seq![c]
    } else if s.first().priority >= c.priority {
        seq![s.first()] + insert_desc(s.drop_first(), c)
    } else {
        seq![c] + s
    }
}

/// Where `insert_desc` places `c`: before the first record of lower
/// priority, at the end when there is none.
pub open spec fn insert_pos(s: Seq<CommentView>, c: CommentView) -> int
    decreases s.len(),
{
    if s.len() == 0 {
        0
    } else if s.first().priority >= c.priority {
        1 + insert_pos(s.drop_first(), c)
    } else {
        0
    }
}

/// The records sorted by descending priority, records of equal priority in
/// their original order: each record, taken left to right, inserted after
/// all records that sort no later.
pub open spec fn sort_desc(s: Seq<CommentView>) -> Seq<CommentView>
    decreases s.len(),
{
    if s.len() == 0 {
        s
    } else {
        insert_desc(sort_desc(s.drop_last()), s.last())
    }
}

/// No record has a lower priority than any record after it.
pub open spec fn sorted_desc(s: Seq<CommentView>) -> bool {
    forall|i: int, j: int| 0 <= i <= j < s.len() ==> s[i].priority >= s[j].priority
}

/// The subsequence of records with exactly priority `p`, in order.
pub open spec fn of_priority(s: Seq<CommentView>, p: int) -> Seq<CommentView>
    decreases s.len(),
{
    if s.len() == 0 {
        s
    } else if s.first().priority == p {
        seq![s.first()] + of_priority(s.drop_first(), p)
    } else {
        of_priority(s.drop_first(), p)
    }
}

proof fn lemma_insert_split(s: Seq<CommentView>, c: CommentView)
    ensures
        0 <= insert_pos(s, c) <= s.len(),
        insert_desc(s, c) == s.take(insert_pos(s, c)) + seq![c] + s.skip(insert_pos(s, c)),
    decreases s.len(),
{
    let pos = insert_pos(s, c);
    if s.len() == 0 {
        assert(s.take(0) + seq![c] + s.skip(0) =~= seq![c]);
    } else if s.first().priority >= c.priority {
        lemma_insert_split(s.drop_first(), c);
        assert(
            seq![s.first()] + (s.drop_first().take(pos - 1) + seq![c] + s.drop_first().skip(
                pos - 1,
            )) =~= s.take(pos) + seq![c] + s.skip(pos)
        );
    } else {
        assert(seq![c] + s =~= s.take(0) + seq![c] + s.skip(0));
    }
}

proof fn lemma_insert_pos_props(s: Seq<CommentView>, c: CommentView)
    ensures
        0 <= insert_pos(s, c) <= s.len(),
        forall|d: int| 0 <= d < insert_pos(s, c) ==> s[d].priority >= c.priority,
        insert_pos(s, c) == s.len() || s[insert_pos(s, c)].priority < c.priority,
    decreases s.len(),
{
    if s.len() == 0 {
    } else if s.first().priority >= c.priority {
        lemma_insert_pos_props(s.drop_first(), c);
        let pos = insert_pos(s, c);
        assert forall|d: int| 0 <= d < pos implies s[d].priority >= c.priority by {
            if d > 0 {
                assert(s.drop_first()[d - 1] == s[d]);
                assert(s.drop_first()[d - 1].priority >= c.priority);
            }
        }
        if pos < s.len() {
            assert(s[pos] == s.drop_first()[pos - 1]);
        }
    } else {
    }
}

proof fn lemma_insert_pos_at(s: Seq<CommentView>, c: CommentView, j: int)
    requires
        0 <= j <= s.len(),
        forall|d: int| 0 <= d < j ==> s[d].priority >= c.priority,
        j == s.len() || s[j].priority < c.priority,
    ensures
        insert_pos(s, c) == j,
    decreases s.len(),
{
    if s.len() == 0 {
    } else if j == 0 {
    } else {
        assert(forall|d: int| 0 <= d < s.len() - 1 ==> s.drop_first()[d] == s[d + 1]);
        lemma_insert_pos_at(s.drop_first(), c, j - 1);
    }
}

proof fn lemma_insert_sorted(s: Seq<CommentView>, c: CommentView)
    requires
        sorted_desc(s),
    ensures
        sorted_desc(insert_desc(s, c)),
{
    lemma_insert_split(s, c);
    lemma_insert_pos_props(s, c);
    let pos = insert_pos(s, c);
    let r = insert_desc(s, c);
    assert forall|i: int, j: int| 0 <= i <= j < r.len() implies r[i].priority >= r[j].priority by {
        if i < pos {
            assert(r[i] == s[i]);
        } else if i == pos {
            assert(r[i] == c);
        } else {
            assert(r[i] == s[i - 1]);
        }
        if j < pos {
            assert(r[j] == s[j]);
        } else if j == pos {
            assert(r[j] == c);
        } else {
            assert(r[j] == s[j - 1]);
        }
        if i < pos && j == pos {
            assert(s[i].priority >= c.priority);
        }
        if i == pos && j > pos {
            assert(pos < s.len());
            assert(s[pos].priority < c.priority);
            assert(s[pos].priority >= s[j - 1].priority);
        }
        if i < pos && j > pos {
            assert(s[i].priority >= s[j - 1].priority);
        }
    }
}

proof fn lemma_of_priority_append(a: Seq<CommentView>, b: Seq<CommentView>, p: int)
    ensures
        of_priority(a + b, p) == of_priority(a, p) + of_priority(b, p),
    decreases a.len(),
{
    if a.len() == 0 {
        assert(a + b =~= b);
        assert(of_priority(a, p) + of_priority(b, p) =~= of_priority(b, p));
    } else {
        assert((a + b).first() == a.first());
        assert((a + b).drop_first() =~= a.drop_first() + b);
        lemma_of_priority_append(a.drop_first(), b, p);
        if a.first().priority == p {
            assert(
                seq![a.first()] + (of_priority(a.drop_first(), p) + of_priority(b, p))
                    =~= of_priority(a, p) + of_priority(b, p)
            );
        }
    }
}

proof fn lemma_of_priority_none(s: Seq<CommentView>, p: int)
    requires
        forall|i: int| 0 <= i < s.len() ==> (#[trigger] s[i]).priority != p,
    ensures
        of_priority(s, p) == Seq::<CommentView>::empty(),
    decreases s.len(),
{
    if s.len() == 0 {
        assert(s =~= Seq::<CommentView>::empty());
    } else {
        assert(forall|i: int| 0 <= i < s.len() - 1 ==> s.drop_first()[i] == s[i + 1]);
        lemma_of_priority_none(s.drop_first(), p);
    }
}

proof fn lemma_of_priority_single(c: CommentView, p: int)
    ensures
        of_priority(seq![c], p) == if c.priority == p {
            seq![c]
        } else {
            Seq::<CommentView>::empty()
        },
{
    let s = seq![c];
    let e = Seq::<CommentView>::empty();
    assert(s.first() == c);
    assert(s.drop_first() =~= e);
    assert(of_priority(e, p) == e);
    if c.priority == p {
        assert(of_priority(s, p) == seq![c] + of_priority(e, p));
        assert(seq![c] + e =~= seq![c]);
    }
}

proof fn lemma_insert_of_priority(s: Seq<CommentView>, c: CommentView, p: int)
    requires
        sorted_desc(s),
    ensures
        of_priority(insert_desc(s, c), p) == if p == c.priority {
            of_priority(s, p).push(c)
        } else {
            of_priority(s, p)
        },
{
    lemma_insert_split(s, c);
    lemma_insert_pos_props(s, c);
    let pos = insert_pos(s, c);
    let front = s.take(pos);
    let back = s.skip(pos);
    lemma_of_priority_append(front + seq![c], back, p);
    lemma_of_priority_append(front, seq![c], p);
    lemma_of_priority_append(front, back, p);
    assert(front + seq![c] + back =~= (front + seq![c]) + back);
    assert(s =~= front + back);
    if p == c.priority {
        lemma_of_priority_single(c, p);
        assert forall|i: int| 0 <= i < back.len() implies (#[trigger] back[i]).priority != p by {
            assert(back[i] == s[pos + i]);
            assert(pos < s.len());
            assert(s[pos].priority >= s[pos + i].priority);
            assert(s[pos].priority < c.priority);
        }
        lemma_of_priority_none(back, p);
        assert(
            of_priority(front, p) + seq![c] + Seq::<CommentView>::empty() =~= (of_priority(front, p)
                + Seq::<CommentView>::empty()).push(c)
        );
    } else {
        lemma_of_priority_single(c, p);
        assert(
            of_priority(front, p) + Seq::<CommentView>::empty() + of_priority(back, p)
                =~= of_priority(front, p) + of_priority(back, p)
        );
    }
}

/// The sort of the report is by descending priority: no record in the
/// sorted sequence has a lower priority than any record after it.
pub proof fn lemma_sort_sorted(s: Seq<CommentView>)
    ensures
        sorted_desc(sort_desc(s)),
    decreases s.len(),
{
    if s.len() == 0 {
    } else {
        lemma_sort_sorted(s.drop_last());
        lemma_insert_sorted(sort_desc(s.drop_last()), s.last());
    }
}

/// The sort of the report is stable: for every priority, the records of
/// that priority come out exactly as they went in, in the same order.
pub proof fn lemma_sort_stable(s: Seq<CommentView>)
    ensures
        forall|p: int| of_priority(sort_desc(s), p) == of_priority(s, p),
    decreases s.len(),
{
    if s.len() == 0 {
    } else {
        let rest = s.drop_last();
        let c = s.last();
        lemma_sort_stable(rest);
        lemma_sort_sorted(rest);
        assert forall|p: int| of_priority(sort_desc(s), p) == of_priority(s, p) by {
            lemma_insert_of_priority(sort_desc(rest), c, p);
            assert(s =~= rest + seq![c]);
            lemma_of_priority_append(rest, seq![c], p);
            if p == c.priority {
                lemma_of_priority_single(c, p);
                assert(of_priority(rest, p) + seq![c] =~= of_priority(rest, p).push(c));
            } else {
                lemma_of_priority_single(c, p);
                assert(
                    of_priority(rest, p) + Seq::<CommentView>::empty() =~= of_priority(rest, p)
                );
            }
        }
    }
}

proof fn lemma_sort_len(s: Seq<CommentView>)
    ensures
        sort_desc(s).len() == s.len(),
    decreases s.len(),
{
    if s.len() == 0 {
    } else {
        lemma_sort_len(s.drop_last());
        lemma_insert_split(sort_desc(s.drop_last()), s.last());
    }
}

/// Sorts records by descending priority; records of equal priority keep
/// their relative order.
pub fn sort_by_priority(records: &mut Vec<Comment>)
    ensures
        final(records).deep_view() == sort_desc(old(records).deep_view()),
{
    let ghost orig = records.deep_view();
    if records.len() == 0 {
        return;
    }
    let mut i: usize = 1;
    proof {
        let e = Seq::<CommentView>::empty();
        let one = orig.take(1);
        assert(one.drop_last() =~= e);
        assert(sort_desc(e) == e);
        assert(sort_desc(one) == insert_desc(sort_desc(one.drop_last()), one.last()));
        assert(insert_desc(e, one.last()) == seq![one.last()]);
        assert(seq![one.last()] =~= one);
        assert(sort_desc(one) + orig.skip(1) =~= orig);
    }
    while i < records.len()
        invariant
            1 <= i <= records@.len(),
            records@.len() == orig.len(),
            records.deep_view() == sort_desc(orig.take(i as int)) + orig.skip(i as int),
        decreases records@.len() - i,
    {
        let ghost sorted_prefix = sort_desc(orig.take(i as int));
        let ghost pre = records.deep_view();
        proof {
            lemma_sort_len(orig.take(i as int));
        }
        let c = records.remove(i);
        let cp = c.priority;
        let ghost cv = c@;
        proof {
            assert(pre[i as int] == orig.skip(i as int)[0]);
            assert(cv == orig[i as int]);
            assert(records.deep_view() =~= pre.remove(i as int));
            assert(pre.remove(i as int) =~= sorted_prefix + orig.skip(i + 1));
        }
        let mut j: usize = 0;
        while j < i && records[j].priority >= cp
            invariant
                0 <= j <= i,
                i < orig.len(),
                records@.len() == orig.len() - 1,
                cv.priority == cp as int,
                records.deep_view() == sorted_prefix + orig.skip(i + 1),
                sorted_prefix.len() == i,
                forall|d: int| 0 <= d < j ==> (#[trigger] sorted_prefix[d]).priority >= cp,
            decreases i - j,
        {
            proof {
                assert(records.deep_view()[j as int] == sorted_prefix[j as int]);
            }
            j = j + 1;
        }
        proof {
            if j < i {
                assert(records.deep_view()[j as int] == sorted_prefix[j as int]);
                assert(sorted_prefix[j as int].priority < cp);
            }
            lemma_insert_pos_at(sorted_prefix, cv, j as int);
            lemma_insert_split(sorted_prefix, cv);
        }
        let ghost before_insert = records.deep_view();
        records.insert(j, c);
        proof {
            assert(records.deep_view() =~= before_insert.insert(j as int, cv));
            assert(
                before_insert.insert(j as int, cv) =~= sorted_prefix.take(j as int) + seq![cv]
                    + sorted_prefix.skip(j as int) + orig.skip(i + 1)
            );
            assert(orig.take(i + 1).drop_last() =~= orig.take(i as int));
            assert(orig.take(i + 1).last() == orig[i as int]);
            assert(
                records.deep_view() =~= sort_desc(orig.take(i + 1)) + orig.skip(i + 1)
            );
        }
        i = i + 1;
    }
    proof {
        assert(orig.take(orig.len() as int) =~= orig);
        assert(orig.skip(orig.len() as int) =~= Seq::<CommentView>::empty());
        assert(records.deep_view() =~= sort_desc(orig));
    }
}

/// A finished report: all TODO records and all FIXME records of a tree,
/// each list sorted by descending priority, ties in discovery order.
pub struct Report {
    pub todos: Vec<Comment>,
    pub fixmes: Vec<Comment>,
}

/// What the pipeline owes for given sources: both record lists, collected
/// in source order and line order, then stably sorted by descending
/// priority.
pub open spec fn report_spec(sources: Seq<SourceView>) -> (Seq<CommentView>, Seq<CommentView>) {
    (
        sort_desc(collect_spec(sources, Marker::Todo)),
        sort_desc(collect_spec(sources, Marker::Fixme)),
    )
}

/// The pipeline is a function of the sources alone: a second run over
/// unchanged sources owes, and the verified `aggregate` returns, the very
/// same report, record for record.
pub proof fn lemma_report_repeatable(
    sources: Seq<SourceView>,
    first: (Seq<CommentView>, Seq<CommentView>),
    second: (Seq<CommentView>, Seq<CommentView>),
)
    requires
        first == report_spec(sources),
        second == report_spec(sources),
    ensures
        first == second,
{
}

/// Scans every source, in order, and builds the report: records are
/// collected in source order and line order, then each list is stably
/// sorted by descending priority. Fails, touching nothing, exactly when
/// some source path has no base name; no partial report is produced.
pub fn aggregate(sources: &Vec<Source>) -> (r: Result<Report, ScanError>)
    ensures
        match r {
            Ok(rep) => {
                &&& sources_ok(sources.deep_view())
                &&& rep.todos.deep_view() == report_spec(sources.deep_view()).0
                &&& rep.fixmes.deep_view() == report_spec(sources.deep_view()).1
                &&& sorted_desc(rep.todos.deep_view())
                &&& sorted_desc(rep.fixmes.deep_view())
            },
            Err(e) => {
                &&& e == ScanError::MissingFileName
                &&& !sources_ok(sources.deep_view())
            },
        },
{
    let mut todos: Vec<Comment> = Vec::new();
    let mut fixmes: Vec<Comment> = Vec::new();
    let mut idx: usize = 0;
    proof {
        assert(todos.deep_view() =~= Seq::<CommentView>::empty());
        assert(fixmes.deep_view() =~= Seq::<CommentView>::empty());
        assert(sources.deep_view().take(0) =~= Seq::<SourceView>::empty());
    }
    while idx < sources.len()
        invariant
            0 <= idx <= sources@.len(),
            sources.deep_view().len() == sources@.len(),
            todos.deep_view() == collect_spec(sources.deep_view().take(idx as int), Marker::Todo),
            fixmes.deep_view() == collect_spec(
                sources.deep_view().take(idx as int),
                Marker::Fixme,
            ),
            forall|d: int|
                0 <= d < idx ==> base_name_spec(
                    (#[trigger] sources.deep_view()[d]).path,
                ) is Some,
        decreases sources@.len() - idx,
    {
        let ghost sv = sources.deep_view();
        let lines = split_lines(sources[idx].text.as_str());
        let mut file = File::new();
        proof {
            assert(file.todos.deep_view() =~= Seq::<CommentView>::empty());
            assert(file.fixmes.deep_view() =~= Seq::<CommentView>::empty());
        }
        match file.parse_todos(sources[idx].path.as_str(), &lines) {
            Ok(_) => {},
            Err(err) => {
                proof {
                    assert(base_name_spec(sv[idx as int].path) is None);
                    assert(!sources_ok(sv));
                }
                return Err(err);
            },
        }
        match file.parse_fixmes(sources[idx].path.as_str(), &lines) {
            Ok(_) => {},
            Err(err) => {
                proof {
                    assert(false);
                }
                return Err(err);
            },
        }
        let ghost t0 = todos.deep_view();
        let ghost f0 = fixmes.deep_view();
        todos.append(&mut file.todos);
        fixmes.append(&mut file.fixmes);
        proof {
            let name = base_name_spec(sv[idx as int].path)->Some_0;
            assert(
                todos.deep_view() =~= t0 + scan_spec(
                    name,
                    split_lines_spec(sv[idx as int].text),
                    Marker::Todo,
                )
            );
            assert(
                fixmes.deep_view() =~= f0 + scan_spec(
                    name,
                    split_lines_spec(sv[idx as int].text),
                    Marker::Fixme,
                )
            );
            lemma_collect_snoc(sv.take(idx as int), sv[idx as int], Marker::Todo);
            lemma_collect_snoc(sv.take(idx as int), sv[idx as int], Marker::Fixme);
            assert(sv.take(idx + 1) =~= sv.take(idx as int).push(sv[idx as int]));
        }
        idx = idx + 1;
    }
    proof {
        assert(sources.deep_view().take(sources.deep_view().len() as int) =~= sources.deep_view());
    }
    sort_by_priority(&mut todos);
    sort_by_priority(&mut fixmes);
    proof {
        lemma_sort_sorted(collect_spec(sources.deep_view(), Marker::Todo));
        lemma_sort_sorted(collect_spec(sources.deep_view(), Marker::Fixme));
    }
    Ok(Report { todos, fixmes })
}

} // verus!
