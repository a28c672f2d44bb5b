//! Canonical rendering: each group is sorted by path with a stable
//! insertion into the sorted prefix, groups are emitted in the fixed order
//! builtin, local, external, and one blank line separates two groups
//! exactly when both are non-empty.

use vstd::prelude::*;

use crate::import::EntryModel;
use crate::import::Import;
use crate::import::entry_to_str;
use crate::imports::BlockModel;
use crate::imports::Imports;
use crate::strutil::join_lines;
use crate::strutil::lemma_seq_le_total;
use crate::strutil::seq_le;
use crate::strutil::str_le;

verus! {

/// Insert `e` after every entry whose path is at or below `e`'s path.
pub open spec fn insert_sorted(s: Seq<EntryModel>, e: EntryModel) -> Seq<EntryModel>
    decreases s.len(),
{
    if s.len() == 0 {
        seq![e]
    } else if seq_le(s[0].import, e.import) {
        seq![s[0]] + insert_sorted(s.drop_first(), e)
    } else {
        seq![e] + s
    }
}

/// Stable sort by path: entries are inserted, left to right, into the
/// sorted image of the prefix before them, each after its equals.
pub open spec fn sort_spec(s: Seq<EntryModel>) -> Seq<EntryModel>
    decreases s.len(),
{
    if s.len() == 0 {
        s
    } else {
        insert_sorted(sort_spec(s.drop_last()), s.last())
    }
}

/// Consecutive entries are ordered by path.
pub open spec fn sorted_by_path(s: Seq<EntryModel>) -> bool {
    forall|i: int| 0 <= i < s.len() - 1 ==> seq_le(#[trigger] s[i].import, s[i + 1].import)
}

pub proof fn lemma_insert_sorted_len(s: Seq<EntryModel>, e: EntryModel)
    ensures
        insert_sorted(s, e).len() == s.len() + 1,
    decreases s.len(),
{
    if s.len() > 0 && seq_le(s[0].import, e.import) {
        lemma_insert_sorted_len(s.drop_first(), e);
    }
}

pub proof fn lemma_sort_len(s: Seq<EntryModel>)
    ensures
        sort_spec(s).len() == s.len(),
    decreases s.len(),
{
    if s.len() > 0 {
        lemma_sort_len(s.drop_last());
        lemma_insert_sorted_len(sort_spec(s.drop_last()), s.last());
    }
}

pub proof fn lemma_insert_sorted_sorted(s: Seq<EntryModel>, e: EntryModel)
    requires
        sorted_by_path(s),
    ensures
        sorted_by_path(insert_sorted(s, e)),
    decreases s.len(),
{
    let r = insert_sorted(s, e);
    lemma_insert_sorted_len(s, e);
    if s.len() == 0 {
    } else if seq_le(s[0].import, e.import) {
        let s1 = s.drop_first();
        assert forall|i: int| 0 <= i < s1.len() - 1 implies seq_le(
            #[trigger] s1[i].import,
            s1[i + 1].import,
        ) by {
            assert(s1[i] == s[i + 1]);
            assert(s1[i + 1] == s[i + 2]);
        }
        lemma_insert_sorted_sorted(s1, e);
        let r1 = insert_sorted(s1, e);
        lemma_insert_sorted_len(s1, e);
        assert forall|i: int| 0 <= i < r.len() - 1 implies seq_le(
            #[trigger] r[i].import,
            r[i + 1].import,
        ) by {
            if i == 0 {
                assert(r[0] == s[0]);
                assert(r[1] == r1[0]);
                if s1.len() == 0 {
                    assert(r1[0] == e);
                } else if seq_le(s1[0].import, e.import) {
                    assert(r1[0] == s1[0]);
                    assert(s1[0] == s[1]);
                } else {
                    assert(r1[0] == e);
                }
            } else {
                assert(r[i] == r1[i - 1]);
                assert(r[i + 1] == r1[i]);
            }
        }
    } else {
        lemma_seq_le_total(s[0].import, e.import);
        assert forall|i: int| 0 <= i < r.len() - 1 implies seq_le(
            #[trigger] r[i].import,
            r[i + 1].import,
        ) by {
            if i == 0 {
                assert(r[0] == e);
                assert(r[1] == s[0]);
            } else {
                assert(r[i] == s[i - 1]);
                assert(r[i + 1] == s[i]);
            }
        }
    }
}

/// Within each rendered group, consecutive entries are ordered by path.
pub proof fn lemma_sort_sorted(s: Seq<EntryModel>)
    ensures
        sorted_by_path(sort_spec(s)),
    decreases s.len(),
{
    if s.len() > 0 {
        lemma_sort_sorted(s.drop_last());
        lemma_insert_sorted_sorted(sort_spec(s.drop_last()), s.last());
    }
}

/// In a sorted group the order holds between any two positions, not only
/// neighbours.
proof fn lemma_sorted_le_at(s: Seq<EntryModel>, i: int, j: int)
    requires
        sorted_by_path(s),
        0 <= i <= j < s.len(),
    ensures
        seq_le(s[i].import, s[j].import),
    decreases j - i,
{
    if i == j {
        crate::strutil::lemma_seq_le_refl(s[i].import);
    } else {
        lemma_sorted_le_at(s, i, j - 1);
        crate::strutil::lemma_seq_le_trans(s[i].import, s[j - 1].import, s[j].import);
    }
}

/// Sorting an already-sorted group leaves it untouched.
pub proof fn lemma_sort_of_sorted(s: Seq<EntryModel>)
    requires
        sorted_by_path(s),
    ensures
        sort_spec(s) == s,
    decreases s.len(),
{
    if s.len() > 0 {
        let dl = s.drop_last();
        assert forall|i: int| 0 <= i < dl.len() - 1 implies seq_le(
            #[trigger] dl[i].import,
            dl[i + 1].import,
        ) by {
            assert(dl[i] == s[i]);
            assert(dl[i + 1] == s[i + 1]);
        }
        lemma_sort_of_sorted(dl);
        assert forall|m: int| 0 <= m < dl.len() implies seq_le(
            #[trigger] dl[m].import,
            s.last().import,
        ) by {
            lemma_sorted_le_at(s, m, s.len() - 1);
        }
        lemma_insert_sorted_at(dl, s.last(), dl.len() as int);
        assert(dl.insert(dl.len() as int, s.last()) =~= s);
    }
}

/// Sorting twice is sorting once.
pub proof fn lemma_sort_idempotent(s: Seq<EntryModel>)
    ensures
        sort_spec(sort_spec(s)) == sort_spec(s),
{
    lemma_sort_sorted(s);
    lemma_sort_of_sorted(sort_spec(s));
}

/// Insertion only rearranges: a property of every entry survives it.
proof fn lemma_insert_preserves(p: spec_fn(EntryModel) -> bool, s: Seq<EntryModel>, e: EntryModel)
    requires
        forall|i: int| 0 <= i < s.len() ==> p(#[trigger] s[i]),
        p(e),
    ensures
        forall|i: int| 0 <= i < insert_sorted(s, e).len() ==> p(#[trigger] insert_sorted(s, e)[i]),
    decreases s.len(),
{
    let r = insert_sorted(s, e);
    if s.len() == 0 {
        assert(forall|i: int| 0 <= i < r.len() ==> r[i] == e);
    } else if seq_le(s[0].import, e.import) {
        let s1 = s.drop_first();
        assert(forall|i: int| 0 <= i < s1.len() ==> s1[i] == s[i + 1]);
        lemma_insert_preserves(p, s1, e);
        assert forall|i: int| 0 <= i < r.len() implies p(#[trigger] r[i]) by {
            if i == 0 {
                assert(r[0] == s[0]);
            } else {
                assert(r[i] == insert_sorted(s1, e)[i - 1]);
            }
        }
    } else {
        assert forall|i: int| 0 <= i < r.len() implies p(#[trigger] r[i]) by {
            if i == 0 {
                assert(r[0] == e);
            } else {
                assert(r[i] == s[i - 1]);
            }
        }
    }
}

/// Sorting only rearranges: a property of every entry survives it.
pub proof fn lemma_sort_preserves(p: spec_fn(EntryModel) -> bool, s: Seq<EntryModel>)
    requires
        forall|i: int| 0 <= i < s.len() ==> p(#[trigger] s[i]),
    ensures
        forall|i: int| 0 <= i < sort_spec(s).len() ==> p(#[trigger] sort_spec(s)[i]),
    decreases s.len(),
{
    if s.len() > 0 {
        let dl = s.drop_last();
        assert(forall|i: int| 0 <= i < dl.len() ==> dl[i] == s[i]);
        lemma_sort_preserves(p, dl);
        lemma_insert_preserves(p, sort_spec(dl), s.last());
    }
}

/// Inserting at the position the scan finds is the specified insertion.
proof fn lemma_insert_sorted_at(s: Seq<EntryModel>, e: EntryModel, j: int)
    requires
        0 <= j <= s.len(),
        forall|m: int| 0 <= m < j ==> seq_le(#[trigger] s[m].import, e.import),
        j < s.len() ==> !seq_le(s[j].import, e.import),
    ensures
        insert_sorted(s, e) == s.insert(j, e),
    decreases s.len(),
{
    if j == 0 {
        if s.len() == 0 {
            assert(insert_sorted(s, e) =~= s.insert(0, e));
        } else {
            assert(insert_sorted(s, e) =~= s.insert(0, e));
        }
    } else {
        assert(seq_le(s[0].import, e.import));
        let s1 = s.drop_first();
        assert forall|m: int| 0 <= m < j - 1 implies seq_le(#[trigger] s1[m].import, e.import) by {
            assert(s1[m] == s[m + 1]);
        }
        if j - 1 < s1.len() {
            assert(s1[j - 1] == s[j]);
        }
        lemma_insert_sorted_at(s1, e, j - 1);
        assert(seq![s[0]] + s1.insert(j - 1, e) =~= s.insert(j, e));
    }
}

/// Stable in-place sort of a group by path.
fn sort_imports(list: &mut Vec<Import>)
    ensures
        final (list).deep_view() == sort_spec(old(list).deep_view()),
{
    let ghost orig = old(list).deep_view();
    let mut sorted: Vec<Import> = Vec::new();
    proof {
        assert(orig.take(0) =~= Seq::<EntryModel>::empty());
        assert(sorted.deep_view() =~= sort_spec(orig.take(0)));
        assert(list.deep_view() =~= orig.skip(0));
    }
    while list.len() > 0
        invariant
            list.deep_view().len() == list@.len(),
            sorted.deep_view().len() == sorted@.len(),
            list@.len() <= orig.len(),
            list.deep_view() == orig.skip(orig.len() - list@.len()),
            sorted.deep_view() == sort_spec(orig.take(orig.len() - list@.len())),
        decreases list@.len(),
    {
        let ghost k = orig.len() - list@.len();
        let ghost lv = list@;
        let e = list.remove(0);
        proof {
            assert(e@ == orig.skip(k)[0]);
            assert(orig.skip(k)[0] == orig[k]);
            assert(list@ == lv.remove(0));
            assert forall|m: int| 0 <= m < list@.len() implies list.deep_view()[m] == orig.skip(
                k + 1,
            )[m] by {
                assert(list@[m] == lv[m + 1]);
                assert(orig.skip(k + 1)[m] == orig.skip(k)[m + 1]);
            }
            assert(list.deep_view() =~= orig.skip(k + 1));
        }
        let ghost sdv = sorted.deep_view();
        let mut j: usize = 0;
        while j < sorted.len() && str_le(sorted[j].import.as_str(), e.import.as_str())
            invariant
                0 <= j <= sorted@.len(),
                sdv == sorted.deep_view(),
                sdv.len() == sorted@.len(),
                forall|m: int| 0 <= m < j ==> seq_le(#[trigger] sdv[m].import, e@.import),
            decreases sorted@.len() - j,
        {
            j = j + 1;
        }
        proof {
            lemma_insert_sorted_at(sdv, e@, j as int);
        }
        let ghost vv = sorted@;
        sorted.insert(j, e);
        proof {
            assert(sorted@ == vv.insert(j as int, e));
            assert forall|m: int| 0 <= m < sorted.deep_view().len() implies sorted.deep_view()[m]
                == sdv.insert(j as int, e@)[m] by {
                if m < j {
                    assert(sorted@[m] == vv[m]);
                    assert(sdv.insert(j as int, e@)[m] == sdv[m]);
                } else if m == j {
                    assert(sorted@[m] == e);
                } else {
                    assert(sorted@[m] == vv[m - 1]);
                    assert(sdv.insert(j as int, e@)[m] == sdv[m - 1]);
                }
            }
            assert(sorted.deep_view() =~= sdv.insert(j as int, e@));
            assert(orig.take(k + 1).drop_last() =~= orig.take(k));
            assert(orig.take(k + 1).last() == orig[k]);
            assert(sort_spec(orig.take(k + 1)) == insert_sorted(sort_spec(orig.take(k)), orig[k]));
        }
    }
    proof {
        assert(orig.take(orig.len() as int) =~= orig);
    }
    *list = sorted;
}

/// One sorted group as newline-terminated lines of text.
pub open spec fn group_text(s: Seq<EntryModel>) -> Seq<char>
    decreases s.len(),
{
    if s.len() == 0 {
        Seq::empty()
    } else {
        entry_to_str(s[0]) + seq!['\n'] + group_text(s.drop_first())
    }
}

pub proof fn lemma_group_text_snoc(s: Seq<EntryModel>, x: EntryModel)
    ensures
        group_text(s.push(x)) == group_text(s) + entry_to_str(x) + seq!['\n'],
    decreases s.len(),
{
    let p = s.push(x);
    if s.len() == 0 {
        assert(p[0] == x);
        assert(p.drop_first() =~= Seq::<EntryModel>::empty());
        assert(group_text(p) == entry_to_str(x) + seq!['\n'] + group_text(p.drop_first()));
        assert(entry_to_str(x) + seq!['\n'] + Seq::<char>::empty() =~= Seq::<char>::empty()
            + entry_to_str(x) + seq!['\n']);
    } else {
        assert(p[0] == s[0]);
        assert(p.drop_first() =~= s.drop_first().push(x));
        lemma_group_text_snoc(s.drop_first(), x);
        assert(group_text(p) == entry_to_str(s[0]) + seq!['\n'] + group_text(p.drop_first()));
        assert(entry_to_str(s[0]) + seq!['\n'] + (group_text(s.drop_first()) + entry_to_str(x)
            + seq!['\n']) =~= (entry_to_str(s[0]) + seq!['\n'] + group_text(s.drop_first()))
            + entry_to_str(x) + seq!['\n']);
    }
}

/// The effect of emitting one group: nothing for an empty group; otherwise
/// a separating blank line when a group was already emitted, then the
/// sorted group's lines.
pub open spec fn push_text(out: Seq<char>, previous: bool, g: Seq<EntryModel>) -> (Seq<char>, bool) {
    if g.len() == 0 {
        (out, previous)
    } else {
        (
            (if previous {
                out + seq!['\n']
            } else {
                out
            }) + group_text(sort_spec(g)),
            true,
        )
    }
}

/// The canonical text of a parsed block: the single form verbatim;
/// a grouped block as the opener line, the three groups in fixed order,
/// and the closing delimiter.
pub open spec fn render_spec(st: BlockModel) -> Seq<char> {
    match st.single {
        Some(s) => s,
        None => {
            let s1 = push_text("import (\n"@, false, st.builtin);
            let s2 = push_text(s1.0, s1.1, st.local);
            let s3 = push_text(s2.0, s2.1, st.external);
            s3.0 + seq![')']
        },
    }
}

/// The rendered lines of one entry: its comment lines, then its
/// declaration line.
pub open spec fn entry_lines(e: EntryModel) -> Seq<Seq<char>> {
    match e.comment {
        Some(c) => crate::strutil::split_sep(c, '\n').push(crate::import::entry_line(e)),
        None => seq![crate::import::entry_line(e)],
    }
}

/// The lines of a group, one entry after the other.
pub open spec fn group_lines(s: Seq<EntryModel>) -> Seq<Seq<char>>
    decreases s.len(),
{
    if s.len() == 0 {
        Seq::empty()
    } else {
        entry_lines(s[0]) + group_lines(s.drop_first())
    }
}

/// The lines one group contributes: nothing when empty; otherwise one
/// blank separator line when an earlier group was emitted, then the sorted
/// group's lines.
pub open spec fn section_lines(g: Seq<EntryModel>, previous: bool) -> Seq<Seq<char>> {
    if g.len() == 0 {
        Seq::empty()
    } else if previous {
        seq![Seq::<char>::empty()] + group_lines(sort_spec(g))
    } else {
        group_lines(sort_spec(g))
    }
}

/// The rendered grouped block as its sequence of lines: the opener, the
/// three groups in the fixed order builtin, local, external — a blank
/// line standing before a group exactly when both it and some group
/// before it are non-empty — and the closing delimiter.
pub open spec fn render_lines(st: BlockModel) -> Seq<Seq<char>> {
    seq!["import ("@] + section_lines(st.builtin, false) + section_lines(
        st.local,
        st.builtin.len() > 0,
    ) + section_lines(st.external, st.builtin.len() > 0 || st.local.len() > 0) + seq![")"@]
}

proof fn lemma_join_concat(a: Seq<Seq<char>>, b: Seq<Seq<char>>)
    requires
        a.len() > 0,
        b.len() > 0,
    ensures
        crate::strutil::join_lines(a + b) == crate::strutil::join_lines(a) + seq!['\n']
            + crate::strutil::join_lines(b),
    decreases a.len(),
{
    if a.len() == 1 {
        assert((a + b)[0] == a[0]);
        assert((a + b).drop_first() =~= b);
        assert(join_lines(a + b) == (a + b)[0] + seq!['\n'] + join_lines((a + b).drop_first()));
        assert(join_lines(a) == a[0]);
    } else {
        assert((a + b)[0] == a[0]);
        assert((a + b).drop_first() =~= a.drop_first() + b);
        lemma_join_concat(a.drop_first(), b);
        assert(join_lines(a + b) == a[0] + seq!['\n'] + join_lines((a + b).drop_first()));
        assert(a[0] + seq!['\n'] + (join_lines(a.drop_first()) + seq!['\n'] + join_lines(b)) =~= (a[0] + seq!['\n']
            + join_lines(a.drop_first())) + seq!['\n'] + join_lines(b));
    }
}

/// A group's text is its lines joined, with one more newline at the end.
proof fn lemma_group_text_lines(s: Seq<EntryModel>)
    requires
        s.len() > 0,
    ensures
        group_lines(s).len() > 0,
        group_text(s) == crate::strutil::join_lines(group_lines(s)) + seq!['\n'],
    decreases s.len(),
{
    let e = s[0];
    // One entry's text is its lines joined.
    assert(entry_lines(e).len() > 0);
    assert(join_lines(entry_lines(e)) == entry_to_str(e)) by {
        match e.comment {
            Some(c) => {
                let ps = crate::strutil::split_sep(c, '\n');
                crate::strutil::lemma_split_sep_basic(c, '\n');
                crate::strutil::lemma_join_split(c, '\n');
                crate::strutil::lemma_join_snoc(ps, crate::import::entry_line(e));
            },
            None => {
                assert(entry_lines(e) == seq![crate::import::entry_line(e)]);
            },
        }
    }
    if s.len() == 1 {
        assert(group_lines(s) =~= entry_lines(e) + group_lines(s.drop_first()));
        assert(group_lines(s.drop_first()) =~= Seq::<Seq<char>>::empty());
        assert(group_lines(s) =~= entry_lines(e));
        assert(group_text(s) == entry_to_str(e) + seq!['\n'] + group_text(s.drop_first()));
        assert(group_text(s.drop_first()) =~= Seq::<char>::empty());
        assert(entry_to_str(e) + seq!['\n'] + Seq::<char>::empty() =~= join_lines(entry_lines(e))
            + seq!['\n']);
    } else {
        lemma_group_text_lines(s.drop_first());
        lemma_join_concat(entry_lines(e), group_lines(s.drop_first()));
        assert(group_lines(s) == entry_lines(e) + group_lines(s.drop_first()));
        assert(join_lines(group_lines(s)) == join_lines(entry_lines(e)) + seq!['\n'] + join_lines(
            group_lines(s.drop_first()),
        ));
        assert(group_text(s) == entry_to_str(e) + seq!['\n'] + group_text(s.drop_first()));
        assert(entry_to_str(e) + seq!['\n'] + (join_lines(group_lines(s.drop_first())) + seq!['\n']) =~= (join_lines(
            entry_lines(e),
        ) + seq!['\n'] + join_lines(group_lines(s.drop_first()))) + seq!['\n']);
    }
}

/// One fold step at the line level matches the same step at the text
/// level, keeping "text == joined lines + newline".
proof fn lemma_push_lines_step(out: Seq<char>, ls: Seq<Seq<char>>, previous: bool, g: Seq<
    EntryModel,
>)
    requires
        ls.len() > 0,
        out == crate::strutil::join_lines(ls) + seq!['\n'],
    ensures
        ({
            let nout = push_text(out, previous, g).0;
            let nls = ls + section_lines(g, previous);
            &&& nls.len() > 0
            &&& nout == crate::strutil::join_lines(nls) + seq!['\n']
            &&& push_text(out, previous, g).1 == (previous || g.len() > 0)
        }),
{
    if g.len() == 0 {
        assert(ls + section_lines(g, previous) =~= ls);
    } else {
        lemma_sort_len(g);
        lemma_group_text_lines(sort_spec(g));
        let gl = group_lines(sort_spec(g));
        if previous {
            let sep = seq![Seq::<char>::empty()];
            let nls = ls + (sep + gl);
            lemma_join_concat(sep, gl);
            lemma_join_concat(ls, sep + gl);
            assert(join_lines(sep) =~= Seq::<char>::empty());
            assert(join_lines(nls) == join_lines(ls) + seq!['\n'] + (Seq::<char>::empty() + seq!['\n'] + join_lines(gl)));
            assert(join_lines(nls) + seq!['\n'] =~= (out + seq!['\n']) + (join_lines(gl) + seq!['\n']));
            assert(push_text(out, previous, g).0 == (out + seq!['\n']) + group_text(sort_spec(g)));
            assert(ls + section_lines(g, previous) =~= nls);
        } else {
            let nls = ls + gl;
            lemma_join_concat(ls, gl);
            assert(join_lines(nls) + seq!['\n'] =~= out + (join_lines(gl) + seq!['\n']));
            assert(push_text(out, previous, g).0 == out + group_text(sort_spec(g)));
        }
    }
}

/// The rendered text of a grouped block is exactly its rendered lines,
/// joined with newlines. With the shape of `render_lines` this shows the
/// fixed group order and the blank-line rule of the canonical form.
pub proof fn lemma_render_structure(st: BlockModel)
    requires
        st.single is None,
    ensures
        render_lines(st).len() >= 2,
        render_lines(st)[0] == "import ("@,
        render_lines(st).last() == ")"@,
        render_spec(st) == crate::strutil::join_lines(render_lines(st)),
{
    let header = seq!["import ("@];
    reveal_strlit("import (");
    reveal_strlit("import (\n");
    assert("import (\n"@ =~= "import ("@ + seq!['\n']);
    assert(join_lines(header) == "import ("@);
    let s1 = push_text("import (\n"@, false, st.builtin);
    let s2 = push_text(s1.0, s1.1, st.local);
    let s3 = push_text(s2.0, s2.1, st.external);
    let l1 = header + section_lines(st.builtin, false);
    let l2 = l1 + section_lines(st.local, s1.1);
    let l3 = l2 + section_lines(st.external, s2.1);
    lemma_push_lines_step("import (\n"@, header, false, st.builtin);
    lemma_push_lines_step(s1.0, l1, s1.1, st.local);
    lemma_push_lines_step(s2.0, l2, s2.1, st.external);
    assert(s1.1 == (st.builtin.len() > 0));
    assert(s2.1 == (st.builtin.len() > 0 || st.local.len() > 0));
    let closer = seq![")"@];
    crate::strutil::lemma_join_snoc(l3, ")"@);
    assert(l3.push(")"@) =~= l3 + closer);
    assert(render_lines(st) =~= l3 + closer);
    reveal_strlit(")");
    assert(")"@ =~= seq![')']);
    assert(render_spec(st) == s3.0 + seq![')']);
    assert(join_lines(l3 + closer) =~= join_lines(l3) + seq!['\n'] + ")"@);
    assert(s3.0 + seq![')'] =~= (join_lines(l3) + seq!['\n']) + ")"@);
    assert(render_lines(st)[0] == "import ("@);
    assert(render_lines(st).last() == ")"@);
}

/// Accumulates the rendered block: the text so far and whether a non-empty
/// group has been emitted.
pub struct ImportString {
    pub out: String,
    pub previous: bool,
}

impl ImportString {
    pub fn new(header: String) -> (r: ImportString)
        ensures
            r.out@ == header@,
            r.previous == false,
    {
        ImportString { out: header, previous: false }
    }

    /// Sorts the group in place and appends its rendering.
    pub fn push(self, list: &mut Vec<Import>) -> (r: ImportString)
        ensures
            final (list).deep_view() == sort_spec(old(list).deep_view()),
            r.out@ == push_text(self.out@, self.previous, old(list).deep_view()).0,
            r.previous == push_text(self.out@, self.previous, old(list).deep_view()).1,
    {
        let ghost old_dv = list.deep_view();
        if list.is_empty() {
            proof {
                assert(old_dv =~= Seq::<EntryModel>::empty());
                assert(sort_spec(old_dv) == old_dv);
            }
            return self;
        }
        let mut out = self.out;
        if self.previous {
            out.append("\n");
            proof {
                reveal_strlit("\n");
                assert("\n"@ =~= seq!['\n']);
            }
        }
        sort_imports(list);
        let ghost sorted_dv = list.deep_view();
        let ghost base = out@;
        proof {
            lemma_sort_len(old_dv);
            assert(sorted_dv.take(0) =~= Seq::<EntryModel>::empty());
            assert(base + group_text(sorted_dv.take(0)) =~= base);
        }
        let mut i: usize = 0;
        while i < list.len()
            invariant
                0 <= i <= list@.len(),
                sorted_dv == list.deep_view(),
                sorted_dv.len() == list@.len(),
                out@ == base + group_text(sorted_dv.take(i as int)),
            decreases list@.len() - i,
        {
            let t = list[i].to_str();
            out.append(t.as_str());
            out.append("\n");
            proof {
                reveal_strlit("\n");
                assert("\n"@ =~= seq!['\n']);
                assert(sorted_dv.take(i + 1) =~= sorted_dv.take(i as int).push(sorted_dv[i as int]));
                lemma_group_text_snoc(sorted_dv.take(i as int), sorted_dv[i as int]);
                assert(sorted_dv[i as int] == list@[i as int]@);
                assert((base + group_text(sorted_dv.take(i as int))) + entry_to_str(
                    sorted_dv[i as int],
                ) + seq!['\n'] =~= base + (group_text(sorted_dv.take(i as int)) + entry_to_str(
                    sorted_dv[i as int],
                ) + seq!['\n']));
            }
            i = i + 1;
        }
        proof {
            assert(sorted_dv.take(sorted_dv.len() as int) =~= sorted_dv);
        }
        ImportString { out, previous: true }
    }

    /// Appends the closing delimiter.
    pub fn build(self) -> (r: String)
        ensures
            r@ == self.out@ + seq![')'],
    {
        let mut out = self.out;
        out.append(")");
        proof {
            reveal_strlit(")");
            assert(")"@ =~= seq![')']);
        }
        out
    }
}

impl Imports {
    /// The canonical text of the block; the grouped form leaves each group
    /// sorted in place.
    pub fn output(&mut self) -> (r: String)
        ensures
            r@ == render_spec(old(self)@),
            old(self)@.single is Some ==> final (self)@ == old(self)@,
            old(self)@.single is None ==> final (self)@ == (BlockModel {
                builtin: sort_spec(old(self)@.builtin),
                local: sort_spec(old(self)@.local),
                external: sort_spec(old(self)@.external),
                ..old(self)@
            }),
    {
        match &self.single {
            Some(s) => {
                return s.clone();
            },
            None => {},
        }
        let header: String = "import (\n".to_owned();
        let is0 = ImportString::new(header);
        let is1 = is0.push(&mut self.builtin);
        let is2 = is1.push(&mut self.local);
        let is3 = is2.push(&mut self.external);
        is3.build()
    }
}

} // verus!
