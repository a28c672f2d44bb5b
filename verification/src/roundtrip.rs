//! Idempotence of canonicalization: parsing the rendered text of a
//! well-formed block and rendering the parse reproduces the text exactly.
//! Well-formedness asks only what parsing itself establishes — declaration
//! lines that parse back to their entries, comments made of comment
//! lines — plus that no declaration line doubles as the closing delimiter
//! and that a rendered line classifies into its own group.

use vstd::prelude::*;

use crate::import::EntryModel;
use crate::import::entry_line;
use crate::import::parse_entry_spec;
use crate::imports::BlockModel;
use crate::imports::comment_step;
use crate::imports::entry_step;
use crate::imports::is_comment_line;
use crate::imports::lemma_run_concat;
use crate::imports::run_spec;
use crate::imports::step_spec;
use crate::matcher::PackageType;
use crate::matcher::external_match;
use crate::matcher::package_spec;
use crate::render::entry_lines;
use crate::render::group_lines;
use crate::strutil::join_lines;
use crate::strutil::lemma_join_split;
use crate::strutil::lemma_split_sep_basic;
use crate::strutil::sep_free;
use crate::strutil::split_sep;

verus! {

/// Every line of the comment block carries the comment marker.
pub open spec fn comment_wf(c: Seq<char>) -> bool {
    forall|i: int|
        0 <= i < split_sep(c, '\n').len() ==> is_comment_line(#[trigger] split_sep(c, '\n')[i])
}

/// An entry as the block parser builds it: its declaration line parses
/// back to it, is no comment line, no closing delimiter, and spans one
/// line; its comment block is made of comment lines.
pub open spec fn entry_wf(e: EntryModel) -> bool {
    &&& parse_entry_spec(entry_line(e)) == (EntryModel { comment: None, ..e })
    &&& entry_line(e) != ")"@
    &&& !is_comment_line(entry_line(e))
    &&& sep_free(entry_line(e), '\n')
    &&& (match e.comment {
        Some(c) => comment_wf(c),
        None => true,
    })
}

/// A group whose entries are well-formed, classify into the group's own
/// category, and — in the builtin group — render to non-empty lines.
pub open spec fn group_wf(prefixes: Seq<Seq<char>>, g: Seq<EntryModel>, cat: PackageType) -> bool {
    forall|i: int|
        0 <= i < g.len() ==> {
            &&& entry_wf(#[trigger] g[i])
            &&& package_spec(prefixes, entry_line(g[i])) == cat
            &&& (cat is Other ==> entry_line(g[i]).len() > 0)
        }
}

/// A grouped block as the parser leaves it.
pub open spec fn block_wf(prefixes: Seq<Seq<char>>, st: BlockModel) -> bool {
    &&& st.single is None
    &&& group_wf(prefixes, st.builtin, PackageType::Other)
    &&& group_wf(prefixes, st.local, PackageType::Local)
    &&& group_wf(prefixes, st.external, PackageType::External)
}

/// Scanning a run of comment lines only accumulates them, newline-joined,
/// onto the pending comment.
proof fn lemma_run_comment_lines(prefixes: Seq<Seq<char>>, st: BlockModel, ps: Seq<Seq<char>>)
    requires
        ps.len() > 0,
        forall|i: int| 0 <= i < ps.len() ==> is_comment_line(#[trigger] ps[i]),
    ensures
        run_spec(prefixes, st, ps) == (BlockModel {
            comment: Some(
                match st.comment {
                    None => join_lines(ps),
                    Some(c0) => c0 + seq!['\n'] + join_lines(ps),
                },
            ),
            empty_lines: st.empty_lines + ps.len(),
            ..st
        }),
    decreases ps.len(),
{
    let st1 = step_spec(prefixes, st, ps[0]);
    assert(st1 == comment_step(st, ps[0]));
    if ps.len() == 1 {
        assert(ps.drop_first() =~= Seq::<Seq<char>>::empty());
        assert(run_spec(prefixes, st, ps) == st1);
        assert(join_lines(ps) == ps[0]);
    } else {
        let rest = ps.drop_first();
        assert(forall|i: int| 0 <= i < rest.len() ==> rest[i] == ps[i + 1]);
        lemma_run_comment_lines(prefixes, st1, rest);
        assert(run_spec(prefixes, st, ps) == run_spec(prefixes, st1, rest));
        assert(join_lines(ps) == ps[0] + seq!['\n'] + join_lines(rest));
        match st.comment {
            None => {
                assert(st1.comment == Some(ps[0]));
            },
            Some(c0) => {
                assert(st1.comment == Some(c0 + seq!['\n'] + ps[0]));
                assert((c0 + seq!['\n'] + ps[0]) + seq!['\n'] + join_lines(rest) =~= c0
                    + seq!['\n'] + (ps[0] + seq!['\n'] + join_lines(rest)));
            },
        }
    }
}

/// A blank separator line only counts: the groups and the (cleared)
/// pending comment are untouched.
proof fn lemma_step_blank(prefixes: Seq<Seq<char>>, st: BlockModel)
    requires
        st.comment is None,
    ensures
        step_spec(prefixes, st, Seq::<char>::empty()) == (BlockModel {
            empty_lines: st.empty_lines + 1,
            ..st
        }),
{
    let l = Seq::<char>::empty();
    assert(crate::strutil::trim_spec(l).len() == 0);
    assert(!is_comment_line(l));
    assert(!external_match(l));
    assert(package_spec(prefixes, l) is Other);
    assert(step_spec(prefixes, st, l) == entry_step(prefixes, st, l));
}

/// Scanning one entry's rendered lines: the comment lines accumulate and
/// then attach to the declaration line, which lands in its own group.
proof fn lemma_run_entry(prefixes: Seq<Seq<char>>, st: BlockModel, e: EntryModel, cat: PackageType)
    requires
        st.comment is None,
        entry_wf(e),
        package_spec(prefixes, entry_line(e)) == cat,
        cat is Other ==> entry_line(e).len() > 0,
    ensures
        run_spec(prefixes, st, entry_lines(e)) == (BlockModel {
            builtin: if cat is Other {
                st.builtin.push(e)
            } else {
                st.builtin
            },
            local: if cat is Local {
                st.local.push(e)
            } else {
                st.local
            },
            external: if cat is External {
                st.external.push(e)
            } else {
                st.external
            },
            comment: None,
            empty_lines: st.empty_lines + entry_lines(e).len() - 1,
            ..st
        }),
{
    let l = entry_line(e);
    match e.comment {
        None => {
            assert(entry_lines(e) == seq![l]);
            assert(entry_lines(e)[0] == l);
            assert(entry_lines(e).drop_first() =~= Seq::<Seq<char>>::empty());
            let st1 = step_spec(prefixes, st, l);
            assert(run_spec(prefixes, st, entry_lines(e)) == run_spec(
                prefixes,
                st1,
                entry_lines(e).drop_first(),
            ));
            assert(run_spec(prefixes, st, entry_lines(e)) == st1);
            assert(st1 == entry_step(prefixes, st, l));
            assert((EntryModel { comment: st.comment, ..parse_entry_spec(l) }) == e);
        },
        Some(c) => {
            let ps = split_sep(c, '\n');
            lemma_split_sep_basic(c, '\n');
            lemma_join_split(c, '\n');
            assert(entry_lines(e) == ps.push(l));
            assert(ps.push(l) =~= ps + seq![l]);
            lemma_run_concat(prefixes, st, ps, seq![l]);
            lemma_run_comment_lines(prefixes, st, ps);
            let st1 = run_spec(prefixes, st, ps);
            assert(st1.comment == Some(join_lines(ps)));
            assert(join_lines(ps) == c);
            assert(seq![l].drop_first() =~= Seq::<Seq<char>>::empty());
            assert(seq![l][0] == l);
            let st2 = step_spec(prefixes, st1, l);
            assert(run_spec(prefixes, st1, seq![l]) == run_spec(
                prefixes,
                st2,
                seq![l].drop_first(),
            ));
            assert(run_spec(prefixes, st1, seq![l]) == st2);
            assert(st2 == entry_step(prefixes, st1, l));
            assert((EntryModel { comment: st1.comment, ..parse_entry_spec(l) }) == e);
        },
    }
}

/// The state a scanned group leaves behind: its entries appended to the
/// group of its category, `blanks` more counted lines, no pending comment.
spec fn pushed_group(st: BlockModel, g: Seq<EntryModel>, cat: PackageType, blanks: int) -> BlockModel {
    BlockModel {
        builtin: if cat is Other {
            st.builtin + g
        } else {
            st.builtin
        },
        local: if cat is Local {
            st.local + g
        } else {
            st.local
        },
        external: if cat is External {
            st.external + g
        } else {
            st.external
        },
        single: st.single,
        comment: None,
        empty_lines: st.empty_lines + blanks,
    }
}

/// Scanning a whole group's rendered lines appends exactly its entries,
/// in order, to the group of their category.
proof fn lemma_run_group(prefixes: Seq<Seq<char>>, st: BlockModel, g: Seq<EntryModel>, cat: PackageType)
    requires
        st.comment is None,
        group_wf(prefixes, g, cat),
    ensures
        group_lines(g).len() >= g.len(),
        run_spec(prefixes, st, group_lines(g)) == pushed_group(
            st,
            g,
            cat,
            group_lines(g).len() - g.len(),
        ),
    decreases g.len(),
{
    if g.len() == 0 {
        assert(group_lines(g) =~= Seq::<Seq<char>>::empty());
        assert(run_spec(prefixes, st, group_lines(g)) == st);
        assert(st =~= pushed_group(st, g, cat, 0));
    } else {
        let e = g[0];
        let rest = g.drop_first();
        assert(forall|i: int| 0 <= i < rest.len() ==> rest[i] == g[i + 1]);
        assert(group_lines(g) == entry_lines(e) + group_lines(rest));
        lemma_run_concat(prefixes, st, entry_lines(e), group_lines(rest));
        assert(entry_lines(e).len() >= 1);
        lemma_run_entry(prefixes, st, e, cat);
        let st1 = run_spec(prefixes, st, entry_lines(e));
        lemma_run_group(prefixes, st1, rest, cat);
        assert(st.builtin.push(e) + rest =~= st.builtin + g);
        assert(st.local.push(e) + rest =~= st.local + g);
        assert(st.external.push(e) + rest =~= st.external + g);
        assert(run_spec(prefixes, st, group_lines(g)) =~= pushed_group(
            st,
            g,
            cat,
            group_lines(g).len() - g.len(),
        ));
    }
}

/// Scanning one rendered section: nothing for an empty group; otherwise
/// the possible blank separator is counted and the sorted group lands in
/// its category's group.
proof fn lemma_run_section(
    prefixes: Seq<Seq<char>>,
    st: BlockModel,
    g: Seq<EntryModel>,
    cat: PackageType,
    previous: bool,
)
    requires
        st.comment is None,
        group_wf(prefixes, crate::render::sort_spec(g), cat),
    ensures
        run_spec(prefixes, st, crate::render::section_lines(g, previous)) == (if g.len() == 0 {
            st
        } else {
            pushed_group(
                st,
                crate::render::sort_spec(g),
                cat,
                crate::render::section_lines(g, previous).len() - g.len(),
            )
        }),
{
    let sg = crate::render::sort_spec(g);
    crate::render::lemma_sort_len(g);
    let sec = crate::render::section_lines(g, previous);
    if g.len() == 0 {
        assert(sec =~= Seq::<Seq<char>>::empty());
        assert(run_spec(prefixes, st, sec) == st);
    } else if previous {
        let sep = seq![Seq::<char>::empty()];
        assert(sec == sep + group_lines(sg));
        lemma_run_concat(prefixes, st, sep, group_lines(sg));
        lemma_step_blank(prefixes, st);
        assert(sep[0] == Seq::<char>::empty());
        assert(sep.drop_first() =~= Seq::<Seq<char>>::empty());
        let st1 = step_spec(prefixes, st, Seq::<char>::empty());
        assert(run_spec(prefixes, st, sep) == run_spec(prefixes, st1, sep.drop_first()));
        assert(run_spec(prefixes, st, sep) == st1);
        lemma_run_group(prefixes, st1, sg, cat);
        assert(run_spec(prefixes, st, sec) =~= pushed_group(st, sg, cat, sec.len() - g.len()));
    } else {
        assert(sec == group_lines(sg));
        lemma_run_group(prefixes, st, sg, cat);
        assert(run_spec(prefixes, st, sec) =~= pushed_group(st, sg, cat, sec.len() - g.len()));
    }
}

/// A body line of a rendered block: it spans one line and is not the
/// closing delimiter.
spec fn body_line_ok(l: Seq<char>) -> bool {
    &&& sep_free(l, '\n')
    &&& l != ")"@
}

/// A comment line is never the closing delimiter: it needs two characters
/// after trimming.
proof fn lemma_comment_not_close(p: Seq<char>)
    requires
        is_comment_line(p),
    ensures
        p != ")"@,
{
    reveal_strlit(")");
    if p == ")"@ {
        crate::strutil::lemma_trim_bounds(p);
        assert(crate::strutil::trim_spec(p).len() <= 1);
    }
}

proof fn lemma_entry_lines_ok(e: EntryModel)
    requires
        entry_wf(e),
    ensures
        entry_lines(e).len() >= 1,
        forall|i: int| 0 <= i < entry_lines(e).len() ==> body_line_ok(#[trigger] entry_lines(e)[i]),
{
    let el = entry_lines(e);
    match e.comment {
        None => {
            assert(el[0] == entry_line(e));
        },
        Some(c) => {
            let ps = split_sep(c, '\n');
            lemma_split_sep_basic(c, '\n');
            assert forall|i: int| 0 <= i < el.len() implies body_line_ok(#[trigger] el[i]) by {
                if i < ps.len() {
                    assert(el[i] == ps[i]);
                    assert(is_comment_line(ps[i]));
                    lemma_comment_not_close(ps[i]);
                    assert(forall|j: int| 0 <= j < ps[i].len() ==> ps[i][j] != '\n');
                } else {
                    assert(el[i] == entry_line(e));
                }
            }
        },
    }
}

proof fn lemma_group_lines_ok(g: Seq<EntryModel>)
    requires
        forall|i: int| 0 <= i < g.len() ==> entry_wf(#[trigger] g[i]),
    ensures
        forall|i: int| 0 <= i < group_lines(g).len() ==> body_line_ok(#[trigger] group_lines(g)[i]),
    decreases g.len(),
{
    if g.len() > 0 {
        let rest = g.drop_first();
        assert(forall|i: int| 0 <= i < rest.len() ==> rest[i] == g[i + 1]);
        lemma_entry_lines_ok(g[0]);
        lemma_group_lines_ok(rest);
        assert forall|i: int| 0 <= i < group_lines(g).len() implies body_line_ok(
            #[trigger] group_lines(g)[i],
        ) by {
            assert(group_lines(g) == entry_lines(g[0]) + group_lines(rest));
            if i < entry_lines(g[0]).len() {
                assert(group_lines(g)[i] == entry_lines(g[0])[i]);
            } else {
                assert(group_lines(g)[i] == group_lines(rest)[i - entry_lines(g[0]).len()]);
            }
        }
    }
}

proof fn lemma_section_lines_ok(g: Seq<EntryModel>, previous: bool)
    requires
        forall|i: int| 0 <= i < g.len() ==> entry_wf(#[trigger] g[i]),
    ensures
        forall|i: int|
            0 <= i < crate::render::section_lines(g, previous).len() ==> body_line_ok(
                #[trigger] crate::render::section_lines(g, previous)[i],
            ),
{
    reveal_strlit(")");
    let sg = crate::render::sort_spec(g);
    let p = |e: EntryModel| entry_wf(e);
    assert(forall|i: int| 0 <= i < g.len() ==> p(#[trigger] g[i]));
    crate::render::lemma_sort_preserves(p, g);
    assert(forall|i: int| 0 <= i < sg.len() ==> entry_wf(#[trigger] sg[i]));
    lemma_group_lines_ok(sg);
    let sec = crate::render::section_lines(g, previous);
    assert forall|i: int| 0 <= i < sec.len() implies body_line_ok(#[trigger] sec[i]) by {
        if g.len() == 0 {
        } else if previous {
            if i == 0 {
                assert(sec[0] == Seq::<char>::empty());
                assert(")"@.len() == 1);
            } else {
                assert(sec[i] == group_lines(sg)[i - 1]);
            }
        } else {
            assert(sec[i] == group_lines(sg)[i]);
        }
    }
}

/// Parsing the rendered text of a well-formed block gives the same three
/// groups back, each sorted, again as a grouped block.
pub proof fn lemma_parse_of_render(prefixes: Seq<Seq<char>>, st: BlockModel)
    requires
        block_wf(prefixes, st),
    ensures
        ({
            let st2 = crate::imports::block_model(
                prefixes,
                crate::gofile::lines_spec(crate::render::render_spec(st)),
            );
            &&& st2.single is None
            &&& st2.builtin == crate::render::sort_spec(st.builtin)
            &&& st2.local == crate::render::sort_spec(st.local)
            &&& st2.external == crate::render::sort_spec(st.external)
        }),
{
    let rl = crate::render::render_lines(st);
    crate::render::lemma_render_structure(st);
    reveal_strlit("import (");
    reveal_strlit(")");
    assert("import ("@ =~= seq!['i', 'm', 'p', 'o', 'r', 't', ' ', '(']);
    assert(")"@ =~= seq![')']);
    let opener = seq!["import ("@];
    let closer = seq![")"@];
    let sec1 = crate::render::section_lines(st.builtin, false);
    let sec2 = crate::render::section_lines(st.local, st.builtin.len() > 0);
    let sec3 = crate::render::section_lines(
        st.external,
        st.builtin.len() > 0 || st.local.len() > 0,
    );
    lemma_section_lines_ok(st.builtin, false);
    lemma_section_lines_ok(st.local, st.builtin.len() > 0);
    lemma_section_lines_ok(st.external, st.builtin.len() > 0 || st.local.len() > 0);
    assert(rl == opener + sec1 + sec2 + sec3 + closer);
    // Every rendered line spans one line of text.
    assert(sep_free("import ("@, '\n'));
    assert(sep_free(")"@, '\n'));
    assert forall|i: int| 0 <= i < rl.len() implies sep_free(#[trigger] rl[i], '\n') by {
        if i == 0 {
            assert(rl[i] == "import ("@);
        } else if i == rl.len() - 1 {
            assert(rl[i] == ")"@);
        } else {
            let k = i - 1;
            if k < sec1.len() {
                assert(rl[i] == sec1[k]);
            } else if k < sec1.len() + sec2.len() {
                assert(rl[i] == sec2[k - sec1.len()]);
            } else {
                assert(rl[i] == sec3[k - sec1.len() - sec2.len()]);
            }
        }
    }
    // Splitting the rendered text recovers exactly the rendered lines.
    crate::strutil::lemma_split_join(rl, '\n');
    let b = crate::render::render_spec(st);
    assert(split_sep(b, '\n') == rl);
    assert(rl.last() == ")"@);
    assert(rl.last().len() == 1);
    assert(crate::gofile::lines_spec(b) == rl);
    // The first line opens a grouped block; the first closing delimiter is
    // the last line.
    assert(crate::imports::is_open_line(rl[0]));
    assert forall|k: int| 1 <= k < rl.len() - 1 implies !crate::imports::is_close_line(
        #[trigger] rl[k],
    ) by {
        let kk = k - 1;
        if kk < sec1.len() {
            assert(rl[k] == sec1[kk]);
        } else if kk < sec1.len() + sec2.len() {
            assert(rl[k] == sec2[kk - sec1.len()]);
        } else {
            assert(rl[k] == sec3[kk - sec1.len() - sec2.len()]);
        }
    }
    assert(crate::imports::is_close_line(rl[rl.len() - 1]));
    crate::imports::lemma_close_from_unique(rl, 1, rl.len() - 1);
    let body = crate::imports::block_body(rl);
    assert(body =~= sec1 + sec2 + sec3);
    // Scanning the body rebuilds the three sorted groups in order.
    let st0 = crate::imports::empty_block();
    lemma_run_concat(prefixes, st0, sec1 + sec2, sec3);
    lemma_run_concat(prefixes, st0, sec1, sec2);
    assert((sec1 + sec2) + sec3 =~= body);
    let pb = |e: EntryModel|
        {
            &&& entry_wf(e)
            &&& package_spec(prefixes, entry_line(e)) == PackageType::Other
            &&& entry_line(e).len() > 0
        };
    let pl = |e: EntryModel|
        {
            &&& entry_wf(e)
            &&& package_spec(prefixes, entry_line(e)) == PackageType::Local
        };
    let px = |e: EntryModel|
        {
            &&& entry_wf(e)
            &&& package_spec(prefixes, entry_line(e)) == PackageType::External
        };
    assert(forall|i: int| 0 <= i < st.builtin.len() ==> pb(#[trigger] st.builtin[i]));
    assert(forall|i: int| 0 <= i < st.local.len() ==> pl(#[trigger] st.local[i]));
    assert(forall|i: int| 0 <= i < st.external.len() ==> px(#[trigger] st.external[i]));
    crate::render::lemma_sort_preserves(pb, st.builtin);
    crate::render::lemma_sort_preserves(pl, st.local);
    crate::render::lemma_sort_preserves(px, st.external);
    assert(group_wf(prefixes, crate::render::sort_spec(st.builtin), PackageType::Other));
    assert(group_wf(prefixes, crate::render::sort_spec(st.local), PackageType::Local));
    assert(group_wf(prefixes, crate::render::sort_spec(st.external), PackageType::External));
    lemma_run_section(prefixes, st0, st.builtin, PackageType::Other, false);
    let stb = run_spec(prefixes, st0, sec1);
    lemma_run_section(prefixes, stb, st.local, PackageType::Local, st.builtin.len() > 0);
    let stl = run_spec(prefixes, stb, sec2);
    lemma_run_section(
        prefixes,
        stl,
        st.external,
        PackageType::External,
        st.builtin.len() > 0 || st.local.len() > 0,
    );
    let st2 = crate::imports::block_model(prefixes, rl);
    assert(st2 == run_spec(prefixes, st0, body));
    assert(st2.builtin =~= crate::render::sort_spec(st.builtin));
    assert(st2.local =~= crate::render::sort_spec(st.local));
    assert(st2.external =~= crate::render::sort_spec(st.external));
}

/// Idempotence: rendering the parse of a well-formed block's canonical
/// text reproduces that text exactly.
pub proof fn lemma_render_parse_idempotent(prefixes: Seq<Seq<char>>, st: BlockModel)
    requires
        block_wf(prefixes, st),
    ensures
        crate::render::render_spec(
            crate::imports::block_model(
                prefixes,
                crate::gofile::lines_spec(crate::render::render_spec(st)),
            ),
        ) == crate::render::render_spec(st),
{
    lemma_parse_of_render(prefixes, st);
    let st2 = crate::imports::block_model(
        prefixes,
        crate::gofile::lines_spec(crate::render::render_spec(st)),
    );
    crate::render::lemma_sort_idempotent(st.builtin);
    crate::render::lemma_sort_idempotent(st.local);
    crate::render::lemma_sort_idempotent(st.external);
    crate::render::lemma_sort_len(st.builtin);
    crate::render::lemma_sort_len(st.local);
    crate::render::lemma_sort_len(st.external);
    let h = "import (\n"@;
    let s1 = crate::render::push_text(h, false, st.builtin);
    let t1 = crate::render::push_text(h, false, st2.builtin);
    assert(t1 == s1);
    let s2 = crate::render::push_text(s1.0, s1.1, st.local);
    let t2 = crate::render::push_text(t1.0, t1.1, st2.local);
    assert(t2 == s2);
    let s3 = crate::render::push_text(s2.0, s2.1, st.external);
    let t3 = crate::render::push_text(t2.0, t2.1, st2.external);
    assert(t3 == s3);
}

/// The one-line form is trivially a fixed point: it renders as itself and
/// parses back to itself.
pub proof fn lemma_single_fixed_point(prefixes: Seq<Seq<char>>, l: Seq<char>)
    requires
        l.len() > 0,
        !crate::imports::is_open_line(l),
        sep_free(l, '\n'),
    ensures
        ({
            let b = crate::render::render_spec(
                crate::imports::block_model(prefixes, crate::gofile::lines_spec(l)),
            );
            b == l
        }),
{
    crate::strutil::lemma_find_from(l, '\n', 0);
    assert(split_sep(l, '\n') =~= seq![l]);
    assert(crate::gofile::lines_spec(l) == seq![l]);
    assert(seq![l][0] == l);
}

/// A parser state whose parts are all well-formed.
spec fn state_wf(prefixes: Seq<Seq<char>>, st: BlockModel) -> bool {
    &&& st.single is None
    &&& group_wf(prefixes, st.builtin, PackageType::Other)
    &&& group_wf(prefixes, st.local, PackageType::Local)
    &&& group_wf(prefixes, st.external, PackageType::External)
    &&& (match st.comment {
        Some(c) => comment_wf(c),
        None => true,
    })
}

/// A line other than the delimiter whose blank-stripped form is exactly
/// the delimiter would, once rendered, end the re-parsed block early.
pub open spec fn no_delimiter_shadow(l: Seq<char>) -> bool {
    !(crate::strutil::ws_prefix_len(l) == 0 && crate::strutil::trim_spec(l) == ")"@)
}

/// One scanned line keeps the parser state well-formed.
proof fn lemma_step_wf(prefixes: Seq<Seq<char>>, st: BlockModel, l: Seq<char>)
    requires
        state_wf(prefixes, st),
        sep_free(l, '\n'),
        no_delimiter_shadow(l),
        forall|i: int| 0 <= i < prefixes.len() ==> crate::matcher::blank_free(
            #[trigger] prefixes[i],
        ),
    ensures
        state_wf(prefixes, step_spec(prefixes, st, l)),
{
    if is_comment_line(l) {
        // The line joins the pending comment; every piece of the result is
        // a comment line.
        crate::strutil::lemma_find_from(l, '\n', 0);
        assert(split_sep(l, '\n') =~= seq![l]);
        match st.comment {
            None => {
                assert(comment_step(st, l).comment == Some(l));
                assert(forall|i: int|
                    0 <= i < split_sep(l, '\n').len() ==> split_sep(l, '\n')[i] == l);
            },
            Some(c) => {
                let c2 = c + seq!['\n'] + l;
                crate::strutil::lemma_split_concat(c, l, '\n');
                let ps = split_sep(c, '\n');
                assert forall|i: int| 0 <= i < split_sep(c2, '\n').len() implies is_comment_line(
                    #[trigger] split_sep(c2, '\n')[i],
                ) by {
                    assert(split_sep(c2, '\n') == ps + seq![l]);
                    if i < ps.len() {
                        assert(split_sep(c2, '\n')[i] == ps[i]);
                    } else {
                        assert(split_sep(c2, '\n')[i] == l);
                    }
                }
            },
        }
    } else {
        crate::import::lemma_entry_reparse(l);
        let pe = parse_entry_spec(l);
        let e = EntryModel { comment: st.comment, ..pe };
        let r = entry_line(e);
        assert(entry_line(e) == entry_line(pe));
        let k = r.len() as int;
        // The declaration line is an initial segment of `l` followed only
        // by blanks, so it classifies like `l` and is no delimiter.
        crate::matcher::lemma_package_rightstrip(prefixes, l, k);
        assert(package_spec(prefixes, r) == package_spec(prefixes, l));
        assert(r != ")"@) by {
            reveal_strlit(")");
            if r == ")"@ {
                let pre = l.take(crate::strutil::ws_prefix_len(l));
                let t = crate::strutil::trim_spec(l);
                crate::strutil::lemma_ws_prefix_len(l);
                assert(r == pre + t);
                if pre.len() > 0 {
                    assert(r[0] == pre[0]);
                    assert(pre[0] == l[0]);
                    assert(crate::strutil::is_blank(l[0]));
                    assert(r[0] == ')');
                    assert(false);
                }
                assert(pre.len() == 0);
                assert(crate::strutil::ws_prefix_len(l) == 0);
                assert(t =~= r);
                assert(false);
            }
        }
        assert(!is_comment_line(r));
        assert(sep_free(r, '\n')) by {
            assert forall|j: int| 0 <= j < r.len() implies r[j] != '\n' by {
                assert(r[j] == l.take(k)[j]);
                assert(l.take(k)[j] == l[j]);
            }
        }
        assert(entry_wf(e)) by {
            assert(parse_entry_spec(entry_line(e)) == pe);
            assert(pe == (EntryModel { comment: None, ..e }));
        }
        // A non-empty raw line renders to a non-empty declaration line.
        assert(l.len() > 0 ==> r.len() > 0) by {
            if l.len() > 0 && r.len() == 0 {
                assert(forall|m: int| 0 <= m < l.len() ==> crate::strutil::is_blank(l[m]));
                crate::strutil::lemma_ws_prefix_len_unique(l, l.len() as int);
                let pre = l.take(crate::strutil::ws_prefix_len(l));
                assert(pre.len() == l.len());
                assert(r.len() >= pre.len());
            }
        }
        let st1 = BlockModel { comment: None, ..st };
        match package_spec(prefixes, l) {
            PackageType::Other => {
                if l.len() == 0 {
                } else {
                    let nb = st1.builtin.push(e);
                    assert forall|i: int| 0 <= i < nb.len() implies {
                        &&& entry_wf(#[trigger] nb[i])
                        &&& package_spec(prefixes, entry_line(nb[i])) == PackageType::Other
                        &&& entry_line(nb[i]).len() > 0
                    } by {
                        if i < st1.builtin.len() {
                            assert(nb[i] == st.builtin[i]);
                        } else {
                            assert(nb[i] == e);
                        }
                    }
                }
            },
            PackageType::Local => {
                let nl = st1.local.push(e);
                assert forall|i: int| 0 <= i < nl.len() implies {
                    &&& entry_wf(#[trigger] nl[i])
                    &&& package_spec(prefixes, entry_line(nl[i])) == PackageType::Local
                } by {
                    if i < st1.local.len() {
                        assert(nl[i] == st.local[i]);
                    } else {
                        assert(nl[i] == e);
                    }
                }
            },
            PackageType::External => {
                let nx = st1.external.push(e);
                assert forall|i: int| 0 <= i < nx.len() implies {
                    &&& entry_wf(#[trigger] nx[i])
                    &&& package_spec(prefixes, entry_line(nx[i])) == PackageType::External
                } by {
                    if i < st1.external.len() {
                        assert(nx[i] == st.external[i]);
                    } else {
                        assert(nx[i] == e);
                    }
                }
            },
        }
    }
}

proof fn lemma_run_wf(prefixes: Seq<Seq<char>>, st: BlockModel, ls: Seq<Seq<char>>)
    requires
        state_wf(prefixes, st),
        forall|k: int|
            0 <= k < ls.len() ==> sep_free(#[trigger] ls[k], '\n') && no_delimiter_shadow(ls[k]),
        forall|i: int| 0 <= i < prefixes.len() ==> crate::matcher::blank_free(
            #[trigger] prefixes[i],
        ),
    ensures
        state_wf(prefixes, run_spec(prefixes, st, ls)),
    decreases ls.len(),
{
    if ls.len() > 0 {
        lemma_step_wf(prefixes, st, ls[0]);
        let rest = ls.drop_first();
        assert(forall|k: int| 0 <= k < rest.len() ==> rest[k] == ls[k + 1]);
        lemma_run_wf(prefixes, step_spec(prefixes, st, ls[0]), rest);
    }
}

/// What the block parser builds from a grouped block is well-formed, as
/// long as the configured prefixes hold no blanks, every line spans one
/// line of text, and no body line mimics the closing delimiter once its
/// trailing blanks are gone.
pub proof fn lemma_parse_block_wf(prefixes: Seq<Seq<char>>, lines: Seq<Seq<char>>)
    requires
        lines.len() > 0,
        crate::imports::is_open_line(lines[0]),
        forall|k: int| 0 <= k < lines.len() ==> sep_free(#[trigger] lines[k], '\n'),
        forall|k: int|
            0 <= k < lines.len() && !crate::imports::is_close_line(#[trigger] lines[k])
                ==> no_delimiter_shadow(lines[k]),
        forall|i: int| 0 <= i < prefixes.len() ==> crate::matcher::blank_free(
            #[trigger] prefixes[i],
        ),
    ensures
        block_wf(prefixes, crate::imports::block_model(prefixes, lines)),
{
    let body = crate::imports::block_body(lines);
    crate::imports::lemma_close_from(lines, 1);
    assert forall|k: int|
        0 <= k < body.len() implies sep_free(#[trigger] body[k], '\n') && no_delimiter_shadow(
        body[k],
    ) by {
        assert(body[k] == lines[k + 1]);
        assert(!crate::imports::is_close_line(lines[k + 1]));
    }
    let st0 = crate::imports::empty_block();
    assert(state_wf(prefixes, st0));
    lemma_run_wf(prefixes, st0, body);
}

/// Idempotence over raw block lines: the canonical text of a parsed
/// grouped block is a fixed point of parsing followed by rendering.
pub proof fn lemma_canonical_fixed_point(prefixes: Seq<Seq<char>>, lines: Seq<Seq<char>>)
    requires
        lines.len() > 0,
        crate::imports::is_open_line(lines[0]),
        forall|k: int| 0 <= k < lines.len() ==> sep_free(#[trigger] lines[k], '\n'),
        forall|k: int|
            0 <= k < lines.len() && !crate::imports::is_close_line(#[trigger] lines[k])
                ==> no_delimiter_shadow(lines[k]),
        forall|i: int| 0 <= i < prefixes.len() ==> crate::matcher::blank_free(
            #[trigger] prefixes[i],
        ),
    ensures
        ({
            let b = crate::render::render_spec(crate::imports::block_model(prefixes, lines));
            crate::render::render_spec(
                crate::imports::block_model(prefixes, crate::gofile::lines_spec(b)),
            ) == b
        }),
{
    lemma_parse_block_wf(prefixes, lines);
    lemma_render_parse_idempotent(prefixes, crate::imports::block_model(prefixes, lines));
}

} // verus!
