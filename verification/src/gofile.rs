//! The file orchestrator: finds the first import-opening line of a file,
//! parses and re-renders the block, splices the canonical block back
//! between the surrounding lines, and diffs the original block lines
//! against the canonical ones.

use vstd::prelude::*;

use crate::diff::EditScript;
use crate::diff::diff;
use crate::diff::diff_spec;
use crate::diff::distance_spec;
use crate::imports::BlockModel;
use crate::imports::Imports;
use crate::imports::block_model;
use crate::imports::close_from;
use crate::imports::is_open_line;
use crate::imports::lemma_close_from;
use crate::imports::lemma_run_line_accounting;
use crate::imports::total_entries;
use crate::matcher::Matcher;
use crate::render::lemma_sort_len;
use crate::render::render_spec;
use crate::strutil::join_lines;
use crate::strutil::join_range;
use crate::strutil::lemma_split_sep_basic;
use crate::strutil::split_sep;
use crate::strutil::split_str;
use crate::strutil::str_eq;

verus! {

/// The file's lines: split on `'\n'`, without the empty piece a trailing
/// newline would leave.
pub open spec fn lines_spec(s: Seq<char>) -> Seq<Seq<char>> {
    let p = split_sep(s, '\n');
    if p.len() > 0 && p.last().len() == 0 {
        p.drop_last()
    } else {
        p
    }
}

/// Executable split into lines.
pub fn split_lines(s: &str) -> (v: Vec<String>)
    ensures
        v.deep_view() == lines_spec(s@),
{
    let mut v = split_str(s, '\n');
    let ghost p = split_sep(s@, '\n');
    let n = v.len();
    if n > 0 && v[n - 1].as_str().is_empty() {
        let ghost vv = v@;
        let _popped = v.pop();
        proof {
            assert(v@ =~= vv.drop_last());
            assert forall|k: int| 0 <= k < v@.len() implies v.deep_view()[k] == p.drop_last()[k] by {
                assert(v@[k] == vv[k]);
            }
            assert(v.deep_view() =~= p.drop_last());
        }
    }
    v
}

/// A line that opens an import block: more than six characters, starting
/// with the import keyword.
pub open spec fn is_import_start(l: Seq<char>) -> bool {
    l.len() > 6 && l.take(6) == "import"@
}

fn import_start(s: &String) -> (r: bool)
    ensures
        r == is_import_start(s@),
{
    let sl = s.as_str();
    if sl.unicode_len() <= 6 {
        return false;
    }
    let head = sl.substring_char(0, 6);
    let r = str_eq(head, "import");
    proof {
        assert(sl@.subrange(0, 6) =~= sl@.take(6));
    }
    r
}

/// Index of the first import-opening line at or after `from`, or the
/// number of lines when there is none.
pub open spec fn find_import(lines: Seq<Seq<char>>, from: int) -> int
    decreases lines.len() - from,
{
    if from < 0 || from >= lines.len() {
        lines.len() as int
    } else if is_import_start(lines[from]) {
        from
    } else {
        find_import(lines, from + 1)
    }
}

pub proof fn lemma_find_import(lines: Seq<Seq<char>>, from: int)
    requires
        0 <= from <= lines.len(),
    ensures
        from <= find_import(lines, from) <= lines.len(),
        find_import(lines, from) < lines.len() ==> is_import_start(
            lines[find_import(lines, from)],
        ),
        forall|k: int| from <= k < find_import(lines, from) ==> !is_import_start(lines[k]),
    decreases lines.len() - from,
{
    if from < lines.len() && !is_import_start(lines[from]) {
        lemma_find_import(lines, from + 1);
    }
}

proof fn lemma_find_import_unique(lines: Seq<Seq<char>>, n: int)
    requires
        0 <= n <= lines.len(),
        forall|k: int| 0 <= k < n ==> !is_import_start(lines[k]),
        n < lines.len() ==> is_import_start(lines[n]),
    ensures
        find_import(lines, 0) == n,
{
    lemma_find_import(lines, 0);
    let c = find_import(lines, 0);
    if c < n {
        assert(!is_import_start(lines[c]));
    }
    if c > n {
        assert(n < lines.len());
        assert(!is_import_start(lines[n]));
    }
}

/// How many source lines the parsed block stands for.
pub open spec fn occupied(st: BlockModel) -> int {
    if st.single is Some {
        1
    } else {
        total_entries(st) + st.empty_lines + 2
    }
}

/// Round-trip line accounting: for a grouped block with a closing
/// delimiter, the computed line count equals exactly the number of input
/// lines consumed, the delimiters included; a non-grouped block stands
/// for its one line.
pub proof fn lemma_lines_occupied(prefixes: Seq<Seq<char>>, lines: Seq<Seq<char>>)
    requires
        lines.len() > 0,
    ensures
        !is_open_line(lines[0]) ==> occupied(block_model(prefixes, lines)) == 1,
        is_open_line(lines[0]) && close_from(lines, 1) < lines.len() ==> occupied(
            block_model(prefixes, lines),
        ) == close_from(lines, 1) + 1,
        is_open_line(lines[0]) ==> occupied(block_model(prefixes, lines)) == lines.subrange(
            1,
            close_from(lines, 1),
        ).len() + 2,
    decreases 0int,
{
    if is_open_line(lines[0]) {
        let body = lines.subrange(1, close_from(lines, 1));
        lemma_close_from(lines, 1);
        lemma_run_line_accounting(prefixes, crate::imports::empty_block(), body);
    }
}

/// The located block, its canonical text spliced into the file, and the
/// line diff of the original block against the canonical one.
pub struct GoFile {
    pub output: String,
    pub diff: EditScript,
}

impl GoFile {
    /// Parses the block at line `i`, renders its canonical form, splices
    /// it back between the surrounding lines, and diffs old against new.
    pub fn from_line(lines: &Vec<String>, i: usize, matcher: &Matcher) -> (r: Option<GoFile>)
        requires
            i < lines@.len(),
            lines@.len() < usize::MAX,
        ensures
            r is Some,
            ({
                let dv = lines.deep_view();
                let bm = block_model(matcher@, dv.skip(i as int));
                let end = if i + occupied(bm) <= dv.len() {
                    i + occupied(bm)
                } else {
                    dv.len() as int
                };
                &&& r.unwrap().output@ == join_lines(dv.take(i as int)) + seq!['\n'] + render_spec(
                    bm,
                ) + seq!['\n'] + join_lines(dv.subrange(end, dv.len() as int)) + seq!['\n']
                &&& r.unwrap().diff.diffs.deep_view() == diff_spec(
                    dv.subrange(i as int, end),
                    split_sep(render_spec(bm), '\n'),
                )
                &&& r.unwrap().diff.distance == distance_spec(
                    diff_spec(dv.subrange(i as int, end), split_sep(render_spec(bm), '\n')),
                )
            }),
    {
        let ghost dv = lines.deep_view();
        let ghost bm = block_model(matcher@, dv.skip(i as int));
        let mut imports = Imports::new(lines, i, matcher);
        proof {
            // The block never stands for more lines than remain in the file.
            lemma_lines_occupied(matcher@, dv.skip(i as int));
            lemma_close_from(dv.skip(i as int), 1);
            assert(dv.skip(i as int).len() == dv.len() - i);
            if bm.single is None {
                assert(occupied(bm) <= dv.len() - i + 1);
            }
        }
        let out = imports.output();
        proof {
            if bm.single is None {
                lemma_sort_len(bm.builtin);
                lemma_sort_len(bm.local);
                lemma_sort_len(bm.external);
            }
            assert(total_entries(imports@) == total_entries(bm));
            assert(imports@.empty_lines == bm.empty_lines);
            assert(imports@.single == bm.single);
        }
        let occ = imports.lines();
        proof {
            assert(occ == occupied(bm));
        }
        let mut end: usize = i + occ;
        let n = lines.len();
        if end > n {
            end = n;
        }
        let ghost end_spec = if i + occupied(bm) <= dv.len() {
            i + occupied(bm)
        } else {
            dv.len() as int
        };
        proof {
            assert(end == end_spec);
        }
        let mut old_block: Vec<String> = Vec::new();
        let mut k: usize = i;
        proof {
            assert(old_block.deep_view() =~= dv.subrange(i as int, i as int));
        }
        while k < end
            invariant
                i <= k <= end <= n,
                n == lines@.len(),
                dv == lines.deep_view(),
                dv.len() == n,
                old_block.deep_view() == dv.subrange(i as int, k as int),
            decreases end - k,
        {
            let ghost ob = old_block.deep_view();
            old_block.push(lines[k].clone());
            proof {
                assert(old_block.deep_view() =~= ob.push(dv[k as int]));
                assert(dv.subrange(i as int, k + 1) =~= dv.subrange(i as int, k as int).push(
                    dv[k as int],
                ));
            }
            k = k + 1;
        }
        let new_block = split_str(out.as_str(), '\n');
        let script = diff(&old_block, &new_block);
        let mut output = join_range(lines, 0, i);
        proof {
            reveal_strlit("\n");
            assert("\n"@ =~= seq!['\n']);
            assert(dv.subrange(0, i as int) =~= dv.take(i as int));
        }
        output.append("\n");
        output.append(out.as_str());
        output.append("\n");
        let after = join_range(lines, end, n);
        output.append(after.as_str());
        output.append("\n");
        Some(GoFile { output, diff: script })
    }

    /// Processes a whole file: the first import-opening line, if any,
    /// has its block canonicalized; a file without one is left alone.
    pub fn from_file(file: String, matcher: &Matcher) -> (r: Option<GoFile>)
        requires
            file@.len() < usize::MAX - 1,
        ensures
            (r is Some) <==> find_import(lines_spec(file@), 0) < lines_spec(file@).len(),
            (r is Some) ==> ({
                let dv = lines_spec(file@);
                let i = find_import(dv, 0);
                let bm = block_model(matcher@, dv.skip(i));
                let end = if i + occupied(bm) <= dv.len() {
                    i + occupied(bm)
                } else {
                    dv.len() as int
                };
                &&& r.unwrap().output@ == join_lines(dv.take(i)) + seq!['\n'] + render_spec(bm)
                    + seq!['\n'] + join_lines(dv.subrange(end, dv.len() as int)) + seq!['\n']
                &&& r.unwrap().diff.diffs.deep_view() == diff_spec(
                    dv.subrange(i, end),
                    split_sep(render_spec(bm), '\n'),
                )
                &&& r.unwrap().diff.distance == distance_spec(
                    diff_spec(dv.subrange(i, end), split_sep(render_spec(bm), '\n')),
                )
            }),
    {
        let lines = split_lines(file.as_str());
        let ghost dv = lines_spec(file@);
        proof {
            lemma_split_sep_basic(file@, '\n');
            assert(dv.len() < usize::MAX);
        }
        let n = lines.len();
        let mut i: usize = 0;
        let mut found = false;
        while i < n && !found
            invariant
                0 <= i <= n,
                n == lines@.len(),
                dv == lines.deep_view(),
                dv.len() == n,
                forall|k: int| 0 <= k < i ==> !is_import_start(dv[k]),
                found ==> i < n && is_import_start(dv[i as int]),
            decreases n - i + (if found {
                0int
            } else {
                1int
            }),
        {
            if import_start(&lines[i]) {
                found = true;
            } else {
                i = i + 1;
            }
        }
        if !found {
            proof {
                lemma_find_import_unique(dv, dv.len() as int);
            }
            return None;
        }
        proof {
            lemma_find_import_unique(dv, i as int);
        }
        GoFile::from_line(&lines, i, matcher)
    }

    /// The rewritten file text.
    pub fn output(self) -> (r: String)
        ensures
            r == self.output,
    {
        self.output
    }
}

} // verus!
