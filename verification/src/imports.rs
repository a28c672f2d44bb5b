//! The import block parser. Starting at the line holding the import
//! keyword, a non-parenthesized block is kept as a single untouched line;
//! a parenthesized block is scanned line by line up to the closing
//! delimiter, comment lines accumulate onto the next entry, blank lines are
//! counted, and every entry lands in exactly one of the three groups.

use vstd::prelude::*;

use crate::import::EntryModel;
use crate::import::Import;
use crate::import::parse_entry_spec;
use crate::matcher::Matcher;
use crate::matcher::PackageType;
use crate::matcher::package_spec;
use crate::strutil::str_eq;
use crate::strutil::trim;
use crate::strutil::trim_spec;

verus! {

/// The mathematical shape of a parsed import block.
#[verifier::ext_equal]
pub struct BlockModel {
    pub builtin: Seq<EntryModel>,
    pub external: Seq<EntryModel>,
    pub local: Seq<EntryModel>,
    pub single: Option<Seq<char>>,
    pub comment: Option<Seq<char>>,
    pub empty_lines: int,
}

pub open spec fn empty_block() -> BlockModel {
    BlockModel {
        builtin: Seq::empty(),
        external: Seq::empty(),
        local: Seq::empty(),
        single: None,
        comment: None,
        empty_lines: 0,
    }
}

/// Entries in the three groups together.
pub open spec fn total_entries(st: BlockModel) -> int {
    st.builtin.len() + st.external.len() + st.local.len() as int
}

/// A line whose trimmed form starts with the two-character comment marker.
pub open spec fn is_comment_line(line: Seq<char>) -> bool {
    let t = trim_spec(line);
    t.len() >= 2 && t[0] == '/' && t[1] == '/'
}

/// The parenthesized-block opener.
pub open spec fn is_open_line(l: Seq<char>) -> bool {
    l == "import ("@
}

/// The closing delimiter line.
pub open spec fn is_close_line(l: Seq<char>) -> bool {
    l == ")"@
}

/// A comment line joins the pending comment and counts as a blank line.
pub open spec fn comment_step(st: BlockModel, line: Seq<char>) -> BlockModel {
    BlockModel {
        comment: match st.comment {
            None => Some(line),
            Some(c) => Some(c + seq!['\n'] + line),
        },
        empty_lines: st.empty_lines + 1,
        ..st
    }
}

/// A candidate line the matcher calls builtin: empty lines are blank
/// separators, anything else joins the builtin group.
pub open spec fn other_step(st: BlockModel, line: Seq<char>, e: EntryModel) -> BlockModel {
    if line.len() == 0 {
        BlockModel { empty_lines: st.empty_lines + 1, ..st }
    } else {
        BlockModel { builtin: st.builtin.push(e), ..st }
    }
}

/// A candidate entry line: the pending comment attaches to the new entry
/// (and is cleared even if the entry turns out to be a blank separator),
/// then the raw line's category picks the group.
pub open spec fn entry_step(prefixes: Seq<Seq<char>>, st: BlockModel, line: Seq<char>) -> BlockModel {
    let e = EntryModel { comment: st.comment, ..parse_entry_spec(line) };
    let st1 = BlockModel { comment: None, ..st };
    match package_spec(prefixes, line) {
        PackageType::Other => other_step(st1, line, e),
        PackageType::Local => BlockModel { local: st1.local.push(e), ..st1 },
        PackageType::External => BlockModel { external: st1.external.push(e), ..st1 },
    }
}

/// One line of the block body.
pub open spec fn step_spec(prefixes: Seq<Seq<char>>, st: BlockModel, line: Seq<char>) -> BlockModel {
    if is_comment_line(line) {
        comment_step(st, line)
    } else {
        entry_step(prefixes, st, line)
    }
}

/// The whole block body, line by line.
pub open spec fn run_spec(prefixes: Seq<Seq<char>>, st: BlockModel, lines: Seq<Seq<char>>) -> BlockModel
    decreases lines.len(),
{
    if lines.len() == 0 {
        st
    } else {
        run_spec(prefixes, step_spec(prefixes, st, lines[0]), lines.drop_first())
    }
}

pub proof fn lemma_run_snoc(
    prefixes: Seq<Seq<char>>,
    st: BlockModel,
    lines: Seq<Seq<char>>,
    x: Seq<char>,
)
    ensures
        run_spec(prefixes, st, lines.push(x)) == step_spec(
            prefixes,
            run_spec(prefixes, st, lines),
            x,
        ),
    decreases lines.len(),
{
    let p = lines.push(x);
    if lines.len() == 0 {
        assert(p.drop_first() =~= Seq::<Seq<char>>::empty());
        assert(p[0] == x);
        assert(run_spec(prefixes, st, p) == run_spec(
            prefixes,
            step_spec(prefixes, st, x),
            p.drop_first(),
        ));
        assert(run_spec(prefixes, st, lines) == st);
    } else {
        assert(p[0] == lines[0]);
        assert(p.drop_first() =~= lines.drop_first().push(x));
        lemma_run_snoc(prefixes, step_spec(prefixes, st, lines[0]), lines.drop_first(), x);
        assert(run_spec(prefixes, st, p) == run_spec(
            prefixes,
            step_spec(prefixes, st, lines[0]),
            p.drop_first(),
        ));
        assert(run_spec(prefixes, st, lines) == run_spec(
            prefixes,
            step_spec(prefixes, st, lines[0]),
            lines.drop_first(),
        ));
    }
}

pub proof fn lemma_run_concat(
    prefixes: Seq<Seq<char>>,
    st: BlockModel,
    a: Seq<Seq<char>>,
    b: Seq<Seq<char>>,
)
    ensures
        run_spec(prefixes, st, a + b) == run_spec(prefixes, run_spec(prefixes, st, a), b),
    decreases a.len(),
{
    if a.len() == 0 {
        assert(a + b =~= b);
    } else {
        assert((a + b)[0] == a[0]);
        assert((a + b).drop_first() =~= a.drop_first() + b);
        lemma_run_concat(prefixes, step_spec(prefixes, st, a[0]), a.drop_first(), b);
        assert(run_spec(prefixes, st, a + b) == run_spec(
            prefixes,
            step_spec(prefixes, st, a[0]),
            (a + b).drop_first(),
        ));
    }
}

/// Index of the first closing-delimiter line at or after `from`, or the
/// number of lines when there is none.
pub open spec fn close_from(lines: Seq<Seq<char>>, from: int) -> int
    decreases lines.len() - from,
{
    if from < 0 || from >= lines.len() {
        lines.len() as int
    } else if is_close_line(lines[from]) {
        from
    } else {
        close_from(lines, from + 1)
    }
}

pub proof fn lemma_close_from(lines: Seq<Seq<char>>, from: int)
    requires
        0 <= from <= lines.len(),
    ensures
        from <= close_from(lines, from) <= lines.len(),
        close_from(lines, from) < lines.len() ==> is_close_line(lines[close_from(lines, from)]),
        forall|k: int| from <= k < close_from(lines, from) ==> !is_close_line(lines[k]),
    decreases lines.len() - from,
{
    if from < lines.len() && !is_close_line(lines[from]) {
        lemma_close_from(lines, from + 1);
    }
}

pub proof fn lemma_close_from_unique(lines: Seq<Seq<char>>, from: int, n: int)
    requires
        0 <= from <= n <= lines.len(),
        forall|k: int| from <= k < n ==> !is_close_line(lines[k]),
        n < lines.len() ==> is_close_line(lines[n]),
    ensures
        close_from(lines, from) == n,
{
    lemma_close_from(lines, from);
    let c = close_from(lines, from);
    if c < n {
        assert(!is_close_line(lines[c]));
    }
    if c > n {
        assert(n < lines.len());
        assert(!is_close_line(lines[n]));
    }
}

/// The body of a parenthesized block: everything after the opener up to
/// (not including) the first closing delimiter.
pub open spec fn block_body(lines: Seq<Seq<char>>) -> Seq<Seq<char>> {
    lines.subrange(1, close_from(lines, 1))
}

/// The parse of an import block whose first line is the import keyword
/// line: the single form keeps that line untouched, the grouped form runs
/// the scanner over the body.
pub open spec fn block_model(prefixes: Seq<Seq<char>>, lines: Seq<Seq<char>>) -> BlockModel {
    if !is_open_line(lines[0]) {
        BlockModel { single: Some(lines[0]), ..empty_block() }
    } else {
        run_spec(prefixes, empty_block(), block_body(lines))
    }
}

/// The parsed block: three category groups, the single-line form, the
/// pending comment, and the count of blank and comment lines consumed.
pub struct Imports {
    pub builtin: Vec<Import>,
    pub external: Vec<Import>,
    pub local: Vec<Import>,
    pub single: Option<String>,
    pub comment: Option<String>,
    pub empty_lines: usize,
}

impl View for Imports {
    type V = BlockModel;

    open spec fn view(&self) -> BlockModel {
        BlockModel {
            builtin: self.builtin.deep_view(),
            external: self.external.deep_view(),
            local: self.local.deep_view(),
            single: self.single.deep_view(),
            comment: self.comment.deep_view(),
            empty_lines: self.empty_lines as int,
        }
    }
}

impl Imports {
    /// The empty block, ready for scanning.
    pub fn default() -> (r: Imports)
        ensures
            r@ == empty_block(),
    {
        let r = Imports {
            builtin: Vec::new(),
            external: Vec::new(),
            local: Vec::new(),
            single: None,
            comment: None,
            empty_lines: 0,
        };
        proof {
            assert(r@.builtin =~= empty_block().builtin);
            assert(r@.external =~= empty_block().external);
            assert(r@.local =~= empty_block().local);
            assert(r@ =~= empty_block());
        }
        r
    }

    /// Scans one body line: comment marker lines accumulate, everything
    /// else is a candidate entry.
    pub fn parse_imports(&mut self, line: &str, matcher: &Matcher)
        requires
            old(self)@.empty_lines < usize::MAX,
        ensures
            final (self)@ == step_spec(matcher@, old(self)@, line@),
    {
        let t = trim(line);
        if t.unicode_len() >= 2 && t.get_char(0) == '/' && t.get_char(1) == '/' {
            self.parse_comment(line);
        } else {
            self.parse_import(line, matcher);
        }
    }

    /// Appends the line to the pending comment and counts it as blank.
    pub fn parse_comment(&mut self, line: &str)
        requires
            old(self)@.empty_lines < usize::MAX,
        ensures
            final (self)@ == comment_step(old(self)@, line@),
    {
        self.empty_lines = self.empty_lines + 1;
        let mut c: Option<String> = None;
        core::mem::swap(&mut c, &mut self.comment);
        match c {
            None => {
                self.comment = Some(line.to_owned());
            },
            Some(c0) => {
                let mut joined = c0;
                joined.append("\n");
                proof {
                    reveal_strlit("\n");
                    assert("\n"@ =~= seq!['\n']);
                }
                joined.append(line);
                self.comment = Some(joined);
            },
        }
    }

    /// Parses a candidate entry line, hands it the pending comment, and
    /// routes it by the raw line's category.
    pub fn parse_import(&mut self, line: &str, matcher: &Matcher)
        requires
            old(self)@.empty_lines < usize::MAX,
        ensures
            final (self)@ == entry_step(matcher@, old(self)@, line@),
    {
        let mut import = Import::new(line);
        let mut c: Option<String> = None;
        core::mem::swap(&mut c, &mut self.comment);
        import.with_comment(c);
        let ghost st1 = BlockModel { comment: None, ..old(self)@ };
        match matcher.package(line) {
            PackageType::Other => {
                self.handle_other(line, import);
            },
            PackageType::Local => {
                let ghost before = self.local.deep_view();
                let ghost e = import@;
                self.local.push(import);
                proof {
                    assert(self.local.deep_view() =~= before.push(e));
                    assert(self@ =~= (BlockModel { local: st1.local.push(e), ..st1 }));
                }
            },
            PackageType::External => {
                let ghost before = self.external.deep_view();
                let ghost e = import@;
                self.external.push(import);
                proof {
                    assert(self.external.deep_view() =~= before.push(e));
                    assert(self@ =~= (BlockModel { external: st1.external.push(e), ..st1 }));
                }
            },
        }
    }

    /// A builtin candidate: an empty raw line is a blank separator, any
    /// other joins the builtin group.
    pub fn handle_other(&mut self, line: &str, import: Import)
        requires
            old(self)@.empty_lines < usize::MAX,
        ensures
            final (self)@ == other_step(old(self)@, line@, import@),
    {
        if line.is_empty() {
            self.empty_lines = self.empty_lines + 1;
        } else {
            let ghost before = self.builtin.deep_view();
            let ghost e = import@;
            self.builtin.push(import);
            proof {
                assert(self.builtin.deep_view() =~= before.push(e));
                assert(self@ =~= (BlockModel { builtin: old(self)@.builtin.push(e), ..old(self)@ }));
            }
        }
    }

    /// Parses the block starting at `input[start]`, which must exist.
    pub fn new(input: &Vec<String>, start: usize, matcher: &Matcher) -> (r: Imports)
        requires
            start < input@.len(),
        ensures
            r@ == block_model(matcher@, input.deep_view().skip(start as int)),
    {
        let ghost dv = input.deep_view();
        let ghost lines = input.deep_view().skip(start as int);
        let mut imports = Imports::default();
        if !str_eq(input[start].as_str(), "import (") {
            imports.single = Some(input[start].clone());
            proof {
                assert(lines[0] == dv[start as int]);
                assert(imports@ =~= (BlockModel { single: Some(lines[0]), ..empty_block() }));
            }
            return imports;
        }
        let n: usize = input.len();
        let mut i: usize = start + 1;
        proof {
            assert(dv.subrange(start + 1, start + 1) =~= Seq::<Seq<char>>::empty());
        }
        let mut found_close = false;
        while i < n && !found_close
            invariant
                start + 1 <= i <= n,
                n == input@.len(),
                dv == input.deep_view(),
                dv.len() == n,
                lines == dv.skip(start as int),
                imports@ == run_spec(matcher@, empty_block(), dv.subrange(start + 1, i as int)),
                imports@.empty_lines <= i - start - 1,
                forall|k: int| start + 1 <= k < i ==> !is_close_line(dv[k]),
                found_close ==> i < n && is_close_line(dv[i as int]),
            decreases n - i + (if found_close {
                0int
            } else {
                1int
            }),
        {
            if str_eq(input[i].as_str(), ")") {
                found_close = true;
            } else {
                let ghost before = imports@;
                imports.parse_imports(input[i].as_str(), matcher);
                proof {
                    assert(dv.subrange(start + 1, i + 1) =~= dv.subrange(start + 1, i as int).push(
                        dv[i as int],
                    ));
                    lemma_run_snoc(
                        matcher@,
                        empty_block(),
                        dv.subrange(start + 1, i as int),
                        dv[i as int],
                    );
                }
                i = i + 1;
            }
        }
        proof {
            // The scanned range is exactly the block body.
            let c = close_from(lines, 1);
            assert forall|k: int| 1 <= k < i - start implies !is_close_line(lines[k]) by {
                assert(lines[k] == dv[start + k]);
            }
            if found_close {
                assert(lines[i - start] == dv[i as int]);
                lemma_close_from_unique(lines, 1, i - start);
            } else {
                assert(i == n);
                lemma_close_from_unique(lines, 1, lines.len() as int);
            }
            assert(block_body(lines) =~= dv.subrange(start + 1, i as int));
        }
        imports
    }

    /// How many source lines the parsed block occupied: the single form is
    /// one line; a grouped block is its entries plus its blank and comment
    /// lines plus the two delimiter lines.
    pub fn lines(&self) -> (r: usize)
        requires
            self@.single is None ==> total_entries(self@) + self@.empty_lines + 2 <= usize::MAX,
        ensures
            self@.single is Some ==> r == 1,
            self@.single is None ==> r == total_entries(self@) + self@.empty_lines + 2,
    {
        if self.single.is_some() {
            return 1;
        }
        self.length() + self.empty_lines + 2
    }

    /// How many entries the block holds (1 for the single form).
    pub fn length(&self) -> (r: usize)
        requires
            self@.single is None ==> total_entries(self@) <= usize::MAX,
        ensures
            self@.single is Some ==> r == 1,
            self@.single is None ==> r == total_entries(self@),
    {
        if self.single.is_some() {
            return 1;
        }
        proof {
            assert(self.builtin.deep_view().len() == self.builtin@.len());
            assert(self.external.deep_view().len() == self.external@.len());
            assert(self.local.deep_view().len() == self.local@.len());
        }
        self.builtin.len() + self.external.len() + self.local.len()
    }
}

/// Every scanned body line lands in exactly one bucket: entries plus
/// counted blank and comment lines add up to the lines consumed.
pub proof fn lemma_run_line_accounting(
    prefixes: Seq<Seq<char>>,
    st: BlockModel,
    lines: Seq<Seq<char>>,
)
    ensures
        total_entries(run_spec(prefixes, st, lines)) + run_spec(prefixes, st, lines).empty_lines
            == total_entries(st) + st.empty_lines + lines.len(),
        run_spec(prefixes, st, lines).single == st.single,
    decreases lines.len(),
{
    if lines.len() > 0 {
        lemma_run_line_accounting(prefixes, step_spec(prefixes, st, lines[0]), lines.drop_first());
    }
}

} // verus!
