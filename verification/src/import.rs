//! One import declaration: leading whitespace kept verbatim, an optional
//! alias, the quoted path text used as the sort key, and an optional block
//! of comment lines attached by the block parser.

use vstd::prelude::*;

use crate::strutil::find_from;
use crate::strutil::lemma_find_from;
use crate::strutil::lemma_ws_prefix_len;
use crate::strutil::lemma_ws_prefix_len_unique;
use crate::strutil::trim;
use crate::strutil::trim_spec;
use crate::strutil::ws_prefix_len;

verus! {

/// The mathematical shape of one parsed import declaration.
pub struct EntryModel {
    pub prefix: Seq<char>,
    pub alias: Option<Seq<char>>,
    pub import: Seq<char>,
    pub comment: Option<Seq<char>>,
}

pub struct Import {
    pub prefix: String,
    pub alias: Option<String>,
    pub import: String,
    pub comment: Option<String>,
}

impl View for Import {
    type V = EntryModel;

    open spec fn view(&self) -> EntryModel {
        EntryModel {
            prefix: self.prefix@,
            alias: self.alias.deep_view(),
            import: self.import@,
            comment: self.comment.deep_view(),
        }
    }
}

impl DeepView for Import {
    type V = EntryModel;

    open spec fn deep_view(&self) -> EntryModel {
        self.view()
    }
}

/// Parsing one raw line: the leading blanks become the prefix; the trimmed
/// remainder is split at its first space into alias and path, or is the
/// whole path when it holds no space. No comment is attached yet.
pub open spec fn parse_entry_spec(line: Seq<char>) -> EntryModel {
    let t = trim_spec(line);
    let k = find_from(t, ' ', 0);
    if k < t.len() {
        EntryModel {
            prefix: line.take(ws_prefix_len(line)),
            alias: Some(t.take(k)),
            import: t.skip(k + 1),
            comment: None,
        }
    } else {
        EntryModel { prefix: line.take(ws_prefix_len(line)), alias: None, import: t, comment: None }
    }
}

/// The reconstructed declaration line, without any comment.
pub open spec fn entry_line(e: EntryModel) -> Seq<char> {
    e.prefix + (match e.alias {
        Some(a) => a + seq![' '],
        None => Seq::<char>::empty(),
    }) + e.import
}

/// The full rendered text: the comment block, if any, on the lines just
/// before the reconstructed declaration line.
pub open spec fn entry_to_str(e: EntryModel) -> Seq<char> {
    match e.comment {
        Some(c) => c + seq!['\n'] + entry_line(e),
        None => entry_line(e),
    }
}

/// Re-parsing a rendered declaration line gives the entry back: the line
/// is the original line's blank prefix followed by its trimmed remainder,
/// only trailing blanks of the original are missing from it, and parsing
/// it reproduces every field.
pub proof fn lemma_entry_reparse(l: Seq<char>)
    ensures
        ({
            let e = parse_entry_spec(l);
            &&& e.comment is None
            &&& entry_line(e) == l.take(ws_prefix_len(l)) + trim_spec(l)
            &&& entry_line(e).len() <= l.len()
            &&& entry_line(e) == l.take(entry_line(e).len() as int)
            &&& (forall|m: int| entry_line(e).len() <= m < l.len() ==> crate::strutil::is_blank(
                l[m],
            ))
            &&& trim_spec(entry_line(e)) == trim_spec(l)
            &&& parse_entry_spec(entry_line(e)) == e
        }),
{
    let e = parse_entry_spec(l);
    let a = ws_prefix_len(l);
    let suf = crate::strutil::ws_suffix_len(l);
    lemma_ws_prefix_len(l);
    crate::strutil::lemma_ws_suffix_len(l);
    crate::strutil::lemma_trim_bounds(l);
    let t = trim_spec(l);
    let pre = l.take(a);
    let k = find_from(t, ' ', 0);
    lemma_find_from(t, ' ', 0);
    // The reconstructed line is the prefix plus the trimmed remainder.
    if k < t.len() {
        assert(e.alias == Some(t.take(k)));
        assert(e.import == t.skip(k + 1));
        assert(t[k] == ' ');
        assert(pre + (t.take(k) + seq![' ']) + t.skip(k + 1) =~= pre + t);
        assert(entry_line(e) =~= pre + t);
    } else {
        assert(entry_line(e) =~= pre + t);
    }
    // The line is an initial segment of `l`, with only blanks after it.
    if a <= l.len() - suf {
        assert(t == l.subrange(a, l.len() - suf));
        assert(pre + t =~= l.take(l.len() - suf));
        assert((pre + t).len() == l.len() - suf);
    } else {
        if a < l.len() {
            assert(!crate::strutil::is_blank(l[a]));
            assert(l.len() - suf <= a < l.len());
            assert(crate::strutil::is_blank(l[a]));
        }
        assert(a == l.len());
        assert(t =~= Seq::<char>::empty());
        assert(pre + t =~= l);
    }
    // Re-parsing the reconstructed line.
    let r = pre + t;
    if t.len() == 0 {
        assert(r =~= pre);
        assert(forall|m: int| 0 <= m < r.len() ==> crate::strutil::is_blank(r[m]));
        crate::strutil::lemma_ws_prefix_len_unique(r, r.len() as int);
        crate::strutil::lemma_ws_suffix_len_unique(r, r.len() as int);
        assert(trim_spec(r) =~= t);
        let e2 = parse_entry_spec(r);
        assert(e2.prefix == r.take(r.len() as int));
        assert(r.take(r.len() as int) =~= pre);
        assert(e2 == e);
    } else {
        assert(forall|m: int| 0 <= m < a ==> crate::strutil::is_blank(#[trigger] r[m]));
        assert(r[a] == t[0]);
        assert(!crate::strutil::is_blank(t[0]));
        crate::strutil::lemma_ws_prefix_len_unique(r, a);
        assert(r.last() == t.last());
        assert(!crate::strutil::is_blank(t.last()));
        crate::strutil::lemma_ws_suffix_len_unique(r, 0);
        assert(trim_spec(r) =~= t);
        let e2 = parse_entry_spec(r);
        assert(e2.prefix == r.take(a));
        assert(r.take(a) =~= pre);
        assert(e2 == e);
    }
}

/// The maximal run of leading blanks, exactly as found.
pub fn whitespace_prefix(line: &str) -> (r: String)
    ensures
        r@ == line@.take(ws_prefix_len(line@)),
{
    let n: usize = line.unicode_len();
    let mut a: usize = 0;
    while a < n && crate::strutil::blank_char(line.get_char(a))
        invariant
            0 <= a <= n,
            n == line@.len(),
            forall|k: int| 0 <= k < a ==> crate::strutil::is_blank(line@[k]),
        decreases n - a,
    {
        a = a + 1;
    }
    proof {
        lemma_ws_prefix_len_unique(line@, a as int);
    }
    let r = line.substring_char(0, a).to_owned();
    proof {
        assert(r@ =~= line@.take(ws_prefix_len(line@)));
    }
    r
}

impl Import {
    /// Parses one raw import line.
    pub fn new(line: &str) -> (r: Import)
        ensures
            r@ == parse_entry_spec(line@),
    {
        let prefix = whitespace_prefix(line);
        let t = trim(line);
        let tn: usize = t.unicode_len();
        let k: usize = crate::strutil::find_char(t, ' ', 0);
        proof {
            lemma_find_from(t@, ' ', 0);
        }
        if k < tn {
            let alias = t.substring_char(0, k).to_owned();
            let import = t.substring_char(k + 1, tn).to_owned();
            let r = Import { prefix, alias: Some(alias), import, comment: None };
            proof {
                assert(r@.alias == Some(t@.take(k as int)));
                assert(r@.import =~= t@.skip(k + 1));
            }
            r
        } else {
            let import = t.to_owned();
            Import { prefix, alias: None, import, comment: None }
        }
    }

    /// Replaces the attached comment.
    pub fn with_comment(&mut self, comment: Option<String>)
        ensures
            final (self)@ == (EntryModel { comment: comment.deep_view(), ..old(self)@ }),
    {
        self.comment = comment;
    }

    /// Serializes the declaration back to text.
    pub fn to_str(&self) -> (r: String)
        ensures
            r@ == entry_to_str(self@),
    {
        let mut out = self.prefix.clone();
        match &self.alias {
            Some(a) => {
                out.append(a.as_str());
                out.append(" ");
                proof {
                    reveal_strlit(" ");
                    assert(" "@ =~= seq![' ']);
                }
            },
            None => {},
        }
        out.append(self.import.as_str());
        proof {
            assert(out@ == entry_line(self@));
        }
        match &self.comment {
            Some(c) => {
                let mut r = c.clone();
                r.append("\n");
                proof {
                    reveal_strlit("\n");
                    assert("\n"@ =~= seq!['\n']);
                }
                r.append(out.as_str());
                r
            },
            None => out,
        }
    }
}

} // verus!
