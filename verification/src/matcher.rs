//! Classifies an import line as builtin (`Other`), project-local (`Local`)
//! or third-party (`External`). A line is host-like when a dot with at least
//! one character before it is followed, two or more positions later, by a
//! slash; a host-like line is local when it contains one of the configured
//! project prefixes.

use vstd::prelude::*;

use crate::strutil::contains_str;
use crate::strutil::find_char;
use crate::strutil::lemma_find_from;
use crate::strutil::seq_contains;
use crate::strutil::split_sep;
use crate::strutil::split_str;

verus! {

#[derive(Clone, Copy, Debug, PartialEq, Eq, Structural)]
pub enum PackageType {
    External,
    Local,
    Other,
}

/// The host-like pattern: a dot at position `i >= 1` and a slash at some
/// position `j >= i + 2`.
pub open spec fn external_match(s: Seq<char>) -> bool {
    exists|i: int, j: int| 1 <= i && i + 2 <= j && j < s.len() && s[i] == '.' && s[j] == '/'
}

/// Some configured prefix occurs in the line.
pub open spec fn local_match(prefixes: Seq<Seq<char>>, s: Seq<char>) -> bool {
    exists|k: int| 0 <= k < prefixes.len() && seq_contains(s, #[trigger] prefixes[k])
}

/// The category of a raw import line: not host-like lines are builtin
/// (`Other`), host-like lines are split by the project prefixes.
pub open spec fn package_spec(prefixes: Seq<Seq<char>>, s: Seq<char>) -> PackageType {
    if !external_match(s) {
        PackageType::Other
    } else if local_match(prefixes, s) {
        PackageType::Local
    } else {
        PackageType::External
    }
}

/// The immutable classification configuration: the project prefixes,
/// obtained by splitting the configuration string on commas.
pub struct Matcher {
    pub prefixes: Vec<String>,
}

impl View for Matcher {
    type V = Seq<Seq<char>>;

    open spec fn view(&self) -> Seq<Seq<char>> {
        self.prefixes.deep_view()
    }
}

/// Executable check of the host-like pattern.
fn is_external(s: &str) -> (r: bool)
    ensures
        r == external_match(s@),
{
    let n: usize = s.unicode_len();
    if n < 1 {
        return false;
    }
    let d: usize = find_char(s, '.', 1);
    proof {
        lemma_find_from(s@, '.', 1);
    }
    if d == n {
        proof {
            assert forall|i: int, j: int|
                !(1 <= i && i + 2 <= j && j < s@.len() && s@[i] == '.' && s@[j] == '/') by {
                if 1 <= i < s@.len() {
                    assert(s@[i] != '.');
                }
            }
        }
        return false;
    }
    if n - d < 3 {
        proof {
            assert forall|i: int, j: int|
                !(1 <= i && i + 2 <= j && j < s@.len() && s@[i] == '.' && s@[j] == '/') by {
                if 1 <= i && i + 2 <= j && j < s@.len() && s@[i] == '.' {
                    assert(d <= i);
                }
            }
        }
        return false;
    }
    let j: usize = find_char(s, '/', d + 2);
    proof {
        lemma_find_from(s@, '/', d + 2);
    }
    if j == n {
        proof {
            assert forall|i: int, jj: int|
                !(1 <= i && i + 2 <= jj && jj < s@.len() && s@[i] == '.' && s@[jj] == '/') by {
                if 1 <= i && i + 2 <= jj && jj < s@.len() && s@[i] == '.' {
                    assert(d <= i);
                    assert(s@[jj] != '/');
                }
            }
        }
        false
    } else {
        proof {
            assert(1 <= d && d + 2 <= j && j < s@.len() && s@[d as int] == '.' && s@[j as int]
                == '/');
        }
        true
    }
}

impl Matcher {
    /// Builds the configuration from the comma-separated prefix list.
    pub fn new(local: &str) -> (r: Matcher)
        ensures
            r@ == split_sep(local@, ','),
    {
        Matcher { prefixes: split_str(local, ',') }
    }

    /// True when some configured prefix occurs in the line.
    fn is_local(&self, s: &str) -> (r: bool)
        ensures
            r == local_match(self@, s@),
    {
        let mut k: usize = 0;
        while k < self.prefixes.len()
            invariant
                0 <= k <= self.prefixes.len(),
                self@.len() == self.prefixes@.len(),
                forall|j: int| 0 <= j < k ==> !seq_contains(s@, #[trigger] self@[j]),
            decreases self.prefixes.len() - k,
        {
            if contains_str(s, self.prefixes[k].as_str()) {
                proof {
                    assert(seq_contains(s@, self@[k as int]));
                }
                return true;
            }
            k = k + 1;
        }
        false
    }

    /// Classifies one raw import line.
    pub fn package(&self, package: &str) -> (r: PackageType)
        ensures
            r == package_spec(self@, package@),
    {
        if !is_external(package) {
            return PackageType::Other;
        }
        if self.is_local(package) {
            PackageType::Local
        } else {
            PackageType::External
        }
    }
}

/// A pattern with no blank characters in it.
pub open spec fn blank_free(p: Seq<char>) -> bool {
    forall|i: int| 0 <= i < p.len() ==> !crate::strutil::is_blank(p[i])
}

/// Classification does not look at trailing blanks: a line and its
/// initial segment that only drops trailing blanks classify alike, as
/// long as every configured prefix is free of blanks.
pub proof fn lemma_package_rightstrip(prefixes: Seq<Seq<char>>, l: Seq<char>, k: int)
    requires
        0 <= k <= l.len(),
        forall|m: int| k <= m < l.len() ==> crate::strutil::is_blank(l[m]),
        forall|i: int| 0 <= i < prefixes.len() ==> blank_free(#[trigger] prefixes[i]),
    ensures
        external_match(l.take(k)) == external_match(l),
        local_match(prefixes, l.take(k)) == local_match(prefixes, l),
        package_spec(prefixes, l.take(k)) == package_spec(prefixes, l),
{
    let r = l.take(k);
    // The host-like pattern: dots and slashes are not blanks, so every
    // witness lies inside the kept segment.
    if external_match(l) {
        let (i, j) = choose|i: int, j: int|
            1 <= i && i + 2 <= j && j < l.len() && l[i] == '.' && l[j] == '/';
        assert(!crate::strutil::is_blank(l[j]));
        assert(j < k);
        assert(r[i] == l[i] && r[j] == l[j]);
        assert(external_match(r));
    }
    if external_match(r) {
        let (i, j) = choose|i: int, j: int|
            1 <= i && i + 2 <= j && j < r.len() && r[i] == '.' && r[j] == '/';
        assert(l[i] == '.' && l[j] == '/');
        assert(external_match(l));
    }
    // Prefix containment: an occurrence of a blank-free prefix cannot
    // reach into the trailing blanks.
    assert forall|t: int| 0 <= t < prefixes.len() implies seq_contains(l, #[trigger] prefixes[t])
        == seq_contains(r, prefixes[t]) by {
        let p = prefixes[t];
        if seq_contains(l, p) {
            let q = choose|q: int| crate::strutil::contains_at(l, p, q);
            if p.len() == 0 {
                assert(r.subrange(0, 0) =~= p);
                assert(crate::strutil::contains_at(r, p, 0));
            } else {
                assert(l.subrange(q, q + p.len())[p.len() - 1] == l[q + p.len() - 1]);
                assert(!crate::strutil::is_blank(p[p.len() - 1]));
                assert(q + p.len() - 1 < k);
                assert(r.subrange(q, q + p.len()) =~= l.subrange(q, q + p.len()));
                assert(crate::strutil::contains_at(r, p, q));
            }
        }
        if seq_contains(r, p) {
            let q = choose|q: int| crate::strutil::contains_at(r, p, q);
            assert(l.subrange(q, q + p.len()) =~= r.subrange(q, q + p.len()));
            assert(crate::strutil::contains_at(l, p, q));
        }
    }
    assert(local_match(prefixes, r) == local_match(prefixes, l)) by {
        if local_match(prefixes, l) {
            let t = choose|t: int| 0 <= t < prefixes.len() && seq_contains(l, #[trigger] prefixes[t]);
            assert(seq_contains(r, prefixes[t]));
        }
        if local_match(prefixes, r) {
            let t = choose|t: int| 0 <= t < prefixes.len() && seq_contains(r, #[trigger] prefixes[t]);
            assert(seq_contains(l, prefixes[t]));
        }
    }
}

/// Classification is a partition: every line gets exactly one of the three
/// categories, and a `Local` line always matches the host-like pattern too.
pub proof fn lemma_classification_partition(prefixes: Seq<Seq<char>>, l: Seq<char>)
    ensures
        (package_spec(prefixes, l) is Other) <==> !external_match(l),
        (package_spec(prefixes, l) is Local) <==> (external_match(l) && local_match(prefixes, l)),
        (package_spec(prefixes, l) is External) <==> (external_match(l) && !local_match(
            prefixes,
            l,
        )),
        (package_spec(prefixes, l) is Local) ==> external_match(l),
{
}

} // verus!
