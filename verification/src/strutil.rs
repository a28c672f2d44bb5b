//! String primitives shared by the parser, the matcher and the renderer:
//! whitespace trimming, character search, substring containment,
//! lexicographic comparison, and splitting/joining on a separator.

use vstd::prelude::*;

verus! {

/// The two characters that count as import-line indentation.
pub open spec fn is_blank(c: char) -> bool {
    c == ' ' || c == '\t'
}

/// Length of the maximal leading run of blank characters.
pub open spec fn ws_prefix_len(s: Seq<char>) -> int
    decreases s.len(),
{
    if s.len() == 0 || !is_blank(s[0]) {
        0
    } else {
        1 + ws_prefix_len(s.drop_first())
    }
}

pub proof fn lemma_ws_prefix_len(s: Seq<char>)
    ensures
        0 <= ws_prefix_len(s) <= s.len(),
        forall|k: int| 0 <= k < ws_prefix_len(s) ==> is_blank(s[k]),
        ws_prefix_len(s) < s.len() ==> !is_blank(s[ws_prefix_len(s)]),
    decreases s.len(),
{
    if s.len() == 0 || !is_blank(s[0]) {
    } else {
        lemma_ws_prefix_len(s.drop_first());
        assert forall|k: int| 0 <= k < ws_prefix_len(s) implies is_blank(s[k]) by {
            if k > 0 {
                assert(s.drop_first()[k - 1] == s[k]);
            }
        }
        if ws_prefix_len(s) < s.len() {
            assert(s.drop_first()[ws_prefix_len(s) - 1] == s[ws_prefix_len(s)]);
        }
    }
}

/// A run of blanks at the start of length `n` pins `n` as the prefix length.
pub proof fn lemma_ws_prefix_len_unique(s: Seq<char>, n: int)
    requires
        0 <= n <= s.len(),
        forall|k: int| 0 <= k < n ==> is_blank(s[k]),
        n < s.len() ==> !is_blank(s[n]),
    ensures
        n == ws_prefix_len(s),
    decreases s.len(),
{
    if s.len() == 0 {
    } else if n == 0 {
        lemma_ws_prefix_len(s);
    } else {
        assert(is_blank(s[0]));
        assert(forall|k: int| 0 <= k < n - 1 ==> s.drop_first()[k] == s[k + 1]);
        lemma_ws_prefix_len_unique(s.drop_first(), n - 1);
    }
}

/// Length of the maximal trailing run of blank characters.
pub open spec fn ws_suffix_len(s: Seq<char>) -> int
    decreases s.len(),
{
    if s.len() == 0 || !is_blank(s.last()) {
        0
    } else {
        1 + ws_suffix_len(s.drop_last())
    }
}

pub proof fn lemma_ws_suffix_len(s: Seq<char>)
    ensures
        0 <= ws_suffix_len(s) <= s.len(),
        forall|k: int| s.len() - ws_suffix_len(s) <= k < s.len() ==> is_blank(s[k]),
        ws_suffix_len(s) < s.len() ==> !is_blank(s[s.len() - ws_suffix_len(s) - 1]),
    decreases s.len(),
{
    if s.len() == 0 || !is_blank(s.last()) {
    } else {
        lemma_ws_suffix_len(s.drop_last());
        assert forall|k: int| s.len() - ws_suffix_len(s) <= k < s.len() implies is_blank(s[k]) by {
            if k < s.len() - 1 {
                assert(s.drop_last()[k] == s[k]);
            }
        }
        if ws_suffix_len(s) < s.len() {
            assert(s.drop_last()[s.len() - ws_suffix_len(s) - 1] == s[s.len() - ws_suffix_len(s) - 1]);
        }
    }
}

pub proof fn lemma_ws_suffix_len_unique(s: Seq<char>, n: int)
    requires
        0 <= n <= s.len(),
        forall|k: int| s.len() - n <= k < s.len() ==> is_blank(s[k]),
        n < s.len() ==> !is_blank(s[s.len() - n - 1]),
    ensures
        n == ws_suffix_len(s),
    decreases s.len(),
{
    if s.len() == 0 {
    } else if n == 0 {
        lemma_ws_suffix_len(s);
    } else {
        assert(is_blank(s.last()));
        assert(forall|k: int| 0 <= k < s.len() - 1 ==> s.drop_last()[k] == s[k]);
        lemma_ws_suffix_len_unique(s.drop_last(), n - 1);
    }
}

/// The line with leading and trailing blanks removed.
pub open spec fn trim_spec(s: Seq<char>) -> Seq<char> {
    let a = ws_prefix_len(s);
    let b = s.len() - ws_suffix_len(s);
    if a <= b {
        s.subrange(a, b)
    } else {
        Seq::empty()
    }
}

/// Trimming never leaves a blank at either end, and an untouched middle.
pub proof fn lemma_trim_bounds(s: Seq<char>)
    ensures
        trim_spec(s).len() <= s.len(),
        trim_spec(s).len() > 0 ==> !is_blank(trim_spec(s)[0]),
        trim_spec(s).len() > 0 ==> !is_blank(trim_spec(s).last()),
{
    lemma_ws_prefix_len(s);
    lemma_ws_suffix_len(s);
}

/// Executable form of `is_blank`.
pub fn blank_char(c: char) -> (r: bool)
    ensures
        r == is_blank(c),
{
    c == ' ' || c == '\t'
}

pub fn trim(s: &str) -> (r: &str)
    ensures
        r@ == trim_spec(s@),
{
    let n: usize = s.unicode_len();
    let mut a: usize = 0;
    while a < n && blank_char(s.get_char(a))
        invariant
            0 <= a <= n,
            n == s@.len(),
            forall|k: int| 0 <= k < a ==> is_blank(s@[k]),
        decreases n - a,
    {
        a = a + 1;
    }
    proof {
        lemma_ws_prefix_len_unique(s@, a as int);
    }
    let mut b: usize = n;
    while b > a && blank_char(s.get_char(b - 1))
        invariant
            a <= b <= n,
            n == s@.len(),
            forall|k: int| b <= k < n ==> is_blank(s@[k]),
        decreases b,
    {
        b = b - 1;
    }
    if b == a {
        // The first scan stopped only at the end or at a non-blank, and the
        // second cannot step past that non-blank; meeting means all blanks.
        proof {
            assert(a == n);
            lemma_ws_suffix_len_unique(s@, n as int);
            assert(trim_spec(s@) =~= Seq::<char>::empty());
        }
        let r = s.substring_char(a, a);
        proof {
            assert(r@ =~= trim_spec(s@));
        }
        r
    } else {
        proof {
            assert(!is_blank(s@[b - 1]));
            lemma_ws_suffix_len_unique(s@, (n - b) as int);
            assert(trim_spec(s@) == s@.subrange(a as int, b as int));
        }
        s.substring_char(a, b)
    }
}

/// Index of the first occurrence of `c` in `s` at or after `from`,
/// or `s.len()` if there is none.
pub open spec fn find_from(s: Seq<char>, c: char, from: int) -> int
    decreases s.len() - from,
{
    if from < 0 || from >= s.len() {
        s.len() as int
    } else if s[from] == c {
        from
    } else {
        find_from(s, c, from + 1)
    }
}

pub proof fn lemma_find_from(s: Seq<char>, c: char, from: int)
    requires
        0 <= from <= s.len(),
    ensures
        from <= find_from(s, c, from) <= s.len(),
        find_from(s, c, from) < s.len() ==> s[find_from(s, c, from)] == c,
        forall|k: int| from <= k < find_from(s, c, from) ==> s[k] != c,
    decreases s.len() - from,
{
    if from < s.len() && s[from] != c {
        lemma_find_from(s, c, from + 1);
    }
}

pub fn find_char(s: &str, c: char, from: usize) -> (r: usize)
    requires
        from <= s@.len(),
    ensures
        r == find_from(s@, c, from as int),
{
    let n: usize = s.unicode_len();
    let mut i: usize = from;
    while i < n && s.get_char(i) != c
        invariant
            from <= i <= n,
            n == s@.len(),
            find_from(s@, c, from as int) == find_from(s@, c, i as int),
        decreases n - i,
    {
        i = i + 1;
    }
    proof {
        lemma_find_from(s@, c, i as int);
    }
    i
}

/// Lexicographic order on character sequences, by code point.
pub open spec fn seq_le(a: Seq<char>, b: Seq<char>) -> bool
    decreases a.len(),
{
    if a.len() == 0 {
        true
    } else if b.len() == 0 {
        false
    } else if (a[0] as u32) < (b[0] as u32) {
        true
    } else if (a[0] as u32) > (b[0] as u32) {
        false
    } else {
        seq_le(a.drop_first(), b.drop_first())
    }
}

pub proof fn lemma_seq_le_total(a: Seq<char>, b: Seq<char>)
    ensures
        seq_le(a, b) || seq_le(b, a),
    decreases a.len(),
{
    if a.len() > 0 && b.len() > 0 && a[0] as u32 == b[0] as u32 {
        lemma_seq_le_total(a.drop_first(), b.drop_first());
    }
}

pub proof fn lemma_seq_le_refl(a: Seq<char>)
    ensures
        seq_le(a, a),
    decreases a.len(),
{
    if a.len() > 0 {
        lemma_seq_le_refl(a.drop_first());
    }
}

pub proof fn lemma_seq_le_trans(a: Seq<char>, b: Seq<char>, c: Seq<char>)
    requires
        seq_le(a, b),
        seq_le(b, c),
    ensures
        seq_le(a, c),
    decreases a.len(),
{
    if a.len() > 0 && b.len() > 0 && c.len() > 0 {
        if a[0] as u32 == b[0] as u32 && b[0] as u32 == c[0] as u32 {
            lemma_seq_le_trans(a.drop_first(), b.drop_first(), c.drop_first());
        }
    }
}

/// Executable lexicographic comparison.
pub fn str_le(a: &str, b: &str) -> (r: bool)
    ensures
        r == seq_le(a@, b@),
{
    let na: usize = a.unicode_len();
    let nb: usize = b.unicode_len();
    let mut i: usize = 0;
    proof {
        assert(a@.skip(0) =~= a@);
        assert(b@.skip(0) =~= b@);
    }
    while i < na && i < nb && a.get_char(i) == b.get_char(i)
        invariant
            0 <= i <= na,
            0 <= i <= nb,
            na == a@.len(),
            nb == b@.len(),
            seq_le(a@, b@) == seq_le(a@.skip(i as int), b@.skip(i as int)),
            forall|k: int| 0 <= k < i ==> a@[k] == b@[k],
        decreases na - i,
    {
        proof {
            let sa = a@.skip(i as int);
            let sb = b@.skip(i as int);
            assert(sa[0] == a@[i as int]);
            assert(sb[0] == b@[i as int]);
            assert(sa.drop_first() =~= a@.skip(i + 1));
            assert(sb.drop_first() =~= b@.skip(i + 1));
        }
        i = i + 1;
    }
    proof {
        let sa = a@.skip(i as int);
        let sb = b@.skip(i as int);
        if i < na && i < nb {
            assert(sa[0] == a@[i as int]);
            assert(sb[0] == b@[i as int]);
        } else if i == na {
            assert(sa.len() == 0);
        } else {
            assert(sb.len() == 0);
            assert(sa.len() > 0);
        }
    }
    if i < na {
        if i < nb {
            (a.get_char(i) as u32) < (b.get_char(i) as u32)
        } else {
            false
        }
    } else {
        true
    }
}

/// `needle` occurs in `hay` starting at position `k`.
pub open spec fn contains_at(hay: Seq<char>, needle: Seq<char>, k: int) -> bool {
    0 <= k && k + needle.len() <= hay.len() && hay.subrange(k, k + needle.len()) == needle
}

/// `needle` occurs somewhere in `hay`.
pub open spec fn seq_contains(hay: Seq<char>, needle: Seq<char>) -> bool {
    exists|k: int| contains_at(hay, needle, k)
}

/// `needle` matches `hay` at position `k` (all offsets checked).
fn match_at(hay: &str, needle: &str, k: usize) -> (r: bool)
    requires
        k + needle@.len() <= hay@.len(),
    ensures
        r == contains_at(hay@, needle@, k as int),
{
    let h: usize = hay.unicode_len();
    let n: usize = needle.unicode_len();
    let mut i: usize = 0;
    while i < n
        invariant
            0 <= i <= n,
            n == needle@.len(),
            h == hay@.len(),
            k + n <= h,
            forall|m: int| 0 <= m < i ==> hay@[k + m] == needle@[m],
        decreases n - i,
    {
        if hay.get_char(k + i) != needle.get_char(i) {
            proof {
                assert(hay@.subrange(k as int, k + n)[i as int] == hay@[k + i]);
            }
            return false;
        }
        i = i + 1;
    }
    proof {
        assert(hay@.subrange(k as int, k + n) =~= needle@);
    }
    true
}

/// Executable substring search.
pub fn contains_str(hay: &str, needle: &str) -> (r: bool)
    ensures
        r == seq_contains(hay@, needle@),
{
    let h: usize = hay.unicode_len();
    let n: usize = needle.unicode_len();
    if n > h {
        proof {
            assert(forall|k: int| !contains_at(hay@, needle@, k));
        }
        return false;
    }
    if n == 0 {
        proof {
            assert(hay@.subrange(0, 0) =~= needle@);
            assert(contains_at(hay@, needle@, 0));
        }
        return true;
    }
    let mut k: usize = 0;
    while k <= h - n
        invariant
            0 <= k <= h - n + 1,
            1 <= n <= h,
            h == hay@.len(),
            n == needle@.len(),
            forall|j: int| 0 <= j < k ==> !contains_at(hay@, needle@, j),
        decreases h - k,
    {
        if match_at(hay, needle, k) {
            return true;
        }
        k = k + 1;
    }
    proof {
        assert(forall|j: int| j > h - n ==> !contains_at(hay@, needle@, j));
    }
    false
}

/// The pieces of `s` between occurrences of `sep`; one more piece than
/// there are separators, so never empty.
pub open spec fn split_sep(s: Seq<char>, sep: char) -> Seq<Seq<char>>
    decreases s.len(),
    via split_sep_decreases
{
    let k = find_from(s, sep, 0);
    if k == s.len() {
        seq![s]
    } else {
        seq![s.take(k)] + split_sep(s.skip(k + 1), sep)
    }
}

#[via_fn]
proof fn split_sep_decreases(s: Seq<char>, sep: char) {
    lemma_find_from(s, sep, 0);
}

pub proof fn lemma_split_sep_basic(s: Seq<char>, sep: char)
    ensures
        split_sep(s, sep).len() >= 1,
        split_sep(s, sep).len() <= s.len() + 1,
        forall|i: int, j: int|
            0 <= i < split_sep(s, sep).len() && 0 <= j < split_sep(s, sep)[i].len()
                ==> split_sep(s, sep)[i][j] != sep,
    decreases s.len(),
{
    lemma_find_from(s, sep, 0);
    let k = find_from(s, sep, 0);
    if k == s.len() {
    } else {
        lemma_split_sep_basic(s.skip(k + 1), sep);
        let parts = split_sep(s, sep);
        let rest = split_sep(s.skip(k + 1), sep);
        assert forall|i: int, j: int|
            0 <= i < parts.len() && 0 <= j < parts[i].len() implies parts[i][j] != sep by {
            if i == 0 {
                assert(parts[0] == s.take(k));
                assert(s.take(k)[j] == s[j]);
            } else {
                assert(parts[i] == rest[i - 1]);
            }
        }
    }
}

/// The lines joined back with the separator `'\n'`.
pub open spec fn join_lines(ls: Seq<Seq<char>>) -> Seq<char>
    decreases ls.len(),
{
    if ls.len() == 0 {
        Seq::empty()
    } else if ls.len() == 1 {
        ls[0]
    } else {
        ls[0] + seq!['\n'] + join_lines(ls.drop_first())
    }
}

pub proof fn lemma_join_snoc(ls: Seq<Seq<char>>, x: Seq<char>)
    ensures
        join_lines(ls.push(x)) == if ls.len() == 0 {
            x
        } else {
            join_lines(ls) + seq!['\n'] + x
        },
    decreases ls.len(),
{
    let p = ls.push(x);
    if ls.len() == 0 {
        assert(p.len() == 1);
        assert(p[0] == x);
    } else {
        lemma_join_snoc(ls.drop_first(), x);
        assert(p.drop_first() =~= ls.drop_first().push(x));
        assert(p[0] == ls[0]);
        if ls.len() == 1 {
            assert(join_lines(p) == p[0] + seq!['\n'] + join_lines(p.drop_first()));
            assert(join_lines(ls) == ls[0]);
        } else {
            assert(join_lines(p) == p[0] + seq!['\n'] + join_lines(p.drop_first()));
            assert(ls[0] + seq!['\n'] + (join_lines(ls.drop_first()) + seq!['\n'] + x) =~= (ls[0]
                + seq!['\n'] + join_lines(ls.drop_first())) + seq!['\n'] + x);
        }
    }
}

/// Joining the pieces of a split restores the original text.
pub proof fn lemma_join_split(s: Seq<char>, sep: char)
    requires
        sep == '\n',
    ensures
        join_lines(split_sep(s, sep)) == s,
    decreases s.len(),
{
    lemma_find_from(s, sep, 0);
    let k = find_from(s, sep, 0);
    if k == s.len() {
        assert(split_sep(s, sep) == seq![s]);
    } else {
        lemma_join_split(s.skip(k + 1), sep);
        let parts = split_sep(s, sep);
        let rest = split_sep(s.skip(k + 1), sep);
        lemma_split_sep_basic(s.skip(k + 1), sep);
        assert(parts.drop_first() =~= rest);
        if rest.len() == 0 {
        } else {
            assert(parts[0] == s.take(k));
            if parts.len() == 1 {
            } else {
                assert(join_lines(parts) == parts[0] + seq!['\n'] + join_lines(parts.drop_first()));
                assert(s.take(k) + seq!['\n'] + s.skip(k + 1) =~= s);
            }
        }
    }
}

/// A piece with no separator in it.
pub open spec fn sep_free(p: Seq<char>, sep: char) -> bool {
    forall|j: int| 0 <= j < p.len() ==> p[j] != sep
}

/// Splitting the join of separator-free pieces restores the pieces.
pub proof fn lemma_split_join(ls: Seq<Seq<char>>, sep: char)
    requires
        sep == '\n',
        ls.len() > 0,
        forall|i: int| 0 <= i < ls.len() ==> sep_free(#[trigger] ls[i], sep),
    ensures
        split_sep(join_lines(ls), sep) == ls,
    decreases ls.len(),
{
    let s = join_lines(ls);
    if ls.len() == 1 {
        assert(s == ls[0]);
        lemma_find_from(s, sep, 0);
        if find_from(s, sep, 0) < s.len() {
            assert(s[find_from(s, sep, 0)] == sep);
            assert(false);
        }
        assert(split_sep(s, sep) =~= ls);
    } else {
        assert(s == ls[0] + seq!['\n'] + join_lines(ls.drop_first()));
        let h = ls[0].len() as int;
        assert forall|m: int| 0 <= m < h implies s[m] != sep by {
            assert(s[m] == ls[0][m]);
        }
        assert(s[h] == sep);
        lemma_find_from_exact(s, sep, h);
        assert(s.take(h) =~= ls[0]);
        assert(s.skip(h + 1) =~= join_lines(ls.drop_first()));
        assert forall|i: int| 0 <= i < ls.drop_first().len() implies sep_free(
            #[trigger] ls.drop_first()[i],
            sep,
        ) by {
            assert(ls.drop_first()[i] == ls[i + 1]);
        }
        lemma_split_join(ls.drop_first(), sep);
        assert(split_sep(s, sep) =~= seq![ls[0]] + ls.drop_first());
        assert(seq![ls[0]] + ls.drop_first() =~= ls);
    }
}

/// Splitting around one explicit separator splits each side on its own.
pub proof fn lemma_split_concat(a: Seq<char>, b: Seq<char>, sep: char)
    ensures
        split_sep(a + seq![sep] + b, sep) == split_sep(a, sep) + split_sep(b, sep),
    decreases a.len(),
{
    let s = a + seq![sep] + b;
    lemma_find_from(a, sep, 0);
    let ka = find_from(a, sep, 0);
    if ka == a.len() {
        // The middle separator is the first one in the concatenation.
        assert forall|m: int| 0 <= m < a.len() implies s[m] != sep by {
            assert(s[m] == a[m]);
        }
        assert(s[a.len() as int] == sep);
        lemma_find_from_exact(s, sep, a.len() as int);
        assert(s.take(a.len() as int) =~= a);
        assert(s.skip(a.len() as int + 1) =~= b);
        assert(split_sep(a, sep) =~= seq![a]);
        assert(split_sep(s, sep) =~= seq![a] + split_sep(b, sep));
    } else {
        assert forall|m: int| 0 <= m < ka implies s[m] != sep by {
            assert(s[m] == a[m]);
        }
        assert(s[ka] == a[ka]);
        lemma_find_from_exact(s, sep, ka);
        assert(s.take(ka) =~= a.take(ka));
        assert(s.skip(ka + 1) =~= a.skip(ka + 1) + seq![sep] + b);
        lemma_split_concat(a.skip(ka + 1), b, sep);
        assert(split_sep(s, sep) == seq![s.take(ka)] + split_sep(s.skip(ka + 1), sep));
        assert(split_sep(a, sep) == seq![a.take(ka)] + split_sep(a.skip(ka + 1), sep));
        assert(seq![a.take(ka)] + (split_sep(a.skip(ka + 1), sep) + split_sep(b, sep)) =~= (
        seq![a.take(ka)] + split_sep(a.skip(ka + 1), sep)) + split_sep(b, sep));
    }
}

/// A separator at `h` with none before it is the first one found.
pub proof fn lemma_find_from_exact(s: Seq<char>, sep: char, h: int)
    requires
        0 <= h < s.len(),
        s[h] == sep,
        forall|m: int| 0 <= m < h ==> s[m] != sep,
    ensures
        find_from(s, sep, 0) == h,
{
    lemma_find_from(s, sep, 0);
    let k = find_from(s, sep, 0);
    if k < h {
        assert(s[k] != sep);
    }
    if k > h {
        assert(s[h] != sep);
    }
}

/// Executable split on a separator character.
pub fn split_str(s: &str, sep: char) -> (v: Vec<String>)
    ensures
        v.deep_view() == split_sep(s@, sep),
{
    let mut v: Vec<String> = Vec::new();
    let mut rest: &str = s;
    proof {
        assert(v.deep_view() =~= Seq::<Seq<char>>::empty());
    }
    loop
        invariant_except_break
            split_sep(s@, sep) == v.deep_view() + split_sep(rest@, sep),
        ensures
            v.deep_view() == split_sep(s@, sep),
        decreases rest@.len(),
    {
        let n: usize = rest.unicode_len();
        let k: usize = find_char(rest, sep, 0);
        proof {
            lemma_find_from(rest@, sep, 0);
        }
        if k == n {
            let ghost old_dv = v.deep_view();
            let piece: String = rest.to_owned();
            v.push(piece);
            proof {
                assert(v.deep_view() =~= old_dv.push(rest@));
                assert(split_sep(rest@, sep) =~= seq![rest@]);
                assert(old_dv.push(rest@) =~= old_dv + seq![rest@]);
            }
            break ;
        } else {
            let ghost old_dv = v.deep_view();
            let ghost old_rest = rest@;
            let piece: String = rest.substring_char(0, k).to_owned();
            v.push(piece);
            rest = rest.substring_char(k + 1, n);
            proof {
                assert(v.deep_view() =~= old_dv.push(old_rest.take(k as int)));
                assert(old_rest.subrange(0, k as int) =~= old_rest.take(k as int));
                assert(rest@ =~= old_rest.skip(k + 1));
                assert(split_sep(old_rest, sep) == seq![old_rest.take(k as int)] + split_sep(
                    rest@,
                    sep,
                ));
                assert(old_dv.push(old_rest.take(k as int)) + split_sep(rest@, sep) =~= old_dv + (
                seq![old_rest.take(k as int)] + split_sep(rest@, sep)));
            }
        }
    }
    v
}

/// Executable join of `lines[from..to]` with `'\n'`.
pub fn join_range(lines: &Vec<String>, from: usize, to: usize) -> (r: String)
    requires
        from <= to <= lines@.len(),
    ensures
        r@ == join_lines(lines.deep_view().subrange(from as int, to as int)),
{
    let mut r = String::new();
    let mut i: usize = from;
    proof {
        assert(lines.deep_view().subrange(from as int, from as int) =~= Seq::<Seq<char>>::empty());
    }
    while i < to
        invariant
            from <= i <= to <= lines@.len(),
            lines.deep_view().len() == lines@.len(),
            r@ == join_lines(lines.deep_view().subrange(from as int, i as int)),
        decreases to - i,
    {
        let ghost dv = lines.deep_view();
        if i > from {
            r.append("\n");
            proof {
                reveal_strlit("\n");
                assert("\n"@ =~= seq!['\n']);
            }
        }
        r.append(lines[i].as_str());
        proof {
            assert(dv.subrange(from as int, i + 1) =~= dv.subrange(from as int, i as int).push(
                dv[i as int],
            ));
            lemma_join_snoc(dv.subrange(from as int, i as int), dv[i as int]);
            assert(dv[i as int] == lines@[i as int]@);
        }
        i = i + 1;
    }
    r
}

/// String equality at the character level.
pub fn str_eq(a: &str, b: &str) -> (r: bool)
    ensures
        r == (a@ == b@),
{
    let n: usize = a.unicode_len();
    if n != b.unicode_len() {
        return false;
    }
    let mut i: usize = 0;
    while i < n
        invariant
            0 <= i <= n,
            n == a@.len(),
            n == b@.len(),
            forall|k: int| 0 <= k < i ==> a@[k] == b@[k],
        decreases n - i,
    {
        if a.get_char(i) != b.get_char(i) {
            return false;
        }
        i = i + 1;
    }
    proof {
        assert(a@ =~= b@);
    }
    true
}

} // verus!
