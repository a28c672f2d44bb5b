use goimpfmt::diff::DiffLine;
use goimpfmt::diff::diff;
use goimpfmt::diff::get_diff;
use goimpfmt::import::Import;
use goimpfmt::imports::Imports;
use goimpfmt::matcher::Matcher;
use goimpfmt::matcher::PackageType;

fn to_lines(s: &str) -> Vec<String> {
    s.lines().map(|l| l.to_string()).collect()
}

#[test]
fn test_diff() {
    let left = "a
b
c
d
e
f
g";

    let right = "a
b
c
d
f
g
e";

    let cs = diff(&to_lines(left), &to_lines(right));
    assert_eq!(cs.distance, 2);
}

#[test]
fn test_import() {
    let input = r#"json "github.com/Pungyeon/required/pkg/json""#;
    let aliased = Import::new(input);
    assert_eq!(aliased.alias, Some("json".to_string()));
    assert_eq!(&aliased.import, "\"github.com/Pungyeon/required/pkg/json\"");
    assert_eq!(aliased.to_str(), input);

    let normal = Import::new(r#""github.com/Pungyeon/required/pkg/json""#);
    assert_eq!(normal.alias, None);
    assert_eq!(&normal.import, "\"github.com/Pungyeon/required/pkg/json\"");

    let prefixed = Import::new("\t\"os\"");
    assert_eq!(prefixed.prefix, "\t");
}

#[test]
fn test_import_fix() {
    let input = "import (
  \"github.com/Vivino/go-api/something\"
  \"os\"
  // This is something
  \"github.com/Vivino/go-tools/something\"
  \"github.com/Pungyeon/import-fix\"
)";

    let expected = "import (
  \"os\"

  \"github.com/Vivino/go-api/something\"

  \"github.com/Pungyeon/import-fix\"
  // This is something
  \"github.com/Vivino/go-tools/something\"
)";

    let lines = to_lines(input);
    let mut imports = Imports::new(&lines, 0, &Matcher::new("github.com/Vivino/go-api"));
    let out = imports.output();
    println!("{}", out);

    assert_eq!(imports.length(), 4);
    assert_eq!(out, expected);
}

#[test]
fn test_simple_import() {
    let input = "import (
\t\"os\"
)";

    let lines = to_lines(input);
    let mut imports = Imports::new(&lines, 0, &Matcher::new("github.com/Vivino/go-api"));

    assert_eq!(imports.length(), 1);
    assert_eq!(imports.output(), input); // ensure there is no change
}

#[test]
fn test_one_liner_import() {
    let input = r#"import "os""#;

    let lines = to_lines(input);
    let mut imports = Imports::new(&lines, 0, &Matcher::new("github.com/Vivino/go-api"));
    assert_eq!(imports.length(), 1);
    assert_eq!(imports.output(), input); // ensure there is no change
}

#[test]
fn classification_follows_both_patterns() {
    let m = Matcher::new("github.com/vendor/api");
    // Not host-like: builtin.
    assert_eq!(m.package("\t\"os\""), PackageType::Other);
    assert_eq!(m.package("\t\"net/http\""), PackageType::Other);
    // Host-like and containing the project prefix: local.
    assert_eq!(m.package("\t\"github.com/vendor/api/x\""), PackageType::Local);
    // Host-like without the prefix: external.
    assert_eq!(m.package("\t\"github.com/me/project\""), PackageType::External);
}

#[test]
fn two_prefixes_both_route_local() {
    let m = Matcher::new("github.com/vendor/api,github.com/other");
    assert_eq!(m.package("\t\"github.com/vendor/api/x\""), PackageType::Local);
    assert_eq!(m.package("\t\"github.com/other/lib\""), PackageType::Local);
    assert_eq!(m.package("\t\"github.com/third/lib\""), PackageType::External);
}

#[test]
fn alias_is_kept_and_re_emitted() {
    let entry = Import::new("\tkafka \"github.com/vendor/api/kafka\"");
    assert_eq!(entry.alias, Some("kafka".to_string()));
    assert_eq!(entry.import, "\"github.com/vendor/api/kafka\"");
    assert_eq!(entry.to_str(), "\tkafka \"github.com/vendor/api/kafka\"");
}

#[test]
fn grouping_sorting_and_blank_lines() {
    // One entry of each category, out of order, with a comment that must
    // move together with the entry it precedes.
    let input = "import (
\t\"github.com/vendor/api/x\"
\t\"os\"
\t// keep me with tools
\t\"github.com/vendor/tools/y\"
\t\"github.com/me/project\"
)";

    let expected = "import (
\t\"os\"

\t\"github.com/vendor/api/x\"

\t\"github.com/me/project\"
\t// keep me with tools
\t\"github.com/vendor/tools/y\"
)";

    let lines = to_lines(input);
    let mut imports = Imports::new(&lines, 0, &Matcher::new("github.com/vendor/api"));
    let out = imports.output();
    assert_eq!(out, expected);

    let cs = diff(&to_lines(input), &to_lines(&out));
    assert_eq!(cs.distance, 6);
    let (add, rem) = get_diff(&cs.diffs);
    assert_eq!(add, 4);
    assert_eq!(rem, 2);
}

#[test]
fn rendering_is_idempotent_on_canonical_text() {
    let canonical = "import (
\t\"fmt\"
\t\"os\"

\t\"github.com/vendor/api/x\"

\t\"github.com/me/project\"
\t// a comment
\t\"github.com/vendor/tools/y\"
)";

    let lines = to_lines(canonical);
    let mut imports = Imports::new(&lines, 0, &Matcher::new("github.com/vendor/api"));
    assert_eq!(imports.output(), canonical);
}

#[test]
fn sorting_is_stable_for_equal_paths() {
    let input = "import (
\tb \"github.com/vendor/x\"
\ta \"github.com/vendor/x\"
)";

    // Equal paths keep their original relative order.
    let expected = "import (
\tb \"github.com/vendor/x\"
\ta \"github.com/vendor/x\"
)";

    let lines = to_lines(input);
    let mut imports = Imports::new(&lines, 0, &Matcher::new("github.com/vendor/api"));
    assert_eq!(imports.output(), expected);
}

#[test]
fn lines_counts_consumed_input_lines() {
    let input = "import (
\t\"os\"

\t// comment
\t\"github.com/me/project\"
)
func main() {}";

    let lines = to_lines(input);
    let mut imports = Imports::new(&lines, 0, &Matcher::new("github.com/vendor/api"));
    let _ = imports.output();
    // Opener, two entries, one blank, one comment, closer: six lines.
    assert_eq!(imports.lines(), 6);
    assert_eq!(imports.length(), 2);
}

#[test]
fn diff_distance_is_zero_only_for_equal_inputs() {
    let x = to_lines("a\nb\nc");
    let cs = diff(&x, &x);
    assert_eq!(cs.distance, 0);
    assert!(cs.diffs.iter().all(|d| matches!(d, DiffLine::Same(_))));

    let y = to_lines("a\nc");
    let cs2 = diff(&x, &y);
    assert!(cs2.distance > 0);
    assert_eq!(cs2.distance, 1);
}

#[test]
fn edit_script_prefers_early_matches_and_removals() {
    let cs = diff(&to_lines("a\nb"), &to_lines("b"));
    assert_eq!(cs.distance, 1);
    assert_eq!(cs.diffs.len(), 2);
    assert!(matches!(&cs.diffs[0], DiffLine::Removed(l) if l == "a"));
    assert!(matches!(&cs.diffs[1], DiffLine::Same(l) if l == "b"));

    let cs2 = diff(&to_lines("x\ny"), &to_lines("y\nx"));
    // Two minimal scripts exist; the earlier line is marked `Same`.
    assert_eq!(cs2.distance, 2);
    assert!(matches!(&cs2.diffs[0], DiffLine::Removed(l) if l == "x"));
    assert!(matches!(&cs2.diffs[1], DiffLine::Same(l) if l == "y"));
    assert!(matches!(&cs2.diffs[2], DiffLine::Added(l) if l == "x"));
}

#[test]
fn trailing_comment_before_closer_is_dropped() {
    let input = "import (
\t\"os\"
\t// dangling comment
)";

    let expected = "import (
\t\"os\"
)";

    let lines = to_lines(input);
    let mut imports = Imports::new(&lines, 0, &Matcher::new("github.com/vendor/api"));
    assert_eq!(imports.output(), expected);
    // The comment line still counts toward the occupied lines.
    assert_eq!(imports.lines(), 4);
}

#[test]
fn missing_closer_consumes_the_rest() {
    let input = "import (
\t\"os\"
\t\"fmt\"";

    let lines = to_lines(input);
    let mut imports = Imports::new(&lines, 0, &Matcher::new("github.com/vendor/api"));
    assert_eq!(imports.length(), 2);
    assert_eq!(imports.output(), "import (\n\t\"fmt\"\n\t\"os\"\n)");
}
