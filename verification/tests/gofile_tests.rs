use goimpfmt::gofile::GoFile;
use goimpfmt::matcher::Matcher;

#[test]
fn single_import_file_is_unchanged() {
    let input = "package main\n\nimport \"os\"\n\nfunc main() {}\n";
    let file = GoFile::from_file(input.to_string(), &Matcher::new("github.com/vendor/api"));
    let go_file = file.unwrap();
    assert_eq!(go_file.diff.distance, 0);
    assert_eq!(go_file.output(), input);
}

#[test]
fn file_without_import_block_is_skipped() {
    let input = "package main\n\nfunc main() {}\n";
    let file = GoFile::from_file(input.to_string(), &Matcher::new("github.com/vendor/api"));
    assert!(file.is_none());
}

#[test]
fn grouped_file_is_rewritten_in_place() {
    let input = "package main\n\nimport (\n\t\"github.com/me/project\"\n\t\"os\"\n)\n\nfunc main() {}\n";
    let expected =
        "package main\n\nimport (\n\t\"os\"\n\n\t\"github.com/me/project\"\n)\n\nfunc main() {}\n";
    let file = GoFile::from_file(input.to_string(), &Matcher::new("github.com/vendor/api"));
    let go_file = file.unwrap();
    assert!(go_file.diff.distance > 0);
    assert_eq!(go_file.output(), expected);
}

#[test]
fn only_the_first_block_is_processed() {
    let input = "package main\n\nimport (\n\t\"os\"\n)\n\nimport (\n\t\"fmt\"\n)\n";
    let file = GoFile::from_file(input.to_string(), &Matcher::new("github.com/vendor/api"));
    let go_file = file.unwrap();
    // The first block is already canonical; the second is left as it is.
    assert_eq!(go_file.diff.distance, 0);
    assert_eq!(go_file.output(), input);
}
