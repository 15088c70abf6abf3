//! The combined source, and reading the files that it is made of.

use std::collections::HashMap;

use azula::resolve::{Action, Resolver};
use azula::source::{lines, Source};

#[test]
fn lines_end_at_line_feeds() {
    assert_eq!(lines(""), Vec::<&str>::new());
    assert_eq!(lines("a"), vec!["a"]);
    assert_eq!(lines("a\n"), vec!["a"]);
    assert_eq!(lines("\n"), vec![""]);
    assert_eq!(lines("a\n\nb"), vec!["a", "", "b"]);
    assert_eq!(lines("a\r\nb\r"), vec!["a", "b\r"]);
    assert_eq!(lines("é\nü x\n"), vec!["é", "ü x"]);
}

#[test]
fn lines_are_those_of_the_standard_library() {
    for text in ["", "\n\n", "a\r\n\r\nb", "x\r\r\ny", "🦀\n\r", "last\n\n"] {
        let expected: Vec<&str> = text.lines().collect();
        assert_eq!(lines(text), expected);
    }
}

#[test]
fn lines_are_located_where_they_came_from() {
    let mut source = Source::new();
    source.push_file("one.azl", "first\nsecond\n");
    source.push_line("third", "two.azl", 7);
    assert_eq!(source.text, "first\nsecond\nthird\n");
    assert_eq!(source.locate(1), ("one.azl".to_string(), 1));
    assert_eq!(source.locate(2), ("one.azl".to_string(), 2));
    assert_eq!(source.locate(3), ("two.azl".to_string(), 7));
}

#[test]
fn lines_outside_the_source_are_unknown() {
    let mut source = Source::new();
    assert_eq!(source.locate(0), ("<unknown>".to_string(), 0));
    source.push_line("x", "a.azl", 1);
    // Line zero counts as the first
    assert_eq!(source.locate(0), ("a.azl".to_string(), 1));
    assert_eq!(source.locate(2), ("<unknown>".to_string(), 2));
}

fn read(files: &[(&str, &str)], roots: &[&str]) -> (Source, Vec<String>) {
    match resolve(files, roots) {
        Ok(r) => r,
        Err(e) => panic!("{:?}", e),
    }
}

/// The source and the files in the order in which they were opened, or the file, the
/// offset and the message of the first error.
fn resolve(
    files: &[(&str, &str)],
    roots: &[&str],
) -> Result<(Source, Vec<String>), (String, Option<usize>, String)> {
    let table: HashMap<&str, &str> = files.iter().cloned().collect();
    let mut resolver =
        Resolver::new(Source::new(), roots.iter().map(|r| r.to_string()).collect());
    let mut opened = vec![];
    loop {
        match resolver.advance() {
            Action::Done => break,
            Action::Fail(file, at, message) => return Err((file, Some(at), message)),
            Action::Uncut(file) => return Err((file, None, String::new())),
            Action::Find(from, path) => {
                let full = match from {
                    Some(f) => match f.rfind('/') {
                        Some(at) => format!("{}/{}", &f[..at], path),
                        None => path,
                    },
                    None => path,
                };
                if resolver.found(full.clone()) {
                    opened.push(full.clone());
                    let contents = table[full.as_str()];
                    resolver.enter(full, contents);
                }
            }
        }
    }
    Ok((resolver.finish(), opened))
}

#[test]
fn imports_come_before_the_line_that_names_them() {
    let files = [
        ("main.azl", "import \"lib.azl\"\nfunc main {}\n"),
        ("lib.azl", "func help {}\n"),
    ];
    let (source, opened) = read(&files, &["main.azl"]);
    assert_eq!(source.text, "func help {}\n\nfunc main {}\n");
    assert_eq!(opened, vec!["main.azl", "lib.azl"]);
    assert_eq!(source.locate(1), ("lib.azl".to_string(), 1));
    assert_eq!(source.locate(2), ("main.azl".to_string(), 1));
    assert_eq!(source.locate(3), ("main.azl".to_string(), 2));
}

#[test]
fn no_file_is_read_twice() {
    let files = [
        ("a.azl", "import \"b.azl\"\nimport \"c.azl\"\na\n"),
        ("b.azl", "import \"c.azl\"\nb\n"),
        ("c.azl", "import \"a.azl\"\nc\n"),
    ];
    let (source, opened) = read(&files, &["a.azl", "b.azl"]);
    assert_eq!(opened, vec!["a.azl", "b.azl", "c.azl"]);
    assert_eq!(source.text, "\nc\n\nb\n\n\na\n");
    assert_eq!(source.lines.len(), 7);
}

#[test]
fn only_whole_lines_import() {
    let files = [
        (
            "m.azl",
            "  import \"dir/x.azl\"  \nimport \"x.azl\" asx\nimport \"x.azl\n",
        ),
        ("dir/x.azl", "import \"y.azl\"\n"),
        ("dir/y.azl", "y"),
    ];
    let (source, opened) = read(&files, &["m.azl"]);
    assert_eq!(opened, vec!["m.azl", "dir/x.azl", "dir/y.azl"]);
    assert_eq!(source.text, "y\n\n\nimport \"x.azl\" asx\nimport \"x.azl\n");
}

#[test]
fn a_file_imported_with_a_name_is_a_module() {
    let files = [
        (
            "main.azl",
            "import \"geometry.azl\" as geo\nvar p = geo::Point { x: 1 };",
        ),
        ("geometry.azl", "pub struct Point { x: int; }"),
    ];
    let (source, opened) = read(&files, &["main.azl"]);
    assert_eq!(opened, vec!["main.azl", "geometry.azl"]);
    assert_eq!(
        source.text,
        "pub struct geo__Point { x: int; }\n\nvar p = geo__Point { x: 1 };\n"
    );
    assert_eq!(source.locate(1), ("geometry.azl".to_string(), 1));
    assert_eq!(source.locate(2), ("main.azl".to_string(), 1));
    assert_eq!(source.locate(3), ("main.azl".to_string(), 2));
}

#[test]
fn a_module_keeps_the_name_of_its_first_import() {
    let files = [
        (
            "main.azl",
            "import \"a.azl\" as one\nimport \"b.azl\" as two\ntwo::g(one::F);",
        ),
        ("a.azl", "pub const F: int = 1;"),
        ("b.azl", "import \"a.azl\" as other\npub func g(): int { return other::F; }"),
    ];
    let (source, opened) = read(&files, &["main.azl"]);
    assert_eq!(opened, vec!["main.azl", "a.azl", "b.azl"]);
    assert_eq!(
        source.text,
        "pub const one__F: int = 1;\n\npub func two__g(): int { return one__F; }\n\n\ntwo__g(one__F);\n"
    );
}

#[test]
fn modules_can_import_each_other_and_plain_files() {
    let files = [
        ("a.azl", "import \"p.azl\"\nimport \"b.azl\" as b\npub func f() { b::g(); h(); }"),
        ("b.azl", "import \"a.azl\" as a\npub func g() { a::f(); }"),
        ("p.azl", "func h() {}"),
    ];
    let (source, _) = read(&files, &["a.azl"]);
    // The first file was not imported with a name, so its items keep theirs
    assert_eq!(
        source.text,
        "func h() {}\n\npub func b__g() { f(); }\n\n\npub func f() { b__g(); h(); }\n"
    );
}

#[test]
fn references_to_what_is_private_fail_where_they_stand() {
    let files = [
        ("main.azl", "import \"m.azl\" as m\nm::secret();"),
        ("m.azl", "func secret() {}"),
    ];
    let (file, at, message) = match resolve(&files, &["main.azl"]) {
        Ok(_) => panic!("no error"),
        Err(e) => e,
    };
    assert_eq!(file, "main.azl");
    assert_eq!(at, Some("import \"m.azl\" as m\nm::".len()));
    assert!(message.contains("secret"), "{}", message);
}

#[test]
fn modules_that_cannot_be_cut_are_reported() {
    let files = [
        ("main.azl", "import \"m.azl\" as m\nm::f();"),
        ("m.azl", "pub func f() { print(\"${"),
    ];
    assert_eq!(
        resolve(&files, &["main.azl"]).err(),
        Some(("m.azl".to_string(), None, String::new()))
    );
}
