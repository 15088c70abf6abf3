//! Modules: which items a file declares, and how names are rewritten.

use azula::modules::{
    collect_items, import_line, rewrite, try_collect_items, try_rewrite, Aliases, ModuleInfo,
    Names,
};

fn names(list: &[&str]) -> Names {
    let mut r = Names::new();
    for n in list {
        r.insert(n.to_string());
    }
    r
}

fn geo() -> ModuleInfo {
    ModuleInfo {
        prefix: "geo__".to_string(),
        items: names(&["Point", "area", "hidden"]),
        public: names(&["Point", "area"]),
        file: "geometry.azl".to_string(),
    }
}

fn aliases() -> Aliases {
    let mut r = Aliases::new();
    r.insert("geo".to_string(), geo());
    r
}

#[test]
fn items_are_declared_at_the_top_level() {
    let text = "pub func area(): int { const inner = 1; }\nstruct Point { x: int; }\n\
                // func commented\nenum Color { Red; }\nextern func puts(str): int;\n\
                pub extern varargs func printf(str): int;\ntype Id = int;\n";
    let (items, public) = collect_items(text);
    for n in ["area", "Point", "Color", "puts", "printf", "Id"] {
        assert!(items.contains(n), "{}", n);
    }
    assert_eq!(items.len(), 6);
    assert!(public.contains("area"));
    assert!(public.contains("printf"));
    assert_eq!(public.len(), 2);
}

#[test]
fn words_in_strings_declare_nothing() {
    let (items, public) = collect_items("const text = \"func fake ${ call(\"x\") } struct S\";");
    assert!(items.contains("text"));
    assert_eq!(items.len(), 1);
    assert_eq!(public.len(), 0);
}

#[test]
fn what_is_public_is_declared() {
    let (items, public) = collect_items("pub struct A {} pub const b = 1; func c {}");
    assert!(public.contains("A") && public.contains("b") && !public.contains("c"));
    assert!(items.contains("A") && items.contains("b") && items.contains("c"));
}

#[test]
fn a_name_without_a_declaration_is_no_item() {
    let (items, _) = collect_items("func 1; struct");
    assert_eq!(items.len(), 0);
    assert!(try_collect_items("pub func f {}").is_some());
}

#[test]
fn qualified_names_become_renamed_items() {
    let r = rewrite("var p = geo::Point { x: geo::area(1) };", None, &aliases());
    assert_eq!(r, Ok("var p = geo__Point { x: geo__area(1) };".to_string()));
}

#[test]
fn undeclared_and_private_items_are_refused() {
    let r = rewrite("geo::volume()", None, &aliases());
    assert_eq!(r, Err((5, "`volume` isn't declared in geometry.azl".to_string())));
    let r = rewrite("x + geo::hidden", None, &aliases());
    assert_eq!(
        r,
        Err((9, "`hidden` is private to geometry.azl (declare it `pub`)".to_string()))
    );
}

#[test]
fn other_names_stay() {
    let text = "other::Point(a.geo::x) // geo::Point\n";
    assert_eq!(rewrite(text, None, &aliases()), Ok(text.to_string()));
}

#[test]
fn own_items_get_the_prefix() {
    let own = geo();
    let r = rewrite(
        "func area(p: Point): int { return p.area + hidden; }",
        Some(&own),
        &Aliases::new(),
    );
    assert_eq!(
        r,
        Ok("func geo__area(p: geo__Point): int { return p.area + geo__hidden; }".to_string())
    );
}

#[test]
fn members_labels_and_variants_keep_their_names() {
    let own = geo();
    let r = rewrite(
        "struct Point { func area() {} } enum hidden { Point; area; } f(Point: 1)",
        Some(&own),
        &Aliases::new(),
    );
    assert_eq!(
        r,
        Ok("struct geo__Point { func area() {} } enum geo__hidden { Point; area; } f(Point: 1)"
            .to_string())
    );
}

#[test]
fn code_in_strings_is_rewritten() {
    let r = rewrite("print(\"geo::Point ${geo::area(2)} \\${no}\");", None, &aliases());
    assert_eq!(
        r,
        Ok("print(\"geo::Point ${geo__area(2)} \\${no}\");".to_string())
    );
    let r = rewrite("\"${ geo::nope }\"", None, &aliases());
    assert_eq!(r, Err((9, "`nope` isn't declared in geometry.azl".to_string())));
}

#[test]
fn text_without_modules_is_not_changed() {
    let text = "func main { printf(\"é ${x}\", 'a'); } // ü\n";
    assert_eq!(rewrite(text, None, &Aliases::new()), Ok(text.to_string()));
    assert_eq!(try_rewrite(text, None, &Aliases::new()), Some(Ok(text.to_string())));
}

#[test]
fn an_empty_prefix_leaves_the_text_as_it_is() {
    let own = ModuleInfo { prefix: String::new(), ..geo() };
    let text = "enum Point { area; } func area { hidden(\"${Point::area} é\"); }\n";
    assert_eq!(rewrite(text, Some(&own), &Aliases::new()), Ok(text.to_string()));
}

#[test]
fn text_that_cannot_be_cut_gives_nothing() {
    // An interpolation that is never closed, before a character of two bytes
    assert_eq!(try_rewrite("\"${é", None, &Aliases::new()), None);
}

#[test]
fn import_lines_give_paths_and_names() {
    let path = |p: &str| p.to_string();
    assert_eq!(import_line("import \"a.azl\""), Some((path("a.azl"), None)));
    assert_eq!(import_line("  import \"a.azl\" ;; "), Some((path("a.azl"), None)));
    assert_eq!(
        import_line("import \"geometry.azl\" as geo;"),
        Some((path("geometry.azl"), Some(path("geo"))))
    );
    assert_eq!(
        import_line("import \"x\" as\tg_2"),
        Some((path("x"), Some(path("g_2"))))
    );
}

#[test]
fn other_lines_are_no_imports() {
    assert_eq!(import_line("import a"), None);
    assert_eq!(import_line("import \"a"), None);
    assert_eq!(import_line("import \"a\" from b"), None);
    assert_eq!(import_line("import \"a\" as"), None);
    assert_eq!(import_line("import \"a.azl\" asgeo"), None);
    assert_eq!(import_line("import \"a\" as b-c"), None);
    assert_eq!(import_line("// import \"a\""), None);
}

#[test]
fn the_name_in_a_declaration_is_renamed_whatever_follows() {
    let own = ModuleInfo {
        prefix: "geo__".to_string(),
        items: names(&["LIMIT", "f"]),
        public: names(&[]),
        file: "limits.azl".to_string(),
    };
    let r = rewrite(
        "const LIMIT: int = 3; func f(): int { return LIMIT; }",
        Some(&own),
        &Aliases::new(),
    );
    assert_eq!(
        r,
        Ok("const geo__LIMIT: int = 3; func geo__f(): int { return geo__LIMIT; }".to_string())
    );
    assert_eq!(
        rewrite("g(LIMIT: 1)", Some(&own), &Aliases::new()),
        Ok("g(LIMIT: 1)".to_string())
    );
}

#[test]
fn an_item_has_one_name_inside_and_outside_its_module() {
    let own = geo();
    let inside = rewrite("Point", Some(&own), &Aliases::new());
    let outside = rewrite("geo::Point", None, &aliases());
    assert_eq!(inside, Ok("geo__Point".to_string()));
    assert_eq!(outside, inside);
}

#[test]
fn strings_are_rewritten_piece_by_piece() {
    let r = rewrite("\"a ${geo::area} \\${b} ${\"${geo::Point}\"} c\"", None, &aliases());
    assert_eq!(r, Ok("\"a ${geo__area} \\${b} ${\"${geo__Point}\"} c\"".to_string()));
    // The first error counts, at its place in the whole text
    let r = rewrite("x \"${geo::area} ${geo::one} ${geo::two}\"", None, &aliases());
    assert_eq!(r, Err((23, "`one` isn't declared in geometry.azl".to_string())));
}

#[test]
fn two_texts_in_a_row_declare_what_both_declare() {
    let first = "pub func a() { const x = 1; }\n";
    let second = "struct b {}\npub const c = 2;\n";
    let text = format!("{}{}", first, second);
    let (items, public) = collect_items(&text);
    for part in [first, second] {
        let (some, shown) = collect_items(part);
        for n in ["a", "b", "c", "x"] {
            assert!(!some.contains(n) || items.contains(n), "{}", n);
            assert!(!shown.contains(n) || public.contains(n), "{}", n);
        }
    }
    assert_eq!(items.len(), 3);
    assert_eq!(public.len(), 2);
}

#[test]
fn text_with_closed_interpolations_has_a_result() {
    for text in ["", "\"", "'", "\"${}\"", "\"${ \"${ x }\" }\"", "} // \"${", "\"\\"] {
        assert!(try_collect_items(text).is_some(), "{}", text);
        assert!(try_rewrite(text, Some(&geo()), &aliases()).is_some(), "{}", text);
    }
}

#[test]
fn a_rewritten_module_stays_as_it_is() {
    let own = geo();
    let text = "pub struct Point { x: int; func area() {} }\n\
                func area(p: Point): int { print(\"${hidden(\"${Point}\")}\"); return p.area; }\n\
                enum hidden { Point; area; } // Point\n";
    let once = rewrite(text, Some(&own), &Aliases::new()).unwrap();
    assert_ne!(once, text);
    assert_eq!(rewrite(&once, Some(&own), &Aliases::new()), Ok(once.clone()));
}
