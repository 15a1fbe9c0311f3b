use tackweld::order::text_before;
use tackweld::{
    build_globset, parse_templates, select_sources, Artifact, ExtractError, TemplateSource,
};

fn strings(items: &[&str]) -> Vec<String> {
    items.iter().map(|s| s.to_string()).collect()
}

#[test]
fn recursive_pattern_selects_html_below_src() {
    let globs = build_globset(strings(&["src/**/*.html"])).unwrap();
    assert!(globs.is_match("src/home.html"));
    assert!(globs.is_match("src/pages/about.html"));
    assert!(!globs.is_match("src/home.txt"));
    assert!(!globs.is_match("docs/home.html"));
}

#[test]
fn any_pattern_of_the_set_selects() {
    let globs = build_globset(strings(&["*.tpl", "views/*.html"])).unwrap();
    assert!(globs.is_match("a.tpl"));
    assert!(globs.is_match("views/a.html"));
    assert!(!globs.is_match("a.css"));
    assert_eq!(globs.patterns(), &strings(&["*.tpl", "views/*.html"]));
}

#[test]
fn empty_set_selects_nothing() {
    assert!(build_globset(Vec::new()).is_ok());
    let globs = build_globset(Vec::new()).unwrap();
    assert!(!globs.is_match("src/home.html"));
    assert_eq!(select_sources(&globs, &strings(&["a", "b"])), Vec::<String>::new());
}

#[test]
fn malformed_pattern_is_refused() {
    let result = build_globset(strings(&["src/*.html", "src/[a-.html"]));
    assert!(matches!(result, Err(ExtractError::Globset(_))));
    let result = build_globset(strings(&["{a,b"]));
    assert!(matches!(result, Err(ExtractError::Globset(_))));
}

#[test]
fn selected_sources_come_in_ascending_order() {
    let globs = build_globset(strings(&["src/**/*.html"])).unwrap();
    let paths = strings(&[
        "src/pages/about.html",
        "Cargo.toml",
        "src/home.txt",
        "src/home.html",
        "src",
        "src/a/b.html",
        "src/Z.html",
    ]);
    assert_eq!(
        select_sources(&globs, &paths),
        strings(&["src/Z.html", "src/a/b.html", "src/home.html", "src/pages/about.html"])
    );
}

#[test]
fn selection_keeps_repeated_paths() {
    let globs = build_globset(strings(&["*.html"])).unwrap();
    let paths = strings(&["b.html", "a.html", "b.html"]);
    assert_eq!(select_sources(&globs, &paths), strings(&["a.html", "b.html", "b.html"]));
}

#[test]
fn selection_does_not_depend_on_the_order_of_the_walk() {
    let globs = build_globset(strings(&["**/*.html"])).unwrap();
    let walk = strings(&["b/x.html", "a/y.html", "c.html", "a/x.html"]);
    let mut other = walk.clone();
    other.reverse();
    assert_eq!(select_sources(&globs, &walk), select_sources(&globs, &other));
    let mut sorted = walk.clone();
    sorted.sort();
    assert_eq!(select_sources(&globs, &walk), sorted);
}

#[test]
fn texts_are_ordered_by_their_bytes() {
    let samples = ["", "a", "b", "ab", "a/b", "a.b", "A", "\u{e9}", "z", "zz", "\u{4e16}", "a\u{e9}"];
    for x in samples.iter() {
        for y in samples.iter() {
            assert_eq!(text_before(x, y), x < y);
        }
    }
}

#[test]
fn unselected_path_is_never_parsed() {
    let globs = build_globset(strings(&["src/**/*.html"])).unwrap();
    let files = [
        ("src/pages/about.html", "::about\n<p>about</p>"),
        ("src/home.txt", "no marker line here"),
        ("src/home.html", "::home\n<p>home</p>"),
    ];
    let paths: Vec<String> = files.iter().map(|(path, _)| path.to_string()).collect();
    let selected = select_sources(&globs, &paths);
    assert_eq!(selected, strings(&["src/home.html", "src/pages/about.html"]));

    let mut sources = Vec::new();
    for path in selected {
        let text = files.iter().find(|(p, _)| *p == path).unwrap().1.to_string();
        sources.push(TemplateSource { path, text });
    }
    assert_eq!(
        parse_templates(&sources, false),
        Ok(vec![
            Artifact { file_name: "tw_tpl_about".to_string(), contents: "<p>about</p>".to_string() },
            Artifact { file_name: "tw_tpl_home".to_string(), contents: "<p>home</p>".to_string() },
        ])
    );
}
