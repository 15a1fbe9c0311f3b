use tackweld::text::{content_lines_of, is_whitespace_char, marker_of, split_lines_of};
use tackweld::{parse_template_source, ComponentDefinition, Components, ExtractError};

fn def(contents: &str, defined_in: &[&str]) -> ComponentDefinition {
    ComponentDefinition {
        contents: contents.to_string(),
        defined_in_templates: defined_in.iter().map(|p| p.to_string()).collect(),
    }
}

#[test]
fn it_works() {
    let mut components_expected = Components::new();

    let src1 = "::root\n<div>Items: {items}</div>\n::item\n<div>value: {val}</div>";
    // "root" is defined twice!
    let src2 = "::root\n<span>asdf</span>";

    parse_template_source("src/one.html", src1, &mut components_expected).unwrap();
    parse_template_source("src/two.html", src2, &mut components_expected).unwrap();

    let mut components_actual = Components::new();

    let root_def = ComponentDefinition {
        contents: "<span>asdf</span>".to_string(),
        defined_in_templates: vec!["src/one.html".to_string(), "src/two.html".to_string()],
    };
    components_actual.insert("root".to_string(), root_def);

    let item_def = ComponentDefinition {
        contents: "<div>value: {val}</div>".to_string(),
        defined_in_templates: vec!["src/one.html".to_string()],
    };
    components_actual.insert("item".to_string(), item_def);

    assert_eq!(components_expected, components_actual);
}

#[test]
fn single_source_yields_two_components() {
    let mut components = Components::new();
    let source = "::root\n<div>Items: {items}</div>\n::item\n<div>value: {val}</div>";
    assert_eq!(parse_template_source("src/home.html", source, &mut components), Ok(()));
    assert_eq!(components.len(), 2);
    assert_eq!(
        components.get("root"),
        Some(&def("<div>Items: {items}</div>", &["src/home.html"]))
    );
    assert_eq!(
        components.get("item"),
        Some(&def("<div>value: {val}</div>", &["src/home.html"]))
    );
    assert_eq!(components.get("other"), None);
}

#[test]
fn body_lines_are_joined_without_separator() {
    let mut components = Components::new();
    let source = "::card\n<div>\n  <p>{text}</p>\n</div>\n";
    parse_template_source("card.html", source, &mut components).unwrap();
    assert_eq!(
        components.get("card").unwrap().contents,
        "<div>  <p>{text}</p></div>"
    );
}

#[test]
fn blank_lines_inside_a_body_are_kept_as_they_are() {
    let mut components = Components::new();
    let source = "::a\nx\n\n  \ny";
    parse_template_source("a.html", source, &mut components).unwrap();
    assert_eq!(components.get("a").unwrap().contents, "x  y");
}

#[test]
fn leading_blank_lines_are_skipped() {
    let mut components = Components::new();
    let source = "\n  \n\t\n  ::root  \nbody";
    assert_eq!(parse_template_source("t.html", source, &mut components), Ok(()));
    assert_eq!(components.get("root"), Some(&def("body", &["t.html"])));
}

#[test]
fn empty_and_blank_sources_define_nothing() {
    let mut components = Components::new();
    assert_eq!(parse_template_source("empty.html", "", &mut components), Ok(()));
    assert_eq!(parse_template_source("blank.html", "\n \n\t\n", &mut components), Ok(()));
    assert_eq!(components, Components::new());
    assert_eq!(components.len(), 0);
}

#[test]
fn missing_start_def_names_the_source() {
    let mut components = Components::new();
    let result = parse_template_source("src/bad.html", "<div>oops</div>\n::root\nbody", &mut components);
    assert_eq!(
        result,
        Err(ExtractError::TemplateMissingStartDef("src/bad.html".to_string()))
    );
    assert_eq!(components, Components::new());
}

#[test]
fn missing_start_def_after_blank_lines() {
    let mut components = Components::new();
    parse_template_source("good.html", "::root\nbody", &mut components).unwrap();
    let result = parse_template_source("bad.html", "\n\n  text\n::late\n", &mut components);
    assert_eq!(
        result,
        Err(ExtractError::TemplateMissingStartDef("bad.html".to_string()))
    );
    assert_eq!(components.len(), 1);
    assert_eq!(components.get("root"), Some(&def("body", &["good.html"])));
}

#[test]
fn later_marker_resets_the_body() {
    let mut components = Components::new();
    parse_template_source("one.html", "::root\nfirst", &mut components).unwrap();
    parse_template_source("two.html", "::root\nsecond\nline", &mut components).unwrap();
    assert_eq!(
        components.get("root"),
        Some(&def("secondline", &["one.html", "two.html"]))
    );
}

#[test]
fn marker_repeated_in_one_source_is_recorded_each_time() {
    let mut components = Components::new();
    parse_template_source("one.html", "::a\nx\n::b\ny\n::a\nz", &mut components).unwrap();
    assert_eq!(components.get("a"), Some(&def("z", &["one.html", "one.html"])));
    assert_eq!(components.get("b"), Some(&def("y", &["one.html"])));
}

#[test]
fn marker_without_body_has_empty_contents() {
    let mut components = Components::new();
    parse_template_source("one.html", "::a\n::b\n", &mut components).unwrap();
    assert_eq!(components.get("a"), Some(&def("", &["one.html"])));
    assert_eq!(components.get("b"), Some(&def("", &["one.html"])));
}

#[test]
fn carriage_returns_of_line_ends_are_dropped() {
    let mut components = Components::new();
    parse_template_source("w.html", "::root\r\n<p>\r\n</p>\r\n", &mut components).unwrap();
    assert_eq!(components.get("root"), Some(&def("<p></p>", &["w.html"])));
}

#[test]
fn table_is_the_same_whatever_the_order_of_insertion() {
    let mut one = Components::new();
    one.insert("b".to_string(), def("2", &["x"]));
    one.insert("a".to_string(), def("1", &["x"]));
    one.insert("c".to_string(), def("3", &["x"]));
    let mut two = Components::new();
    two.insert("c".to_string(), def("3", &["x"]));
    two.insert("a".to_string(), def("0", &["y"]));
    two.insert("b".to_string(), def("2", &["x"]));
    two.insert("a".to_string(), def("1", &["x"]));
    assert_eq!(one, two);
    assert_eq!(one.len(), 3);
    assert_eq!(one.id_at(0), "a");
    assert_eq!(one.id_at(1), "b");
    assert_eq!(one.id_at(2), "c");
    assert_eq!(one.definition_at(1), &def("2", &["x"]));
}

#[test]
fn marker_lines_have_one_shape() {
    assert_eq!(marker_of("::root"), Some("root".to_string()));
    assert_eq!(marker_of("  ::root"), Some("root".to_string()));
    assert_eq!(marker_of("::root  "), Some("root".to_string()));
    assert_eq!(marker_of("\t::component_name1234 \t"), Some("component_name1234".to_string()));
    assert_eq!(marker_of("::_"), Some("_".to_string()));
    assert_eq!(marker_of("::A9"), Some("A9".to_string()));
}

#[test]
fn other_lines_are_no_marker_lines() {
    assert_eq!(marker_of(""), None);
    assert_eq!(marker_of("::"), None);
    assert_eq!(marker_of(":root"), None);
    assert_eq!(marker_of(":::root"), None);
    assert_eq!(marker_of(":: root"), None);
    assert_eq!(marker_of("::root x"), None);
    assert_eq!(marker_of("::root-name"), None);
    assert_eq!(marker_of("x ::root"), None);
    assert_eq!(marker_of("::root:"), None);
    assert_eq!(marker_of("::r\u{e9}sum\u{e9}"), None);
    assert_eq!(marker_of("<div>::root</div>"), None);
    assert_eq!(marker_of("   "), None);
}

#[test]
fn whitespace_is_what_the_standard_library_takes_for_it() {
    for code in 0..=0x10ffffu32 {
        if let Some(c) = char::from_u32(code) {
            assert_eq!(is_whitespace_char(c), c.is_whitespace());
        }
    }
}

#[test]
fn leading_whitespace_of_any_kind_is_passed_over() {
    let mut components = Components::new();
    assert_eq!(parse_template_source("cr.html", "\r", &mut components), Ok(()));
    assert_eq!(parse_template_source("ff.html", "\u{c}\n", &mut components), Ok(()));
    assert_eq!(parse_template_source("sp.html", "\u{b}\u{a0}\u{3000}\u{2028}", &mut components), Ok(()));
    assert_eq!(components, Components::new());

    assert_eq!(parse_template_source("a.html", "\r\r\n::a\nx", &mut components), Ok(()));
    assert_eq!(components.get("a"), Some(&def("x", &["a.html"])));

    assert_eq!(parse_template_source("b.html", "\u{c}\n \u{a0}\n::b\ny", &mut components), Ok(()));
    assert_eq!(components.get("b"), Some(&def("y", &["b.html"])));

    assert_eq!(parse_template_source("c.html", "\u{b}::c\nz", &mut components), Ok(()));
    assert_eq!(components.get("c"), Some(&def("z", &["c.html"])));
}

#[test]
fn body_line_behind_leading_whitespace_is_refused() {
    let mut components = Components::new();
    assert_eq!(
        parse_template_source("bad.html", "\r\n\u{c}\n text\n::a\n", &mut components),
        Err(ExtractError::TemplateMissingStartDef("bad.html".to_string()))
    );
    assert_eq!(
        parse_template_source("colon.html", "\u{a0}:: a\n", &mut components),
        Err(ExtractError::TemplateMissingStartDef("colon.html".to_string()))
    );
    assert_eq!(components, Components::new());
}

#[test]
fn horizontal_whitespace_of_any_kind_may_surround_a_marker() {
    let mut components = Components::new();
    assert_eq!(parse_template_source("r.html", "::root\u{a0}", &mut components), Ok(()));
    assert_eq!(components.get("root"), Some(&def("", &["r.html"])));
    parse_template_source("a.html", "::a\nx\n::c\u{a0}\ny\n\u{3000}::d\u{2003}\u{202f}\nz", &mut components)
        .unwrap();
    assert_eq!(components.get("a"), Some(&def("x", &["a.html"])));
    assert_eq!(components.get("c"), Some(&def("y", &["a.html"])));
    assert_eq!(components.get("d"), Some(&def("z", &["a.html"])));
    for blank in ['\t', ' ', '\u{a0}', '\u{1680}', '\u{2000}', '\u{2005}', '\u{200a}', '\u{202f}', '\u{205f}', '\u{3000}'] {
        assert_eq!(marker_of(&format!("{}::id{}", blank, blank)), Some("id".to_string()));
    }
}

#[test]
fn vertical_whitespace_does_not_make_a_marker_line_inside_a_source() {
    let mut components = Components::new();
    parse_template_source("a.html", "::a\n\u{b}::b\n::c\u{c}\n", &mut components).unwrap();
    assert_eq!(components.len(), 1);
    assert_eq!(components.get("a"), Some(&def("\u{b}::b::c\u{c}", &["a.html"])));
    assert_eq!(marker_of("\u{b}::root"), None);
    assert_eq!(marker_of("::root\r"), None);
    for other in ['\u{b}', '\u{c}', '\r', '\u{85}', '\u{2028}', '\u{2029}', '\u{200b}'] {
        assert_eq!(marker_of(&format!("{}::id", other)), None);
        assert_eq!(marker_of(&format!("::id{}", other)), None);
    }
}

fn std_content_lines(text: &str) -> Vec<String> {
    text.trim_start().lines().map(|line| line.to_string()).collect()
}

#[test]
fn content_lines_start_behind_the_leading_whitespace() {
    assert_eq!(content_lines_of(""), Vec::<String>::new());
    assert_eq!(content_lines_of(" \n\t\r\n"), Vec::<String>::new());
    assert_eq!(content_lines_of("\n\n  ::a  \nx\n"), vec!["::a  ", "x"]);
    assert_eq!(content_lines_of("a\n \nb"), vec!["a", " ", "b"]);
    let samples = [
        "",
        "\r",
        "\r\r\n::a\nx",
        "\u{c}\n::a",
        " \u{a0}\u{2003}text\r\nmore\n",
        "\n\n\n",
        "::root\n<div>Items: {items}</div>\n::item\n<div>value: {val}</div>",
        "\u{85}\u{1680}\u{205f}x\u{85}\n y",
    ];
    for sample in samples.iter() {
        assert_eq!(content_lines_of(sample), std_content_lines(sample));
    }
}

fn std_lines(text: &str) -> Vec<String> {
    text.lines().map(|line| line.to_string()).collect()
}

#[test]
fn lines_are_cut_at_line_feeds() {
    assert_eq!(split_lines_of("a\nb\nc"), vec!["a", "b", "c"]);
    assert_eq!(split_lines_of("a\nb\n"), vec!["a", "b"]);
    assert_eq!(split_lines_of("a\n\nb"), vec!["a", "", "b"]);
    assert_eq!(split_lines_of("\n"), vec![""]);
    assert_eq!(split_lines_of(""), Vec::<String>::new());
    assert_eq!(split_lines_of("a\r\nb\r\n"), vec!["a", "b"]);
    assert_eq!(split_lines_of("a\rb\n"), vec!["a\rb"]);
    assert_eq!(split_lines_of("\r\n"), vec![""]);
    assert_eq!(split_lines_of("h\u{e9}\n\u{4e16}\u{754c}"), vec!["h\u{e9}", "\u{4e16}\u{754c}"]);
}

#[test]
fn lines_agree_with_the_standard_library() {
    let samples = [
        "",
        "\n",
        "\n\n",
        "a",
        "a\n",
        "a\nb",
        "a\r\nb",
        "a\r\n\r\nb\r\n",
        "\r\n",
        "a\n\r\nb",
        "::root\n<div>Items: {items}</div>\n::item\n<div>value: {val}</div>",
        " \n\t\n::x\nbody\n\n",
    ];
    for sample in samples.iter() {
        assert_eq!(split_lines_of(sample), std_lines(sample));
    }
}

#[test]
fn markers_and_body_lines_by_hand() {
    let mut components = Components::new();
    let b = components.open("b".to_string(), "x.html");
    components.append(b, "one");
    let a = components.open("a".to_string(), "x.html");
    components.append(a, "two");
    components.append(a, "three");
    assert_eq!(a, 0);
    assert_eq!(components.get("a"), Some(&def("twothree", &["x.html"])));
    assert_eq!(components.get("b"), Some(&def("one", &["x.html"])));
    let again = components.open("b".to_string(), "y.html");
    assert_eq!(again, 1);
    assert_eq!(components.get("b"), Some(&def("", &["x.html", "y.html"])));
}
