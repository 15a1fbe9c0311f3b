use tackweld::{
    artifacts, conflict_report, parse_template_source, parse_templates, Artifact, Components,
    ExtractError, TemplateSource, TEMPLATE_PREFIX,
};

fn source(path: &str, text: &str) -> TemplateSource {
    TemplateSource { path: path.to_string(), text: text.to_string() }
}

fn artifact(file_name: &str, contents: &str) -> Artifact {
    Artifact { file_name: file_name.to_string(), contents: contents.to_string() }
}

fn two_roots() -> Vec<TemplateSource> {
    vec![
        source("src/one.html", "::root\n<div>one</div>"),
        source("src/two.html", "::root\n<span>two</span>"),
    ]
}

#[test]
fn prefix_of_artifact_names() {
    assert_eq!(TEMPLATE_PREFIX, "tw_tpl_");
}

#[test]
fn one_artifact_for_each_component() {
    let sources = vec![
        source("src/home.html", "::root\n<div>Items: {items}</div>\n\n::item\n<div>value: {val}</div>\n"),
        source("src/nav.html", "::nav\n<nav>\n{links}\n</nav>\n"),
    ];
    let expected = vec![
        artifact("tw_tpl_item", "<div>value: {val}</div>"),
        artifact("tw_tpl_nav", "<nav>{links}</nav>"),
        artifact("tw_tpl_root", "<div>Items: {items}</div>"),
    ];
    assert_eq!(parse_templates(&sources, false), Ok(expected));
}

#[test]
fn policy_does_not_matter_without_conflicts() {
    let sources = vec![source("a.html", "::a\n1"), source("b.html", "::b\n2")];
    assert_eq!(parse_templates(&sources, true), parse_templates(&sources, false));
    assert_eq!(
        parse_templates(&sources, true),
        Ok(vec![artifact("tw_tpl_a", "1"), artifact("tw_tpl_b", "2")])
    );
}

#[test]
fn extraction_is_repeatable() {
    let sources = vec![
        source("b.html", "::zeta\nz\n::alpha\na"),
        source("a.html", "::mid\nm\n::alpha\nsecond"),
    ];
    let first = parse_templates(&sources, true);
    let second = parse_templates(&sources, true);
    assert_eq!(first, second);
    assert_eq!(
        first,
        Ok(vec![
            artifact("tw_tpl_alpha", "second"),
            artifact("tw_tpl_mid", "m"),
            artifact("tw_tpl_zeta", "z"),
        ])
    );
}

#[test]
fn no_sources_no_artifacts() {
    assert_eq!(parse_templates(&Vec::new(), false), Ok(Vec::new()));
    assert_eq!(parse_templates(&vec![source("e.html", "")], false), Ok(Vec::new()));
}

#[test]
fn redefinition_disallowed_reports_both_sources() {
    assert_eq!(
        parse_templates(&two_roots(), false),
        Err(ExtractError::ComponentRedefinition(
            "\nroot:\nsrc/one.html\nsrc/two.html".to_string()
        ))
    );
}

#[test]
fn redefinition_allowed_keeps_the_last_body() {
    assert_eq!(
        parse_templates(&two_roots(), true),
        Ok(vec![artifact("tw_tpl_root", "<span>two</span>")])
    );
    let mut reversed = two_roots();
    reversed.reverse();
    assert_eq!(
        parse_templates(&reversed, true),
        Ok(vec![artifact("tw_tpl_root", "<div>one</div>")])
    );
}

#[test]
fn report_lists_every_conflict() {
    let sources = vec![
        source("one.html", "::root\n1\n::item\n2\n::solo\n3"),
        source("two.html", "::root\n4"),
        source("three.html", "::item\n5\n::root\n6"),
    ];
    assert_eq!(
        parse_templates(&sources, false),
        Err(ExtractError::ComponentRedefinition(
            "\nitem:\none.html\nthree.html\nroot:\none.html\ntwo.html\nthree.html".to_string()
        ))
    );
}

#[test]
fn repeat_within_one_source_counts_as_redefinition() {
    let sources = vec![source("one.html", "::a\nx\n::a\ny")];
    assert_eq!(
        parse_templates(&sources, false),
        Err(ExtractError::ComponentRedefinition("\na:\none.html\none.html".to_string()))
    );
    assert_eq!(parse_templates(&sources, true), Ok(vec![artifact("tw_tpl_a", "y")]));
}

#[test]
fn missing_start_def_ends_the_extraction() {
    let sources = vec![
        source("good.html", "::root\nbody"),
        source("bad.html", "no marker here\n::late\n"),
        source("worse.html", "neither here"),
    ];
    let expected = Err(ExtractError::TemplateMissingStartDef("bad.html".to_string()));
    assert_eq!(parse_templates(&sources, false), expected);
    assert_eq!(parse_templates(&sources, true), expected);
}

#[test]
fn missing_start_def_comes_before_redefinition() {
    let mut sources = two_roots();
    sources.push(source("bad.html", "text"));
    assert_eq!(
        parse_templates(&sources, false),
        Err(ExtractError::TemplateMissingStartDef("bad.html".to_string()))
    );
}

#[test]
fn report_and_artifacts_of_a_table() {
    let mut components = Components::new();
    parse_template_source("x.html", "::b\n1\n::a\n2", &mut components).unwrap();
    assert_eq!(conflict_report(&components), (false, String::new()));
    parse_template_source("y.html", "::b\n3", &mut components).unwrap();
    assert_eq!(conflict_report(&components), (true, "\nb:\nx.html\ny.html".to_string()));
    assert_eq!(
        artifacts(&components),
        vec![artifact("tw_tpl_a", "2"), artifact("tw_tpl_b", "3")]
    );
}
