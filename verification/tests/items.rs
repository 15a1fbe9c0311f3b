use tackweld::{att, val, TemplateItem};

#[test]
fn lib_it_works() {
    // assert_eq!
    assert_eq!(2 + 2, 4);
}

#[test]
fn value_renders_as_its_text() {
    assert_eq!(TemplateItem::Val("5".to_string()).to_string(), "5");
    assert_eq!(val("5").to_string(), "5");
}

#[test]
fn event_renders_as_nothing() {
    assert_eq!(TemplateItem::Ev().to_string(), "");
}

#[test]
fn attribute_and_raw_render_as_their_text() {
    assert_eq!(TemplateItem::Attr("href".to_string()).to_string(), "href");
    assert_eq!(TemplateItem::Raw("<b>x</b>".to_string()).to_string(), "<b>x</b>");
}

#[test]
fn rendering_does_not_escape() {
    assert_eq!(val("<a href=\"x\">&</a>").to_string(), "<a href=\"x\">&</a>");
    assert_eq!(att("\"quoted\"").to_string(), "\"quoted\"");
}

#[test]
fn val_keeps_the_display_form() {
    assert!(matches!(val(5), TemplateItem::Val(ref s) if s == "5"));
    assert!(matches!(val(String::from("moved")), TemplateItem::Val(ref s) if s == "moved"));
    assert!(matches!(val(&42), TemplateItem::Val(ref s) if s == "42"));
    assert!(matches!(val(&-7i64), TemplateItem::Val(ref s) if s == "-7"));
    assert!(matches!(val(&true), TemplateItem::Val(ref s) if s == "true"));
    assert!(matches!(val("text"), TemplateItem::Val(ref s) if s == "text"));
    assert!(matches!(val(&String::from("owned")), TemplateItem::Val(ref s) if s == "owned"));
}

#[test]
fn att_keeps_the_display_form() {
    assert!(matches!(att(7u8), TemplateItem::Attr(ref s) if s == "7"));
    assert!(matches!(att(&42), TemplateItem::Attr(ref s) if s == "42"));
    assert!(matches!(att("class-name"), TemplateItem::Attr(ref s) if s == "class-name"));
    assert!(matches!(att(&'c'), TemplateItem::Attr(ref s) if s == "c"));
}

#[test]
fn list_collapses_by_concatenation() {
    let collapsed = TemplateItem::from(vec![val("1"), val("2")]);
    assert!(matches!(collapsed, TemplateItem::Val(ref s) if s == "12"));
}

#[test]
fn list_collapses_every_variant() {
    let items = vec![
        TemplateItem::Raw("<li>".to_string()),
        val(&1),
        TemplateItem::Ev(),
        att("x"),
        TemplateItem::Raw("</li>".to_string()),
    ];
    let collapsed = TemplateItem::from(items);
    assert!(matches!(collapsed, TemplateItem::Val(ref s) if s == "<li>1x</li>"));
}

#[test]
fn empty_list_collapses_to_empty_value() {
    let collapsed = TemplateItem::from(Vec::new());
    assert!(matches!(collapsed, TemplateItem::Val(ref s) if s.is_empty()));
}

#[test]
fn collapsed_list_renders_children_in_order() {
    let vals = [1, 2, 3, 3, 4];
    let mut items = Vec::new();
    for v in vals.iter() {
        items.push(TemplateItem::Raw(format!("<div>value: {}</div>", val(v).to_string())));
    }
    let root = format!("<div>Items: {}</div>", TemplateItem::from(items).to_string());
    assert_eq!(
        root,
        "<div>Items: <div>value: 1</div><div>value: 2</div><div>value: 3</div><div>value: 3</div><div>value: 4</div></div>"
    );
}
