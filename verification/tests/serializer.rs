use the_wash::html::{parse_html, Attribute, HtmlDoc, HtmlTree};

fn element<'a>(name: &'a str, children: Vec<HtmlTree<'a>>) -> HtmlTree<'a> {
    HtmlTree::Tag { name, attrs: Vec::new(), children }
}

#[test]
fn empty_element() {
    let doc = HtmlDoc { doc_type: None, root: element("p", Vec::new()) };
    assert_eq!(doc.fixed_format(), "<p></p>");
}

#[test]
fn text_is_rendered_verbatim() {
    let doc = HtmlDoc { doc_type: None, root: HtmlTree::Text("a < b & c > d") };
    assert_eq!(doc.fixed_format(), "a < b & c > d");
}

#[test]
fn doctype_comes_first() {
    let doc = HtmlDoc { doc_type: Some("html"), root: element("html", Vec::new()) };
    assert_eq!(doc.fixed_format(), "<!DOCTYPE html><html></html>");
}

#[test]
fn attributes_with_and_without_value() {
    let doc = HtmlDoc {
        doc_type: None,
        root: HtmlTree::Tag {
            name: "input",
            attrs: vec![
                Attribute { name: "type", value: Some("text") },
                Attribute { name: "disabled", value: None },
                Attribute { name: "size", value: Some("4") },
            ],
            children: Vec::new(),
        },
    };
    assert_eq!(doc.fixed_format(), "<input type=text disabled size=4></input>");
}

#[test]
fn children_are_rendered_in_order_and_nested() {
    let doc = HtmlDoc {
        doc_type: None,
        root: element(
            "ul",
            vec![
                element("li", vec![HtmlTree::Text("one")]),
                HtmlTree::Text(" and "),
                element("li", vec![element("b", vec![HtmlTree::Text("two")])]),
            ],
        ),
    };
    assert_eq!(doc.fixed_format(), "<ul><li>one</li> and <li><b>two</b></li></ul>");
}

#[test]
fn script_and_style_render_nothing() {
    let doc = HtmlDoc {
        doc_type: None,
        root: element(
            "head",
            vec![HtmlTree::Script("let x = 1;"), HtmlTree::Style("p { color: red }")],
        ),
    };
    assert_eq!(doc.fixed_format(), "<head></head>");
    let alone = HtmlDoc { doc_type: Some("x"), root: HtmlTree::Script("1") };
    assert_eq!(alone.fixed_format(), "<!DOCTYPE x>");
}

#[test]
fn scanned_empty_input_renders_the_shell() {
    assert_eq!(parse_html("").fixed_format(), "<html><head></head><body></body></html>");
}

#[test]
fn scanned_input_renders_its_names_and_text_runs() {
    assert_eq!(
        parse_html("a<b>c<d>").fixed_format(),
        "<html><head></head><body>a<b></b>>c<d></d></body></html>"
    );
    assert_eq!(
        parse_html("one<two three>four<").fixed_format(),
        "<html><head></head><body>one<two></two>>four</body></html>"
    );
}

#[test]
fn scanned_multi_byte_input_renders_its_names_and_text_runs() {
    assert_eq!(
        parse_html("é<ü>ö<").fixed_format(),
        "<html><head></head><body>é<ü></ü>>ö</body></html>"
    );
}

#[test]
fn rendering_does_not_change_the_document() {
    let doc = parse_html("a<b>c<");
    let first = doc.fixed_format();
    let second = doc.fixed_format();
    assert_eq!(first, second);
}

#[test]
fn clone_of_a_document_renders_the_same() {
    let doc = HtmlDoc {
        doc_type: Some("html"),
        root: HtmlTree::Tag {
            name: "a",
            attrs: vec![Attribute { name: "href", value: Some("x") }, Attribute { name: "b", value: None }],
            children: vec![
                HtmlTree::Text("t"),
                element("i", vec![HtmlTree::Text("u"), HtmlTree::Script("s"), HtmlTree::Style("c")]),
            ],
        },
    };
    let copy = doc.clone();
    assert_eq!(copy.fixed_format(), "<!DOCTYPE html><a href=x b>t<i>u</i></a>");
    assert_eq!(copy.fixed_format(), doc.fixed_format());
    assert_eq!(format!("{:?}", copy), format!("{:?}", doc));

    let scanned = parse_html("a<b>c<");
    assert_eq!(scanned.clone().fixed_format(), scanned.fixed_format());
}

#[test]
fn clone_of_an_attribute_keeps_name_and_value() {
    let attr = Attribute { name: "k", value: Some("v") };
    let copy = attr.clone();
    assert_eq!(copy.name, "k");
    assert_eq!(copy.value, Some("v"));
}
