use the_wash::html::{parse_html, HtmlDoc, HtmlTree};

/// The children of `body`, after checking the fixed shell around them.
fn body<'a, 'b>(doc: &'b HtmlDoc<'a>) -> &'b Vec<HtmlTree<'a>> {
    assert!(doc.doc_type.is_none());
    let top = match &doc.root {
        HtmlTree::Tag { name, attrs, children } => {
            assert_eq!(*name, "html");
            assert!(attrs.is_empty());
            children
        }
        _ => panic!("the root is not an element"),
    };
    assert_eq!(top.len(), 2);
    match &top[0] {
        HtmlTree::Tag { name, attrs, children } => {
            assert_eq!(*name, "head");
            assert!(attrs.is_empty());
            assert!(children.is_empty());
        }
        _ => panic!("head is not an element"),
    }
    match &top[1] {
        HtmlTree::Tag { name, attrs, children } => {
            assert_eq!(*name, "body");
            assert!(attrs.is_empty());
            children
        }
        _ => panic!("body is not an element"),
    }
}

/// The elements among `nodes`, in order.
fn elements<'a, 'b>(nodes: &'b [HtmlTree<'a>]) -> Vec<&'b HtmlTree<'a>> {
    let mut found = Vec::new();
    for node in nodes {
        if matches!(node, HtmlTree::Tag { .. }) {
            found.push(node);
        }
    }
    found
}

/// Each node as a short string: `T:` and the text, or `E:` and the name.
fn outline(nodes: &[HtmlTree<'_>]) -> Vec<String> {
    let mut lines = Vec::new();
    for node in nodes {
        match node {
            HtmlTree::Text(text) => lines.push(format!("T:{}", text)),
            HtmlTree::Tag { name, attrs, children } => {
                assert!(attrs.is_empty());
                assert!(children.is_empty());
                lines.push(format!("E:{}", name));
            }
            HtmlTree::Script(_) => panic!("the scanner never makes a script node"),
            HtmlTree::Style(_) => panic!("the scanner never makes a style node"),
        }
    }
    lines
}

fn scan(input: &str) -> Vec<String> {
    outline(body(&parse_html(input)))
}

#[test]
fn test0() {
    // White space right after `<` abandons that tag: it yields no element
    // and its bytes stay in the text run.  The only element is the one
    // that the later `</os>` gives.
    let h = parse_html("< os></os>");
    let nodes = body(&h);
    assert!(matches!(nodes[0], HtmlTree::Text("< os>")));
    assert!(elements(&nodes[..1]).is_empty());
    assert_eq!(outline(nodes), vec!["T:< os>", "E:os"]);
}

#[test]
fn test1() {
    let h = parse_html("<os></os>");
    let roots = elements(body(&h));
    assert!(roots.len() == 1);
    match roots[0] {
        HtmlTree::Tag { name, attrs, children } => {
            assert!(*name == "os");
            assert!(attrs.is_empty());
            assert!(children.is_empty());
        }
        _ => panic!(),
    }
}

#[test]
fn test2() {
    let h = parse_html("<os ></os>");
    let roots = elements(body(&h));
    assert!(roots.len() == 1);
    match roots[0] {
        HtmlTree::Tag { name, attrs, children } => {
            assert!(*name == "os");
            assert!(attrs.is_empty());
            assert!(children.is_empty());
        }
        _ => panic!(),
    }
}

#[test]
fn trailing_space_in_tag_changes_nothing() {
    assert_eq!(scan("<os></os>"), vec!["T:>", "E:os"]);
    assert_eq!(scan("<os ></os>"), scan("<os></os>"));
    assert_eq!(scan("a<os >b<"), scan("a<os>b<"));
}

#[test]
fn empty_input_gives_the_bare_shell() {
    assert!(scan("").is_empty());
}

#[test]
fn text_without_any_tag_is_not_captured() {
    assert!(scan("hello").is_empty());
    assert!(scan("hello world\n").is_empty());
}

#[test]
fn pending_text_is_flushed_at_end_of_input() {
    assert_eq!(scan("hello<"), vec!["T:hello"]);
    assert_eq!(scan("a<b>c<"), vec!["T:a", "E:b", "T:>c"]);
}

#[test]
fn text_after_the_last_tag_needs_a_later_less_than() {
    assert_eq!(scan("a<b>c"), vec!["T:a", "E:b"]);
    assert_eq!(scan("a<b>c<"), vec!["T:a", "E:b", "T:>c"]);
}

#[test]
fn unfinished_tag_gives_no_element() {
    assert_eq!(scan("a<b"), vec!["T:a"]);
    assert_eq!(scan("a<b c"), vec!["T:a"]);
    assert_eq!(scan("a<b>c<d"), vec!["T:a", "E:b", "T:>c"]);
}

#[test]
fn tag_without_text_before_it_gives_no_element() {
    assert!(scan("<a>").is_empty());
    assert_eq!(scan("<a>x<b>"), vec!["T:>x", "E:b"]);
}

#[test]
fn each_tag_has_its_own_name() {
    assert_eq!(scan("a<b>c<d>e<f>"), vec!["T:a", "E:b", "T:>c", "E:d", "T:>e", "E:f"]);
    assert_eq!(scan("a<b x>c<d>"), vec!["T:a", "E:b", "T:>c", "E:d"]);
}

#[test]
fn text_run_starts_at_the_closing_bracket() {
    assert_eq!(scan("a<b><c>"), vec!["T:a", "E:b", "T:>", "E:c"]);
}

#[test]
fn white_space_closes_the_name() {
    assert_eq!(scan("x<a href=1>"), vec!["T:x", "E:a"]);
    assert_eq!(scan("x<a\thref=1>"), vec!["T:x", "E:a"]);
    assert_eq!(scan("x<a\nhref=1>"), vec!["T:x", "E:a"]);
}

#[test]
fn later_white_space_widens_the_name() {
    assert_eq!(scan("x<a b c>"), vec!["T:x", "E:a b"]);
    assert_eq!(scan("x<a  >"), vec!["T:x", "E:a "]);
}

#[test]
fn white_space_before_the_name_abandons_the_tag() {
    assert_eq!(scan("x< a>y<b>"), vec!["T:x< a>y", "E:b"]);
    assert_eq!(scan("x<\ta>y<b>"), vec!["T:x<\ta>y", "E:b"]);
    assert_eq!(scan("x<\na>y<b>"), vec!["T:x<\na>y", "E:b"]);
    assert_eq!(scan("x<   a>"), vec!["T:x"]);
}

#[test]
fn slash_is_skipped_before_the_name_and_kept_inside_it() {
    assert_eq!(scan("t</os>"), vec!["T:t", "E:os"]);
    assert_eq!(scan("t<br/>"), vec!["T:t", "E:br/"]);
    assert_eq!(scan("t<a/b>"), vec!["T:t", "E:a/b"]);
}

#[test]
fn closing_tag_gives_a_sibling_element() {
    assert_eq!(scan("a<p>b</p>"), vec!["T:a", "E:p", "T:>b", "E:p"]);
}

#[test]
fn elements_are_never_nested() {
    assert_eq!(
        scan("a<div>b<span>c</span>d</div>"),
        vec!["T:a", "E:div", "T:>b", "E:span", "T:>c", "E:span", "T:>d", "E:div"]
    );
}

#[test]
fn second_less_than_moves_the_end_of_the_text_run() {
    assert_eq!(scan("a<b<c>"), vec!["T:a<b", "E:b<c"]);
    assert_eq!(scan("ab<<"), vec!["T:ab<"]);
}

#[test]
fn greater_than_outside_a_tag_is_text() {
    assert_eq!(scan("a>b<c>"), vec!["T:a>b", "E:c"]);
}

#[test]
fn tag_without_a_name_takes_the_bytes_since_the_last_name_start() {
    assert_eq!(scan("x<>"), vec!["T:x", "E:x<"]);
    assert_eq!(scan("x</>"), vec!["T:x", "E:x</"]);
    assert_eq!(scan("a<b>c<>"), vec!["T:a", "E:b", "T:>c", "E:b>c<"]);
}

#[test]
fn element_names_are_never_empty() {
    for input in ["x<>", "x</>", "a<b>c<>", "a<b ><>", "x<a>", "é<ü>"] {
        for node in body(&parse_html(input)) {
            match node {
                HtmlTree::Tag { name, .. } => assert!(!name.is_empty()),
                HtmlTree::Text(text) => assert!(!text.is_empty()),
                _ => panic!(),
            }
        }
    }
}

#[test]
fn multi_byte_characters_are_kept_whole() {
    assert_eq!(scan("é<ü>ö<"), vec!["T:é", "E:ü", "T:>ö"]);
    assert_eq!(scan("日本<語 属性>テキスト<"), vec!["T:日本", "E:語", "T:>テキスト"]);
    assert_eq!(scan("😀</😀>"), vec!["T:😀", "E:😀"]);
    assert_eq!(scan("x<é\u{a0}y z>"), vec!["T:x", "E:é\u{a0}y"]);
}

#[test]
fn nodes_borrow_from_the_input() {
    let input = String::from("ab<cd>ef<");
    let doc = parse_html(&input);
    let range = input.as_bytes().as_ptr_range();
    for node in body(&doc) {
        let part = match node {
            HtmlTree::Text(text) => *text,
            HtmlTree::Tag { name, .. } => *name,
            _ => panic!(),
        };
        let at = part.as_ptr();
        assert!(range.start <= at && at < range.end);
    }
}

#[test]
fn the_scan_is_deterministic() {
    let input = "a<b c>d<e>f<";
    assert_eq!(scan(input), scan(input));
}

#[test]
fn long_input_is_scanned_in_one_pass() {
    let mut input = String::new();
    for _ in 0..10_000 {
        input.push_str("text<tag attr>");
    }
    let doc = parse_html(&input);
    let nodes = body(&doc);
    assert_eq!(nodes.len(), 20_000);
    assert!(matches!(nodes[0], HtmlTree::Text("text")));
    assert!(matches!(nodes[2], HtmlTree::Text(">text")));
    assert_eq!(elements(nodes).len(), 10_000);
}

#[test]
fn text_runs_follow_each_other_in_the_input() {
    for input in ["a<b>c<d>e<", "a<b<c>d<e f>g<", "x< a>y<b>z<>w<", "é<ü>ö<ä>ß<"] {
        let doc = parse_html(input);
        let base = input.as_ptr() as usize;
        let mut end_of_earlier = 0;
        for node in body(&doc) {
            let (part, is_text) = match node {
                HtmlTree::Text(text) => (*text, true),
                HtmlTree::Tag { name, .. } => (*name, false),
                _ => panic!(),
            };
            let start = part.as_ptr() as usize - base;
            let end = start + part.len();
            assert_eq!(&input[start..end], part);
            if is_text {
                assert!(end_of_earlier <= start, "{:?}", input);
            }
            if end > end_of_earlier {
                end_of_earlier = end;
            }
        }
    }
}

#[test]
fn simple_markup_scans_to_its_pieces() {
    let texts = ["", "a", "two words", "a > b", "/é\n"];
    let names = ["b", "os", "br/", "ü-1", "a=b"];
    for first_text in texts {
        for (i, first_name) in names.iter().enumerate() {
            for second_text in texts {
                let second_name = names[(i + 2) % names.len()];
                let input = format!("{}<{}>{}<{}>", first_text, first_name, second_text, second_name);
                let mut expected = Vec::new();
                if !first_text.is_empty() {
                    expected.push(format!("T:{}", first_text));
                    expected.push(format!("E:{}", first_name));
                }
                expected.push(format!("T:>{}", second_text));
                expected.push(format!("E:{}", second_name));
                assert_eq!(scan(&input), expected, "{:?}", input);

                let mut rendered = String::from("<html><head></head><body>");
                if !first_text.is_empty() {
                    rendered.push_str(&format!("{}<{}></{}>", first_text, first_name, first_name));
                }
                rendered.push_str(&format!(">{}<{}></{}>", second_text, second_name, second_name));
                rendered.push_str("</body></html>");
                assert_eq!(parse_html(&input).fixed_format(), rendered, "{:?}", input);

                let with_tail = format!("{}tail", input);
                assert_eq!(scan(&with_tail), expected, "{:?}", with_tail);
                let with_open = format!("{}tail<rest", input);
                let mut flushed = expected.clone();
                flushed.push(String::from("T:>tail"));
                assert_eq!(scan(&with_open), flushed, "{:?}", with_open);
            }
        }
    }
}
