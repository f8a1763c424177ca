use the_wash::html::{parse_html, HtmlDoc, HtmlTree};

const ALPHABET: [char; 7] = ['<', '>', '/', ' ', '\n', 'a', 'é'];

/// Every text over the alphabet of at most `longest` characters.
fn inputs(longest: usize) -> Vec<String> {
    let mut all = vec![String::new()];
    let mut last = vec![String::new()];
    for _ in 0..longest {
        let mut next = Vec::new();
        for text in &last {
            for c in ALPHABET {
                let mut longer = text.clone();
                longer.push(c);
                next.push(longer);
            }
        }
        all.extend(next.iter().cloned());
        last = next;
    }
    all
}

fn body<'a, 'b>(doc: &'b HtmlDoc<'a>) -> &'b Vec<HtmlTree<'a>> {
    match &doc.root {
        HtmlTree::Tag { children, .. } => match &children[1] {
            HtmlTree::Tag { children, .. } => children,
            _ => panic!("body is not an element"),
        },
        _ => panic!("the root is not an element"),
    }
}

fn outline(input: &str) -> Vec<String> {
    let doc = parse_html(input);
    let mut lines = Vec::new();
    for node in body(&doc) {
        match node {
            HtmlTree::Text(text) => lines.push(format!("T:{}", text)),
            HtmlTree::Tag { name, .. } => lines.push(format!("E:{}", name)),
            _ => panic!("the scanner never makes a raw-text node"),
        }
    }
    lines
}

#[test]
fn every_short_input_gives_a_flat_alternating_body() {
    for input in inputs(5) {
        let doc = parse_html(&input);
        assert!(doc.doc_type.is_none());
        let nodes = body(&doc);
        for (i, node) in nodes.iter().enumerate() {
            match node {
                HtmlTree::Text(text) => {
                    assert!(i % 2 == 0, "{:?}", input);
                    assert!(!text.is_empty(), "{:?}", input);
                    assert!(input.contains(text), "{:?}", input);
                }
                HtmlTree::Tag { name, attrs, children } => {
                    assert!(i % 2 == 1, "{:?}", input);
                    assert!(!name.is_empty(), "{:?}", input);
                    assert!(input.contains(name), "{:?}", input);
                    assert!(attrs.is_empty() && children.is_empty(), "{:?}", input);
                }
                _ => panic!("{:?}", input),
            }
        }
    }
}

#[test]
fn every_short_input_renders_to_the_shell_around_its_nodes() {
    for input in inputs(5) {
        let doc = parse_html(&input);
        let mut expected = String::from("<html><head></head><body>");
        for node in body(&doc) {
            match node {
                HtmlTree::Text(text) => expected.push_str(text),
                HtmlTree::Tag { name, .. } => expected.push_str(&format!("<{}></{}>", name, name)),
                _ => panic!("{:?}", input),
            }
        }
        expected.push_str("</body></html>");
        assert_eq!(doc.fixed_format(), expected, "{:?}", input);
    }
}

#[test]
fn text_without_brackets_at_the_end_changes_nothing() {
    for input in inputs(4) {
        let before = outline(&input);
        for tail in ["a", " ", "/", "é a", "a/\n"] {
            assert_eq!(outline(&format!("{}{}", input, tail)), before, "{:?} {:?}", input, tail);
        }
    }
}

#[test]
fn text_before_a_last_less_than_is_flushed() {
    for input in inputs(4) {
        for tail in ["a", " ", "é a"] {
            for rest in ["", "b", "/b c"] {
                let lines = outline(&format!("{}{}<{}", input, tail, rest));
                let last = lines.last().expect("a text run is flushed");
                assert!(last.starts_with("T:"), "{:?}", input);
                assert!(last.ends_with(tail), "{:?}", input);
            }
        }
    }
}

#[test]
fn input_without_greater_than_gives_no_element() {
    for input in inputs(5) {
        if !input.contains('>') {
            let lines = outline(&input);
            assert!(lines.len() <= 1, "{:?}", input);
            assert!(lines.iter().all(|line| line.starts_with("T:")), "{:?}", input);
        }
    }
}

#[test]
fn space_between_name_and_greater_than_changes_nothing() {
    for before in inputs(3) {
        for after in ["", "b<", "<c>"] {
            let tight = outline(&format!("{}x<n>{}", before, after));
            let loose = outline(&format!("{}x<n >{}", before, after));
            if !before.contains('<') {
                assert_eq!(tight, loose, "{:?} {:?}", before, after);
            }
        }
    }
}
