use dc::html_logic::{parse_html, walk, walk_fits, Attribute, Node, NodeData};

#[test]
fn test_parser() {
    let html = r#" 
   <!DOCTYPE html>
            <html>
                <body>
                    <div id="test">Hello Lib</div>
                </body>
            </html>
        "#;
    let dom = parse_html(html.parse().unwrap());
    println!("--- Test output ---");
    assert!(walk_fits(&dom, 0));
    for line in walk(&dom, 0) {
        println!("{}", line);
    }
}

fn leaf(data: NodeData) -> Node {
    Node { data, children: Vec::new() }
}

fn text(s: &str) -> Node {
    leaf(NodeData::Text { contents: s.to_string() })
}

#[test]
fn outline_of_a_parsed_document() {
    let dom = parse_html("<!DOCTYPE html><div id=\"test\" class=\"a\">Hello <b>Lib</b></div>".to_string());
    let lines = walk(&dom, 0);
    assert_eq!(
        lines,
        vec![
            " #Document".to_string(),
            "  <html>".to_string(),
            "    <head>".to_string(),
            "    <body>".to_string(),
            "      <div> id=\"test\" class=\"a\"".to_string(),
            "        #Text: \"Hello\"".to_string(),
            "        <b>".to_string(),
            "          #Text: \"Lib\"".to_string(),
        ]
    );
}

#[test]
fn outline_of_a_built_tree() {
    let div = Node {
        data: NodeData::Element {
            name: "div".to_string(),
            attrs: vec![Attribute { name: "id".to_string(), value: "x".to_string() }],
        },
        children: vec![text("  hi \n"), text(" \t "), leaf(NodeData::Comment { contents: " note ".to_string() })],
    };
    let root = Node { data: NodeData::Document, children: vec![leaf(NodeData::Doctype), div] };
    assert_eq!(
        walk(&root, 1),
        vec![
            "  #Document".to_string(),
            "   <div> id=\"x\"".to_string(),
            "     #Text: \"hi\"".to_string(),
            " note ".to_string(),
        ]
    );
}

#[test]
fn comments_in_parsed_documents() {
    let dom = parse_html("<p><!--c--></p>".to_string());
    let lines = walk(&dom, 0);
    assert!(lines.contains(&"c".to_string()));
}

#[test]
fn indentation_limits() {
    let root = Node { data: NodeData::Document, children: vec![text("a")] };
    assert!(walk_fits(&root, usize::MAX - 2));
    assert!(!walk_fits(&root, usize::MAX - 1));
    assert!(walk_fits(&text("a"), usize::MAX));
}

#[test]
fn parsed_root_is_the_document() {
    for html in ["", "<p>x</p>", "plain text", "<!-- c -->"] {
        let dom = parse_html(html.to_string());
        assert!(matches!(dom.data, NodeData::Document));
    }
}
