use cssparser::{AtRuleParser, ParseError, Parser, ParserState, QualifiedRuleParser, StyleSheetParser, Token};
use dc::css_logic::{parse_rules, Color, CssToken, QualifiedRuleTokens, SimpleSelector, Stylesheet, Value};
use dc::html_logic::{parse_html, Node, NodeData};
use dc::style_logic::{get_specified_values, style_tree, StyledNode};

fn token(t: &Token) -> CssToken {
    match t {
        Token::Ident(s) => CssToken::Ident(s.to_string()),
        Token::Hash(s) => CssToken::Hash(s.to_string()),
        Token::IDHash(s) => CssToken::IDHash(s.to_string()),
        Token::Delim(c) => CssToken::Delim(*c),
        Token::Colon => CssToken::Colon,
        Token::Semicolon => CssToken::Semicolon,
        Token::Comma => CssToken::Comma,
        Token::CloseCurlyBracket => CssToken::CloseCurlyBracket,
        Token::Number { value, .. } => CssToken::Number(value.to_bits()),
        Token::Dimension { value, unit, .. } => CssToken::Dimension(value.to_bits(), unit.to_string()),
        _ => CssToken::Other,
    }
}

fn tokens(input: &mut Parser) -> Vec<CssToken> {
    let mut v = Vec::new();
    while let Ok(t) = input.next() {
        v.push(token(t));
    }
    v
}

struct RuleParser;

impl<'i> QualifiedRuleParser<'i> for RuleParser {
    type Prelude = Vec<CssToken>;
    type QualifiedRule = QualifiedRuleTokens;
    type Error = ();

    fn parse_prelude(&mut self, input: &mut Parser<'i>) -> Result<Self::Prelude, ParseError<()>> {
        Ok(tokens(input))
    }

    fn parse_block(
        &mut self,
        prelude: Self::Prelude,
        _start: &ParserState,
        input: &mut Parser<'i>,
    ) -> Result<Self::QualifiedRule, ParseError<()>> {
        Ok(QualifiedRuleTokens { prelude, block: tokens(input) })
    }
}

impl<'i> AtRuleParser<'i> for RuleParser {
    type Prelude = ();
    type AtRule = QualifiedRuleTokens;
    type Error = ();
}

fn parse_css(source: String) -> Stylesheet {
    let mut parser = Parser::new(&source);
    let mut rule_parser = RuleParser;
    let raw: Vec<QualifiedRuleTokens> =
        StyleSheetParser::new(&mut parser, &mut rule_parser).filter_map(|r| r.ok()).collect();
    parse_rules(&raw).expect("byte index is not a char boundary")
}

fn get_elem_by_tag(root: &Node, tag_name: &str) -> Option<Node> {
    if let NodeData::Element { ref name, .. } = root.data {
        if name == tag_name {
            return Some(Node { data: root.data.clone(), children: Vec::new() });
        }
    }
    for child in &root.children {
        if let Some(node) = get_elem_by_tag(child, tag_name) {
            return Some(node);
        }
    }
    None
}

#[test]
fn test_matches_tag() {
    let html = r#"<div></div>"#;
    let dom = parse_html(html.to_string());
    let div_node = get_elem_by_tag(&dom, "div").expect("div not found");

    let selector = SimpleSelector::new(Some("div".to_string()), None, Vec::new());
    assert!(dc::style_logic::matches(&div_node, &selector));

    let selector = SimpleSelector::new(Some("p".to_string()), None, Vec::new());
    assert!(!dc::style_logic::matches(&div_node, &selector));
}

#[test]
fn test_matches_id() {
    let html = r#"<div id="test-id"></div>"#;
    let dom = parse_html(html.to_string());
    let div_node = get_elem_by_tag(&dom, "div").expect("div not found");

    let selector = SimpleSelector::new(None, Some("test-id".to_string()), Vec::new());
    assert!(dc::style_logic::matches(&div_node, &selector));

    let selector = SimpleSelector::new(None, Some("wrong-id".to_string()), Vec::new());
    assert!(!dc::style_logic::matches(&div_node, &selector));
}

#[test]
fn test_matches_class() {
    let html = r#"<div class="test-class other-class"></div>"#;
    let dom = parse_html(html.to_string());
    let div_node = get_elem_by_tag(&dom, "div").expect("div not found");

    let selector = SimpleSelector::new(None, None, vec!["test-class".to_string()]);
    assert!(dc::style_logic::matches(&div_node, &selector));

    let selector = SimpleSelector::new(None, None, vec!["other-class".to_string()]);
    assert!(dc::style_logic::matches(&div_node, &selector));

    let selector = SimpleSelector::new(None, None, vec!["wrong-class".to_string()]);
    assert!(!dc::style_logic::matches(&div_node, &selector));

    let selector = SimpleSelector::new(
        None,
        None,
        vec!["test-class".to_string(), "other-class".to_string()],
    );
    assert!(dc::style_logic::matches(&div_node, &selector));
}

#[test]
fn test_matches_tag_and_id() {
    let html = r#"<div id="test-id"></div>"#;
    let dom = parse_html(html.to_string());
    let div_node = get_elem_by_tag(&dom, "div").expect("div not found");

    let selector = SimpleSelector::new(Some("div".to_string()), Some("test-id".to_string()), Vec::new());
    assert!(dc::style_logic::matches(&div_node, &selector));

    let selector = SimpleSelector::new(Some("p".to_string()), Some("test-id".to_string()), Vec::new());
    assert!(!dc::style_logic::matches(&div_node, &selector));
}

#[test]
fn test_get_specified_values() {
    let html = r#"<div id="test-div" class="my-class">Hello</div>"#;
    let css = r#"
        div {
            display: block;
            margin: 10px;
        }
        #test-div {
            color: #FF0000;
        }
        .my-class {
            font-size: 12px;
        }
    "#;
    let dom = parse_html(html.to_string());
    let stylesheet = parse_css(css.to_string());

    let div_node = get_elem_by_tag(&dom, "div").expect("div not found");
    let values = get_specified_values(&div_node, &stylesheet);

    assert_eq!(values.get("display"), Some(&Value::Keyword("block".to_string())));
    assert_eq!(values.get("margin"), Some(&Value::px(10.0f32.to_bits())));
    assert_eq!(values.get("color"), Some(&Value::ColorValue(Color { r: 255, g: 0, b: 0, a: 255 })));
    assert_eq!(values.get("font-size"), Some(&Value::px(12.0f32.to_bits())));
}

fn get_styled_node_by_tag<'a>(root: &'a StyledNode, tag_name: &str) -> Option<&'a StyledNode> {
    if let NodeData::Element { ref name, .. } = root.node {
        if name == tag_name {
            return Some(root);
        }
    }
    for child in &root.children {
        if let Some(node) = get_styled_node_by_tag(child, tag_name) {
            return Some(node);
        }
    }
    None
}

#[test]
fn test_style_tree() {
    let html = r#"
        <html>
            <body>
                <div id="test-div">Hello</div>
                <p>World</p>
            </body>
        </html>
    "#;
    let css = r#"
        div {
            display: block;
        }
        p {
            color: #0000FF;
        }
    "#;
    let dom = parse_html(html.to_string());
    let stylesheet = parse_css(css.to_string());

    let styled_tree = style_tree(&dom, &stylesheet);

    let styled_div = get_styled_node_by_tag(&styled_tree, "div").expect("div not found");
    let styled_p = get_styled_node_by_tag(&styled_tree, "p").expect("p not found");

    assert_eq!(styled_div.specified_values.get("display"), Some(&Value::Keyword("block".to_string())));
    assert_eq!(styled_p.specified_values.get("color"), Some(&Value::ColorValue(Color { r: 0, g: 0, b: 255, a: 255 })));
}

#[test]
fn later_matching_rule_overrides_earlier() {
    let html = r#"<p class="x">t</p>"#;
    let css = "p { color: red; margin: 1px } .x { color: blue } div { color: green }";
    let dom = parse_html(html.to_string());
    let stylesheet = parse_css(css.to_string());
    let p = get_elem_by_tag(&dom, "p").expect("p not found");
    let values = get_specified_values(&p, &stylesheet);
    assert_eq!(values.get("color"), Some(&Value::Keyword("blue".to_string())));
    assert_eq!(values.get("margin"), Some(&Value::px(1.0f32.to_bits())));
    assert_eq!(values.get("padding"), None);
    assert_eq!(values.len(), 2);
}

#[test]
fn text_nodes_get_no_values() {
    let dom = parse_html("<p>hello</p>".to_string());
    let stylesheet = parse_css("* { display: block }".to_string());
    let styled = style_tree(&dom, &stylesheet);
    fn check(s: &StyledNode) {
        match s.node {
            NodeData::Element { .. } => assert_eq!(s.specified_values.get("display"), Some(&Value::Keyword("block".to_string()))),
            _ => assert_eq!(s.specified_values.len(), 0),
        }
        for c in &s.children {
            check(c);
        }
    }
    check(&styled);
}

#[test]
fn property_map_keeps_one_value_per_property() {
    let mut m = dc::style_logic::PropertyMap::new();
    assert_eq!(m.len(), 0);
    m.insert("a".to_string(), Value::Keyword("x".to_string()));
    m.insert("b".to_string(), Value::px(0));
    m.insert("a".to_string(), Value::Keyword("y".to_string()));
    assert_eq!(m.len(), 2);
    assert_eq!(m.get("a"), Some(&Value::Keyword("y".to_string())));
    assert_eq!(m.get("b"), Some(&Value::px(0)));
    assert_eq!(m.get("c"), None);
}

#[test]
fn unconditional_selector_matches_elements_only() {
    let dom = parse_html("<p>t</p>".to_string());
    let p = get_elem_by_tag(&dom, "p").expect("p not found");
    let any = SimpleSelector::new(None, None, Vec::new());
    assert!(dc::style_logic::matches(&p, &any));
    assert!(!dc::style_logic::matches(&dom, &any));
    let text = Node { data: NodeData::Text { contents: "t".to_string() }, children: Vec::new() };
    assert!(!dc::style_logic::matches(&text, &any));
}

#[test]
fn last_attribute_of_a_name_counts() {
    let elem = Node {
        data: NodeData::Element {
            name: "div".to_string(),
            attrs: vec![
                dc::html_logic::Attribute { name: "id".to_string(), value: "a".to_string() },
                dc::html_logic::Attribute { name: "id".to_string(), value: "b".to_string() },
            ],
        },
        children: Vec::new(),
    };
    assert!(dc::style_logic::matches(&elem, &SimpleSelector::new(None, Some("b".to_string()), Vec::new())));
    assert!(!dc::style_logic::matches(&elem, &SimpleSelector::new(None, Some("a".to_string()), Vec::new())));
    assert!(!dc::style_logic::matches(&elem, &SimpleSelector::new(None, None, vec!["a".to_string()])));
}
