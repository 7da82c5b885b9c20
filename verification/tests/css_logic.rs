use cssparser::{AtRuleParser, ParseError, Parser, ParserState, QualifiedRuleParser, StyleSheetParser, Token};
use dc::css_logic::{
    hex_cuts_cleanly, parse_color_hex, parse_css_value, parse_declaration_block, parse_rules, parse_selector_list,
    parse_simple_selector, Color, CssToken, QualifiedRuleTokens, Selector, Stylesheet, Unit, Value,
};

fn token(t: &Token) -> CssToken {
    match t {
        Token::Ident(s) => CssToken::Ident(s.to_string()),
        Token::Hash(s) => CssToken::Hash(s.to_string()),
        Token::IDHash(s) => CssToken::IDHash(s.to_string()),
        Token::Delim(c) => CssToken::Delim(*c),
        Token::Colon => CssToken::Colon,
        Token::Semicolon => CssToken::Semicolon,
        Token::Comma => CssToken::Comma,
        Token::CloseCurlyBracket => CssToken::CloseCurlyBracket,
        Token::Number { value, .. } => CssToken::Number(value.to_bits()),
        Token::Dimension { value, unit, .. } => CssToken::Dimension(value.to_bits(), unit.to_string()),
        _ => CssToken::Other,
    }
}

fn tokens(input: &mut Parser) -> Vec<CssToken> {
    let mut v = Vec::new();
    while let Ok(t) = input.next() {
        v.push(token(t));
    }
    v
}

struct RuleParser;

impl<'i> QualifiedRuleParser<'i> for RuleParser {
    type Prelude = Vec<CssToken>;
    type QualifiedRule = QualifiedRuleTokens;
    type Error = ();

    fn parse_prelude(&mut self, input: &mut Parser<'i>) -> Result<Self::Prelude, ParseError<()>> {
        Ok(tokens(input))
    }

    fn parse_block(
        &mut self,
        prelude: Self::Prelude,
        _start: &ParserState,
        input: &mut Parser<'i>,
    ) -> Result<Self::QualifiedRule, ParseError<()>> {
        Ok(QualifiedRuleTokens { prelude, block: tokens(input) })
    }
}

impl<'i> AtRuleParser<'i> for RuleParser {
    type Prelude = ();
    type AtRule = QualifiedRuleTokens;
    type Error = ();
}

fn raw_rules(source: &str) -> Vec<QualifiedRuleTokens> {
    let mut parser = Parser::new(source);
    let mut rule_parser = RuleParser;
    StyleSheetParser::new(&mut parser, &mut rule_parser).filter_map(|r| r.ok()).collect()
}

fn parse_css(source: &str) -> Stylesheet {
    parse_rules(&raw_rules(source)).expect("byte index is not a char boundary")
}


fn px(v: f32) -> Value {
    Value::px(v.to_bits())
}

fn kw(s: &str) -> Value {
    Value::Keyword(s.to_string())
}

fn decls(sheet: &Stylesheet, i: usize) -> Vec<(String, Value)> {
    sheet.rules[i].declaration.iter().map(|d| (d.name.clone(), d.value.clone())).collect()
}

fn simple(s: &Selector) -> (Option<String>, Option<String>, Vec<String>) {
    match s {
        Selector::Simple(s) => (s.tag_name.clone(), s.id.clone(), s.class.clone()),
    }
}

#[test]
fn parses_the_stylesheet_of_the_program() {
    let css = "
        h1, div {
            display: block;
            margin: 10px;
        }
        #answer {
            color: #FF0000;
        }
    ";
    let sheet = parse_css(css);
    assert_eq!(sheet.rules.len(), 2);
    assert_eq!(sheet.rules[0].selector.len(), 2);
    assert_eq!(simple(&sheet.rules[0].selector[0]), (Some("h1".to_string()), None, vec![]));
    assert_eq!(simple(&sheet.rules[0].selector[1]), (Some("div".to_string()), None, vec![]));
    assert_eq!(decls(&sheet, 0), vec![("display".to_string(), kw("block")), ("margin".to_string(), px(10.0))]);
    assert_eq!(simple(&sheet.rules[1].selector[0]), (None, Some("answer".to_string()), vec![]));
    assert_eq!(
        decls(&sheet, 1),
        vec![("color".to_string(), Value::ColorValue(Color { r: 255, g: 0, b: 0, a: 255 }))]
    );
}

#[test]
fn empty_stylesheet_has_no_rules() {
    assert_eq!(parse_css("").rules.len(), 0);
    assert_eq!(Stylesheet::new().rules.len(), 0);
}

#[test]
fn compound_selector_parts() {
    let sheet = parse_css("*.a#b.c { x: y }");
    assert_eq!(
        simple(&sheet.rules[0].selector[0]),
        (None, Some("b".to_string()), vec!["a".to_string(), "c".to_string()])
    );
    let sheet = parse_css("p#one#two { x: y }");
    assert_eq!(simple(&sheet.rules[0].selector[0]), (Some("p".to_string()), Some("two".to_string()), vec![]));
}

#[test]
fn invalid_preludes_drop_the_rule() {
    let sheet = parse_css("div p { a: b } div, { c: d } .{ e: f } { g: h } span { i: j }");
    assert_eq!(sheet.rules.len(), 1);
    assert_eq!(simple(&sheet.rules[0].selector[0]), (Some("span".to_string()), None, vec![]));
    assert_eq!(decls(&sheet, 0), vec![("i".to_string(), kw("j"))]);
}

#[test]
fn at_rules_are_dropped() {
    let sheet = parse_css("@media screen { p { a: b } } q { c: d }");
    assert_eq!(sheet.rules.len(), 1);
    assert_eq!(simple(&sheet.rules[0].selector[0]), (Some("q".to_string()), None, vec![]));
}

#[test]
fn bad_declarations_are_skipped() {
    let sheet = parse_css("a { color red; margin: 2px; bogus: 5%; x: y z; ; w: q }");
    assert_eq!(
        decls(&sheet, 0),
        vec![("margin".to_string(), px(2.0)), ("x".to_string(), kw("y")), ("w".to_string(), kw("q"))]
    );
}

#[test]
fn values_of_each_kind() {
    let sheet = parse_css("a { n: 3; d: 1.5em; h: #abc; k: auto; c: #00ff00 }");
    assert_eq!(
        decls(&sheet, 0),
        vec![
            ("n".to_string(), px(3.0)),
            ("d".to_string(), px(1.5)),
            ("h".to_string(), Value::ColorValue(Color { r: 170, g: 187, b: 204, a: 255 })),
            ("k".to_string(), kw("auto")),
            ("c".to_string(), Value::ColorValue(Color { r: 0, g: 255, b: 0, a: 255 })),
        ]
    );
}

#[test]
fn hex_colors() {
    assert_eq!(parse_color_hex("FF0000"), Color { r: 255, g: 0, b: 0, a: 255 });
    assert_eq!(parse_color_hex("0f0"), Color { r: 0, g: 255, b: 0, a: 255 });
    assert_eq!(parse_color_hex("12345"), Color { r: 0, g: 0, b: 0, a: 255 });
    assert_eq!(parse_color_hex(""), Color { r: 0, g: 0, b: 0, a: 255 });
    assert_eq!(parse_color_hex("GG8000"), Color { r: 0, g: 128, b: 0, a: 255 });
    assert_eq!(parse_color_hex("+F0000"), Color { r: 15, g: 0, b: 0, a: 255 });
    assert_eq!(parse_color_hex("-F0000"), Color { r: 0, g: 0, b: 0, a: 255 });
    assert_eq!(parse_color_hex("é1234"), Color { r: 0, g: 18, b: 52, a: 255 });
    assert_eq!(parse_color_hex("abc"), parse_color_hex("aabbcc"));
}

#[test]
fn hex_names_cut_inside_a_character() {
    assert!(!hex_cuts_cleanly("aé123"));
    assert!(hex_cuts_cleanly("é1234"));
    assert!(!hex_cuts_cleanly("aé"));
    assert!(hex_cuts_cleanly("ééé"));
    assert!(parse_rules(&raw_rules("a { color: #aé123 }")).is_none());
    assert!(parse_rules(&raw_rules("a { color: #é1234 }")).is_some());
}

#[test]
fn selectors_from_tokens() {
    let t = vec![
        CssToken::Ident("a".to_string()),
        CssToken::Comma,
        CssToken::Delim('.'),
        CssToken::Ident("b".to_string()),
    ];
    let sels = parse_selector_list(&t).expect("a selector list");
    assert_eq!(sels.len(), 2);
    assert_eq!(simple(&sels[1]), (None, None, vec!["b".to_string()]));
    let t = vec![CssToken::Delim('.'), CssToken::Number(0)];
    assert!(parse_simple_selector(&t, 0).is_none());
    let t = vec![CssToken::Ident("a".to_string()), CssToken::Colon];
    let (s, p) = parse_simple_selector(&t, 0).expect("a selector");
    assert_eq!((s.tag_name, p), (Some("a".to_string()), 1));
    assert!(parse_selector_list(&t).is_none());
    assert!(parse_selector_list(&Vec::new()).is_none());
}

#[test]
fn declarations_from_tokens() {
    let t = vec![
        CssToken::Ident("a".to_string()),
        CssToken::Colon,
        CssToken::Ident("b".to_string()),
        CssToken::CloseCurlyBracket,
        CssToken::Ident("c".to_string()),
        CssToken::Colon,
        CssToken::Ident("d".to_string()),
    ];
    let d = parse_declaration_block(&t).expect("declarations");
    assert_eq!(d.len(), 1);
    assert_eq!(d[0].name, "a");
    assert_eq!(parse_css_value(&t, 2), Ok(kw("b")));
    assert_eq!(parse_css_value(&t, 1), Err(()));
    assert_eq!(parse_css_value(&t, 7), Err(()));
    assert_eq!(parse_css_value(&vec![CssToken::Dimension(7, "em".to_string())], 0), Ok(Value::Length(7, Unit::Px)));
}

#[test]
fn stylesheet_parts_concatenate() {
    let a = parse_css("p { x: y }");
    let b = parse_css("q { z: w }");
    let ab = parse_css("p { x: y } q { z: w }");
    assert_eq!(ab.rules.len(), a.rules.len() + b.rules.len());
    assert_eq!(decls(&ab, 0), decls(&a, 0));
    assert_eq!(decls(&ab, 1), decls(&b, 0));
}

#[test]
fn lengths_compare_as_numbers() {
    assert_eq!(px(0.0), px(-0.0));
    assert_ne!(px(f32::NAN), px(f32::NAN));
    assert_ne!(px(1.0), px(2.0));
    assert_ne!(px(1.0), kw("1px"));
    assert_eq!(kw("a"), kw("a"));
}

#[test]
fn hex_colour_round_trip() {
    for (r, g, b) in [(0u8, 10u8, 255u8), (171, 205, 239), (16, 1, 128)] {
        let lower = format!("{:02x}{:02x}{:02x}", r, g, b);
        let upper = format!("{:02X}{:02X}{:02X}", r, g, b);
        assert_eq!(parse_color_hex(&lower), Color { r, g, b, a: 255 });
        assert_eq!(parse_color_hex(&upper), Color { r, g, b, a: 255 });
    }
}
