//! The style sheet model and the grammar of selectors, declarations and values.

use vstd::prelude::*;
use vstd::utf8::*;
use vstd::string::StringSliceAdditionalSpecFns;
use crate::text::{radix16_u8, u8_from_str_radix, lemma_radix16_one_byte, str_eq};

verus! {

/// A simple selector: an optional tag name, an optional id and any number of classes.
#[derive(Debug)]
pub struct SimpleSelector {
    pub tag_name: Option<String>,
    pub id: Option<String>,
    pub class: Vec<String>,
}

/// The model of a simple selector, with its names as character sequences.
pub struct SpecSimpleSelector {
    pub tag_name: Option<Seq<char>>,
    pub id: Option<Seq<char>>,
    pub class: Seq<Seq<char>>,
}

pub open spec fn opt_view(o: Option<String>) -> Option<Seq<char>> {
    match o {
        Some(s) => Some(s@),
        None => None,
    }
}

pub open spec fn strings_view(v: Seq<String>) -> Seq<Seq<char>> {
    v.map_values(|s: String| s@)
}

impl View for SimpleSelector {
    type V = SpecSimpleSelector;

    open spec fn view(&self) -> SpecSimpleSelector {
        SpecSimpleSelector {
            tag_name: opt_view(self.tag_name),
            id: opt_view(self.id),
            class: strings_view(self.class@),
        }
    }
}

impl SimpleSelector {
    /// Builds a simple selector from its parts.
    pub fn new(tag_name: Option<String>, id: Option<String>, class: Vec<String>) -> (s: SimpleSelector)
        ensures
            s.tag_name == tag_name,
            s.id == id,
            s.class == class,
    {
        SimpleSelector { tag_name, id, class }
    }
}

/// A selector of a rule.
#[derive(Debug)]
pub enum Selector {
    Simple(SimpleSelector),
}

impl View for Selector {
    type V = SpecSimpleSelector;

    open spec fn view(&self) -> SpecSimpleSelector {
        match self {
            Selector::Simple(s) => s@,
        }
    }
}

/// The unit of a length.
#[derive(Clone, Copy, Debug, PartialEq, Eq, Structural)]
pub enum Unit {
    Px,
}

/// A declared value. A length holds the IEEE 754 bit pattern of its `f32` number.
#[derive(Debug)]
pub enum Value {
    Keyword(String),
    Length(u32, Unit),
    ColorValue(Color),
}

/// The model of a value, with a keyword as a character sequence.
pub enum SpecValue {
    Keyword(Seq<char>),
    Length(u32, Unit),
    ColorValue(Color),
}

impl View for Value {
    type V = SpecValue;

    open spec fn view(&self) -> SpecValue {
        match self {
            Value::Keyword(k) => SpecValue::Keyword(k@),
            Value::Length(v, u) => SpecValue::Length(*v, *u),
            Value::ColorValue(c) => SpecValue::ColorValue(*c),
        }
    }
}

/// The magnitude bits of an `f32` bit pattern (all bits but the sign).
pub open spec fn f32_magnitude(bits: u32) -> u32 {
    bits % 0x8000_0000u32
}

/// Whether two `f32` numbers, given by their bit patterns, compare equal with `==`:
/// no NaN is equal to anything, +0 equals -0, and otherwise the patterns agree.
pub open spec fn f32_bits_equal(a: u32, b: u32) -> bool {
    &&& f32_magnitude(a) <= 0x7f80_0000u32
    &&& f32_magnitude(b) <= 0x7f80_0000u32
    &&& (a == b || (f32_magnitude(a) == 0 && f32_magnitude(b) == 0))
}

/// Whether two values compare equal: keywords by their text, lengths by their
/// numbers as `f32` compares them and by unit, colours by their channels.
pub open spec fn value_eq(a: SpecValue, b: SpecValue) -> bool {
    match (a, b) {
        (SpecValue::Keyword(x), SpecValue::Keyword(y)) => x == y,
        (SpecValue::Length(x, u), SpecValue::Length(y, v)) => f32_bits_equal(x, y) && u == v,
        (SpecValue::ColorValue(c), SpecValue::ColorValue(d)) => c == d,
        _ => false,
    }
}

fn f32_bits_eq(a: u32, b: u32) -> (eq: bool)
    ensures
        eq == f32_bits_equal(a, b),
{
    let ma = a % 0x8000_0000u32;
    let mb = b % 0x8000_0000u32;
    ma <= 0x7f80_0000u32 && mb <= 0x7f80_0000u32 && (a == b || (ma == 0 && mb == 0))
}

impl PartialEq for Value {
    fn eq(&self, other: &Value) -> (eq: bool) {
        let r = match (self, other) {
            (Value::Keyword(x), Value::Keyword(y)) => {
                str_eq(x.as_str(), y.as_str())
            },
            (Value::Length(x, u), Value::Length(y, v)) => {
                f32_bits_eq(*x, *y) && *u == *v
            },
            (Value::ColorValue(c), Value::ColorValue(d)) => {
                *c == *d
            },
            _ => false,
        };
        r
    }
}

impl vstd::std_specs::cmp::PartialEqSpecImpl for Value {
    open spec fn obeys_eq_spec() -> bool {
        true
    }

    open spec fn eq_spec(&self, other: &Value) -> bool {
        value_eq(self@, other@)
    }
}

impl Clone for Value {
    fn clone(&self) -> (v: Value)
        ensures
            v == *self,
    {
        match self {
            Value::Keyword(k) => Value::Keyword(k.clone()),
            Value::Length(v, u) => Value::Length(*v, *u),
            Value::ColorValue(c) => Value::ColorValue(*c),
        }
    }
}

impl Value {
    /// A length in pixels, given the bit pattern of its `f32` number.
    pub fn px(bits: u32) -> (v: Value)
        ensures
            v == Value::Length(bits, Unit::Px),
    {
        Value::Length(bits, Unit::Px)
    }
}

/// A declaration `name: value`.
#[derive(Debug)]
pub struct Declaration {
    pub name: String,
    pub value: Value,
}

impl View for Declaration {
    type V = (Seq<char>, SpecValue);

    open spec fn view(&self) -> (Seq<char>, SpecValue) {
        (self.name@, self.value@)
    }
}

/// A rule: selectors and the declarations that apply where one of them matches.
#[derive(Debug)]
pub struct Rule {
    pub selector: Vec<Selector>,
    pub declaration: Vec<Declaration>,
}

/// The model of a rule.
pub struct SpecRule {
    pub selector: Seq<SpecSimpleSelector>,
    pub declaration: Seq<(Seq<char>, SpecValue)>,
}

impl View for Rule {
    type V = SpecRule;

    open spec fn view(&self) -> SpecRule {
        SpecRule {
            selector: self.selector@.map_values(|s: Selector| s@),
            declaration: self.declaration@.map_values(|d: Declaration| d@),
        }
    }
}

/// A style sheet: its rules in source order.
#[derive(Debug)]
pub struct Stylesheet {
    pub rules: Vec<Rule>,
}

impl View for Stylesheet {
    type V = Seq<SpecRule>;

    open spec fn view(&self) -> Seq<SpecRule> {
        self.rules@.map_values(|r: Rule| r@)
    }
}

impl Stylesheet {
    /// A style sheet without rules.
    pub fn new() -> (s: Stylesheet)
        ensures
            s@ == Seq::<SpecRule>::empty(),
    {
        Stylesheet { rules: Vec::new() }
    }
}

/// A CSS token, as the tokenizer hands it over: whitespace and comments are not
/// tokens, and a block or function is one token whose contents are skipped.
/// Numbers hold the IEEE 754 bit pattern of their `f32` value.
#[derive(Debug, PartialEq)]
pub enum CssToken {
    Ident(String),
    Hash(String),
    IDHash(String),
    Delim(char),
    Colon,
    Semicolon,
    Comma,
    CloseCurlyBracket,
    Number(u32),
    Dimension(u32, String),
    Other,
}

/// The model of a token.
pub enum SpecToken {
    Ident(Seq<char>),
    Hash(Seq<char>),
    IDHash(Seq<char>),
    Delim(char),
    Colon,
    Semicolon,
    Comma,
    CloseCurlyBracket,
    Number(u32),
    Dimension(u32, Seq<char>),
    Other,
}

impl View for CssToken {
    type V = SpecToken;

    open spec fn view(&self) -> SpecToken {
        match self {
            CssToken::Ident(s) => SpecToken::Ident(s@),
            CssToken::Hash(s) => SpecToken::Hash(s@),
            CssToken::IDHash(s) => SpecToken::IDHash(s@),
            CssToken::Delim(c) => SpecToken::Delim(*c),
            CssToken::Colon => SpecToken::Colon,
            CssToken::Semicolon => SpecToken::Semicolon,
            CssToken::Comma => SpecToken::Comma,
            CssToken::CloseCurlyBracket => SpecToken::CloseCurlyBracket,
            CssToken::Number(v) => SpecToken::Number(*v),
            CssToken::Dimension(v, u) => SpecToken::Dimension(*v, u@),
            CssToken::Other => SpecToken::Other,
        }
    }
}

pub open spec fn tokens_view(t: Seq<CssToken>) -> Seq<SpecToken> {
    t.map_values(|k: CssToken| k@)
}


/// A colour with red, green, blue and alpha channels.
#[derive(Clone, Copy, Debug, PartialEq, Eq, Structural)]
pub struct Color {
    pub r: u8,
    pub g: u8,
    pub b: u8,
    pub a: u8,
}

/// Whether every byte range that `parse_color_hex` cuts out of a name with these
/// UTF-8 bytes starts and ends on a character boundary (the cut panics otherwise).
pub open spec fn hex_cuts_on_boundaries(b: Seq<u8>) -> bool {
    &&& b.len() == 6 ==> is_char_boundary(b, 2) && is_char_boundary(b, 4)
    &&& b.len() == 3 ==> is_char_boundary(b, 1) && is_char_boundary(b, 2)
}

/// One channel read from a run of hexadecimal digits; 0 where they do not read.
pub open spec fn channel(b: Seq<u8>) -> u8 {
    match radix16_u8(b) {
        Some(v) => v,
        None => 0,
    }
}

/// The colour that a hash name with these UTF-8 bytes denotes: six bytes give two
/// digits per channel, three bytes give one digit per channel repeated (×17), any
/// other length gives opaque black. Alpha is always 255.
pub open spec fn spec_color_hex(b: Seq<u8>) -> Color {
    if b.len() == 6 {
        Color {
            r: channel(b.subrange(0, 2)),
            g: channel(b.subrange(2, 4)),
            b: channel(b.subrange(4, 6)),
            a: 255,
        }
    } else if b.len() == 3 {
        Color {
            r: (channel(b.subrange(0, 1)) * 17) as u8,
            g: (channel(b.subrange(1, 2)) * 17) as u8,
            b: (channel(b.subrange(2, 3)) * 17) as u8,
            a: 255,
        }
    } else {
        Color { r: 0, g: 0, b: 0, a: 255 }
    }
}

fn read_channel(s: &str) -> (v: u8)
    ensures
        v == channel(s.spec_bytes()),
{
    match u8_from_str_radix(s, 16) {
        Some(v) => v,
        None => 0,
    }
}

fn read_short_channel(s: &str) -> (v: u8)
    requires
        s.spec_bytes().len() == 1,
    ensures
        v == channel(s.spec_bytes()) * 17,
{
    proof {
        lemma_radix16_one_byte(s.spec_bytes());
    }
    read_channel(s) * 17
}

/// Reads a colour from the name of a hash token (`#rrggbb` or `#rgb` without the `#`).
pub fn parse_color_hex(hex: &str) -> (c: Color)
    requires
        hex_cuts_on_boundaries(hex.spec_bytes()),
    ensures
        c == spec_color_hex(hex.spec_bytes()),
{
    let ghost b = hex.spec_bytes();
    proof {
        encode_utf8_valid_utf8(hex@);
    }
    let n = hex.as_bytes().len();
    if n == 6 {
        let (p0, rest) = hex.split_at(2);
        proof {
            valid_utf8_split(b, 2);
            assert(rest.spec_bytes() =~= b.subrange(2, 6));
            is_char_boundary_iff_not_is_continuation_byte(b, 4);
            is_char_boundary_iff_not_is_continuation_byte(rest.spec_bytes(), 2);
        }
        let (p1, p2) = rest.split_at(2);
        proof {
            assert(p0.spec_bytes() =~= b.subrange(0, 2));
            assert(p1.spec_bytes() =~= b.subrange(2, 4));
            assert(p2.spec_bytes() =~= b.subrange(4, 6));
        }
        Color { r: read_channel(p0), g: read_channel(p1), b: read_channel(p2), a: 255 }
    } else if n == 3 {
        let (p0, rest) = hex.split_at(1);
        proof {
            valid_utf8_split(b, 1);
            assert(rest.spec_bytes() =~= b.subrange(1, 3));
            is_char_boundary_iff_not_is_continuation_byte(b, 2);
            is_char_boundary_iff_not_is_continuation_byte(rest.spec_bytes(), 1);
        }
        let (p1, p2) = rest.split_at(1);
        proof {
            assert(p0.spec_bytes() =~= b.subrange(0, 1));
            assert(p1.spec_bytes() =~= b.subrange(1, 2));
            assert(p2.spec_bytes() =~= b.subrange(2, 3));
        }
        Color {
            r: read_short_channel(p0),
            g: read_short_channel(p1),
            b: read_short_channel(p2),
            a: 255,
        }
    } else {
        Color { r: 0, g: 0, b: 0, a: 255 }
    }
}


// ---------------------------------------------------------------------------
// Selectors
// ---------------------------------------------------------------------------

pub open spec fn empty_selector() -> SpecSimpleSelector {
    SpecSimpleSelector { tag_name: None, id: None, class: Seq::empty() }
}

/// Reads the id and class parts of a simple selector from position `p` on, given
/// the selector read so far and whether anything has been read: each hash token sets
/// the id, each `.` followed by an identifier adds a class, and a `.` followed by
/// anything else fails. Stops before the first other token; gives the selector, the
/// position it stopped at and whether anything was read.
pub open spec fn selector_tail(t: Seq<SpecToken>, p: int, sel: SpecSimpleSelector, matched: bool) -> Option<(SpecSimpleSelector, int, bool)>
    decreases t.len() - p,
{
    if p < 0 || p >= t.len() {
        Some((sel, p, matched))
    } else {
        match t[p] {
            SpecToken::Hash(n) => selector_tail(t, p + 1, SpecSimpleSelector { tag_name: sel.tag_name, id: Some(n), class: sel.class }, true),
            SpecToken::IDHash(n) => selector_tail(t, p + 1, SpecSimpleSelector { tag_name: sel.tag_name, id: Some(n), class: sel.class }, true),
            SpecToken::Delim(c) => {
                if c == '.' {
                    if p + 1 < t.len() && t[p + 1] is Ident {
                        selector_tail(t, p + 2, SpecSimpleSelector { tag_name: sel.tag_name, id: sel.id, class: sel.class.push(t[p + 1]->Ident_0) }, true)
                    } else {
                        None
                    }
                } else {
                    Some((sel, p, matched))
                }
            },
            _ => Some((sel, p, matched)),
        }
    }
}

/// A simple selector read from position `pos`: an optional tag name (an identifier)
/// or `*`, then ids and classes (see `selector_tail`). Fails when nothing at all was
/// read. Gives the selector and the position after it.
pub open spec fn spec_simple_selector(t: Seq<SpecToken>, pos: int) -> Option<(SpecSimpleSelector, int)> {
    let head: (SpecSimpleSelector, int, bool) = if 0 <= pos < t.len() && t[pos] is Ident {
        (SpecSimpleSelector { tag_name: Some(t[pos]->Ident_0), id: None, class: Seq::empty() }, pos + 1, true)
    } else if 0 <= pos < t.len() && t[pos] == SpecToken::Delim('*') {
        (empty_selector(), pos + 1, true)
    } else {
        (empty_selector(), pos, false)
    };
    match selector_tail(t, head.1, head.0, head.2) {
        Some((sel, p, matched)) => if matched { Some((sel, p)) } else { None },
        None => None,
    }
}

pub proof fn lemma_selector_tail(t: Seq<SpecToken>, p: int, sel: SpecSimpleSelector, matched: bool)
    requires
        0 <= p <= t.len(),
    ensures
        selector_tail(t, p, sel, matched) matches Some((s, q, m)) ==> p <= q <= t.len() && (m ==> matched || q > p),
    decreases t.len() - p,
{
    if p < t.len() {
        match t[p] {
            SpecToken::Hash(n) => lemma_selector_tail(t, p + 1, SpecSimpleSelector { tag_name: sel.tag_name, id: Some(n), class: sel.class }, true),
            SpecToken::IDHash(n) => lemma_selector_tail(t, p + 1, SpecSimpleSelector { tag_name: sel.tag_name, id: Some(n), class: sel.class }, true),
            SpecToken::Delim(c) => {
                if c == '.' && p + 1 < t.len() && t[p + 1] is Ident {
                    lemma_selector_tail(t, p + 2, SpecSimpleSelector { tag_name: sel.tag_name, id: sel.id, class: sel.class.push(t[p + 1]->Ident_0) }, true);
                }
            },
            _ => {},
        }
    }
}

/// A simple selector that reads takes at least one token.
pub proof fn lemma_simple_selector_advances(t: Seq<SpecToken>, pos: int)
    requires
        0 <= pos <= t.len(),
    ensures
        spec_simple_selector(t, pos) matches Some((s, q)) ==> pos < q <= t.len(),
{
    let head: (SpecSimpleSelector, int, bool) = if 0 <= pos < t.len() && t[pos] is Ident {
        (SpecSimpleSelector { tag_name: Some(t[pos]->Ident_0), id: None, class: Seq::empty() }, pos + 1, true)
    } else if 0 <= pos < t.len() && t[pos] == SpecToken::Delim('*') {
        (empty_selector(), pos + 1, true)
    } else {
        (empty_selector(), pos, false)
    };
    lemma_selector_tail(t, head.1, head.0, head.2);
}

/// A comma-separated list of simple selectors that spans the tokens from `pos` to
/// the end; fails if a selector fails or if tokens are left after the last one.
pub open spec fn spec_selector_list(t: Seq<SpecToken>, pos: int) -> Option<Seq<SpecSimpleSelector>>
    decreases t.len() - pos,
{
    if pos < 0 || pos > t.len() {
        None
    } else {
        match spec_simple_selector(t, pos) {
            None => None,
            Some((s, p)) => {
                proof {
                    lemma_simple_selector_advances(t, pos);
                }
                if p < t.len() && t[p] == SpecToken::Comma {
                    match spec_selector_list(t, p + 1) {
                        Some(rest) => Some(seq![s] + rest),
                        None => None,
                    }
                } else if p == t.len() {
                    Some(seq![s])
                } else {
                    None
                }
            },
        }
    }
}

fn clone_string(s: &String) -> (r: String)
    ensures
        r@ == s@,
{
    s.clone()
}

/// Reads one simple selector from `tokens[pos..]`; gives it with the position after
/// it, or `None` where the grammar fails.
pub fn parse_simple_selector(tokens: &Vec<CssToken>, pos: usize) -> (r: Option<(SimpleSelector, usize)>)
    requires
        pos <= tokens.len(),
    ensures
        match r {
            Some((s, p)) => spec_simple_selector(tokens_view(tokens@), pos as int) == Some((s@, p as int)),
            None => spec_simple_selector(tokens_view(tokens@), pos as int) is None,
        },
{
    let ghost tv = tokens_view(tokens@);
    let mut sel = SimpleSelector { tag_name: None, id: None, class: Vec::new() };
    let mut matched = false;
    let mut p = pos;
    assert(strings_view(sel.class@) =~= Seq::<Seq<char>>::empty());
    if p < tokens.len() {
        match &tokens[p] {
            CssToken::Ident(n) => {
                sel.tag_name = Some(clone_string(n));
                matched = true;
                p = p + 1;
            },
            CssToken::Delim(c) => {
                if *c == '*' {
                    matched = true;
                    p = p + 1;
                }
            },
            _ => {},
        }
    }
    let ghost target = selector_tail(tv, p as int, sel@, matched);
    assert(spec_simple_selector(tv, pos as int) == match target {
        Some((s, q, m)) => if m { Some((s, q)) } else { None },
        None => None::<(SpecSimpleSelector, int)>,
    });
    loop
        invariant
            tv == tokens_view(tokens@),
            pos <= p <= tokens.len(),
            selector_tail(tv, p as int, sel@, matched) == target,
            spec_simple_selector(tv, pos as int) == match target {
                Some((s, q, m)) => if m { Some((s, q)) } else { None },
                None => None::<(SpecSimpleSelector, int)>,
            },
        ensures
            selector_tail(tv, p as int, sel@, matched) == Some((sel@, p as int, matched)),
        decreases tokens.len() - p,
    {
        if p >= tokens.len() {
            break;
        }
        match &tokens[p] {
            CssToken::Hash(n) => {
                sel.id = Some(clone_string(n));
                matched = true;
                p = p + 1;
            },
            CssToken::IDHash(n) => {
                sel.id = Some(clone_string(n));
                matched = true;
                p = p + 1;
            },
            CssToken::Delim(c) => {
                if *c == '.' {
                    if p + 1 < tokens.len() {
                        match &tokens[p + 1] {
                            CssToken::Ident(cn) => {
                                let ghost old_class = sel.class@;
                                sel.class.push(clone_string(cn));
                                assert(strings_view(sel.class@) =~= strings_view(old_class).push(cn@));
                                matched = true;
                                p = p + 2;
                            },
                            _ => {
                                return None;
                            },
                        }
                    } else {
                        return None;
                    }
                } else {
                    break;
                }
            },
            _ => {
                break;
            },
        }
    }
    if matched {
        Some((sel, p))
    } else {
        None
    }
}

pub open spec fn prepend<A>(a: Seq<A>, rest: Option<Seq<A>>) -> Option<Seq<A>> {
    match rest {
        Some(r) => Some(a + r),
        None => None,
    }
}

pub open spec fn selectors_view(v: Seq<Selector>) -> Seq<SpecSimpleSelector> {
    v.map_values(|s: Selector| s@)
}

/// Reads the selector list that makes up the prelude of a rule; `None` where it is
/// not a comma-separated list of simple selectors spanning all the tokens.
pub fn parse_selector_list(tokens: &Vec<CssToken>) -> (r: Option<Vec<Selector>>)
    ensures
        match r {
            Some(v) => spec_selector_list(tokens_view(tokens@), 0) == Some(selectors_view(v@)),
            None => spec_selector_list(tokens_view(tokens@), 0) is None,
        },
{
    let ghost tv = tokens_view(tokens@);
    let mut sels: Vec<Selector> = Vec::new();
    let mut p: usize = 0;
    assert(selectors_view(sels@) =~= Seq::<SpecSimpleSelector>::empty());
    assert(prepend(Seq::<SpecSimpleSelector>::empty(), spec_selector_list(tv, 0)) =~= spec_selector_list(tv, 0)) by {
        if let Some(r) = spec_selector_list(tv, 0) {
            assert(Seq::<SpecSimpleSelector>::empty() + r =~= r);
        }
    }
    loop
        invariant
            tv == tokens_view(tokens@),
            p <= tokens.len(),
            spec_selector_list(tv, 0) == prepend(selectors_view(sels@), spec_selector_list(tv, p as int)),
        decreases tokens.len() - p,
    {
        proof {
            lemma_simple_selector_advances(tv, p as int);
        }
        match parse_simple_selector(tokens, p) {
            None => {
                return None;
            },
            Some((s, q)) => {
                let ghost before = selectors_view(sels@);
                let ghost sv = s@;
                sels.push(Selector::Simple(s));
                assert(selectors_view(sels@) =~= before.push(sv));
                if q < tokens.len() && matches!(tokens[q], CssToken::Comma) {
                    assert(tv[q as int] == SpecToken::Comma);
                    proof {
                        match spec_selector_list(tv, q + 1) {
                            Some(rest) => {
                                assert(before + (seq![sv] + rest) =~= before.push(sv) + rest);
                            },
                            None => {},
                        }
                    }
                    p = q + 1;
                } else if q == tokens.len() {
                    assert(before + seq![sv] =~= before.push(sv));
                    return Some(sels);
                } else {
                    assert(tv[q as int] != SpecToken::Comma);
                    return None;
                }
            },
        }
    }
}


// ---------------------------------------------------------------------------
// Declarations and values
// ---------------------------------------------------------------------------

/// What reading a value gives: a value, no value (the token is of another kind, or
/// there is none), or a hash name that `parse_color_hex` would cut inside a character.
pub enum ValueOutcome {
    Read(SpecValue),
    NotAValue,
    CutsCharacter,
}

pub open spec fn hash_value(n: Seq<char>) -> ValueOutcome {
    let b = encode_utf8(n);
    if hex_cuts_on_boundaries(b) {
        ValueOutcome::Read(SpecValue::ColorValue(spec_color_hex(b)))
    } else {
        ValueOutcome::CutsCharacter
    }
}

/// The value that the token at position `p` denotes: a number or a dimension (in
/// any unit) is a length in pixels, a hash is a colour, an identifier is a keyword.
pub open spec fn spec_css_value(t: Seq<SpecToken>, p: int) -> ValueOutcome {
    if 0 <= p < t.len() {
        match t[p] {
            SpecToken::Dimension(v, _) => ValueOutcome::Read(SpecValue::Length(v, Unit::Px)),
            SpecToken::Number(v) => ValueOutcome::Read(SpecValue::Length(v, Unit::Px)),
            SpecToken::Hash(n) => hash_value(n),
            SpecToken::IDHash(n) => hash_value(n),
            SpecToken::Ident(n) => ValueOutcome::Read(SpecValue::Keyword(n)),
            _ => ValueOutcome::NotAValue,
        }
    } else {
        ValueOutcome::NotAValue
    }
}

/// Skipping the rest of a bad declaration from position `p`: the position after the
/// next `;`, or `None` where a `}` or the end of the tokens comes first.
pub open spec fn skip_to(t: Seq<SpecToken>, p: int) -> Option<int>
    decreases t.len() - p,
{
    if p < 0 || p >= t.len() {
        None
    } else {
        match t[p] {
            SpecToken::Semicolon => Some(p + 1),
            SpecToken::CloseCurlyBracket => None,
            _ => skip_to(t, p + 1),
        }
    }
}

pub proof fn lemma_skip_to(t: Seq<SpecToken>, p: int)
    ensures
        skip_to(t, p) matches Some(q) ==> p < q <= t.len(),
    decreases t.len() - p,
{
    if 0 <= p < t.len() {
        lemma_skip_to(t, p + 1);
    }
}

/// The declarations of a block read from position `pos`: `name: value` with `name`
/// an identifier, each ended by `;`, by `}` or by the end of the tokens. A
/// declaration whose colon or value is missing, or whose value is followed by
/// anything else, is skipped up to the next `;` (a complete `name: value` followed
/// by other tokens is kept). A `}` ends the block. `None` where a value is a hash
/// name that `parse_color_hex` would cut inside a character.
pub open spec fn spec_block(t: Seq<SpecToken>, pos: int) -> Option<Seq<(Seq<char>, SpecValue)>>
    decreases t.len() - pos,
{
    if pos < 0 || pos >= t.len() {
        Some(Seq::empty())
    } else {
        proof {
            lemma_skip_to(t, pos + 1);
            lemma_skip_to(t, pos + 2);
            lemma_skip_to(t, pos + 3);
            lemma_skip_to(t, pos + 4);
        }
        match t[pos] {
            SpecToken::CloseCurlyBracket => Some(Seq::empty()),
            SpecToken::Semicolon => spec_block(t, pos + 1),
            SpecToken::Ident(name) => {
                if pos + 1 < t.len() && t[pos + 1] == SpecToken::Colon {
                    match spec_css_value(t, pos + 2) {
                        ValueOutcome::CutsCharacter => None,
                        ValueOutcome::Read(v) => prepend(
                            seq![(name, v)],
                            if pos + 3 >= t.len() {
                                Some(Seq::empty())
                            } else if t[pos + 3] == SpecToken::Semicolon {
                                spec_block(t, pos + 4)
                            } else if t[pos + 3] == SpecToken::CloseCurlyBracket {
                                Some(Seq::empty())
                            } else {
                                match skip_to(t, pos + 4) {
                                    Some(q) => spec_block(t, q),
                                    None => Some(Seq::empty()),
                                }
                            },
                        ),
                        ValueOutcome::NotAValue => match skip_to(t, pos + 3) {
                            Some(q) => spec_block(t, q),
                            None => Some(Seq::empty()),
                        },
                    }
                } else {
                    match skip_to(t, pos + 2) {
                        Some(q) => spec_block(t, q),
                        None => Some(Seq::empty()),
                    }
                }
            },
            _ => match skip_to(t, pos + 1) {
                Some(q) => spec_block(t, q),
                None => Some(Seq::empty()),
            },
        }
    }
}

/// Whether the bytes of a hash name can be cut where `parse_color_hex` cuts them.
pub fn hex_cuts_cleanly(hex: &str) -> (ok: bool)
    ensures
        ok == hex_cuts_on_boundaries(hex.spec_bytes()),
{
    let n = hex.as_bytes().len();
    if n == 6 {
        hex.is_char_boundary(2) && hex.is_char_boundary(4)
    } else if n == 3 {
        hex.is_char_boundary(1) && hex.is_char_boundary(2)
    } else {
        true
    }
}

fn value_cuts_character(tokens: &Vec<CssToken>, p: usize) -> (cuts: bool)
    ensures
        cuts == (spec_css_value(tokens_view(tokens@), p as int) is CutsCharacter),
{
    if p < tokens.len() {
        match &tokens[p] {
            CssToken::Hash(n) => !hex_cuts_cleanly(n.as_str()),
            CssToken::IDHash(n) => !hex_cuts_cleanly(n.as_str()),
            _ => false,
        }
    } else {
        false
    }
}

/// Reads the value at `tokens[p]`: `Err(())` where there is no token there or it
/// denotes no value.
pub fn parse_css_value(tokens: &Vec<CssToken>, p: usize) -> (r: Result<Value, ()>)
    requires
        !(spec_css_value(tokens_view(tokens@), p as int) is CutsCharacter),
    ensures
        match r {
            Ok(v) => spec_css_value(tokens_view(tokens@), p as int) == ValueOutcome::Read(v@),
            Err(()) => spec_css_value(tokens_view(tokens@), p as int) is NotAValue,
        },
{
    if p >= tokens.len() {
        return Err(());
    }
    match &tokens[p] {
        CssToken::Dimension(v, _) => Ok(Value::Length(*v, Unit::Px)),
        CssToken::Number(v) => Ok(Value::Length(*v, Unit::Px)),
        CssToken::Hash(n) => Ok(Value::ColorValue(parse_color_hex(n.as_str()))),
        CssToken::IDHash(n) => Ok(Value::ColorValue(parse_color_hex(n.as_str()))),
        CssToken::Ident(n) => Ok(Value::Keyword(clone_string(n))),
        _ => Err(()),
    }
}

fn skip_declaration(tokens: &Vec<CssToken>, p: usize) -> (r: Option<usize>)
    ensures
        match r {
            Some(q) => skip_to(tokens_view(tokens@), p as int) == Some(q as int),
            None => skip_to(tokens_view(tokens@), p as int) is None,
        },
{
    let ghost tv = tokens_view(tokens@);
    let mut q = p;
    while q < tokens.len()
        invariant
            tv == tokens_view(tokens@),
            p <= q,
            skip_to(tv, q as int) == skip_to(tv, p as int),
        decreases tokens.len() - q,
    {
        match &tokens[q] {
            CssToken::Semicolon => {
                return Some(q + 1);
            },
            CssToken::CloseCurlyBracket => {
                return None;
            },
            _ => {
                q = q + 1;
            },
        }
    }
    None
}

pub open spec fn declarations_view(v: Seq<Declaration>) -> Seq<(Seq<char>, SpecValue)> {
    v.map_values(|d: Declaration| d@)
}

/// Reads the declarations of a rule's block; `None` where a value is a hash name
/// that `parse_color_hex` would cut inside a character.
pub fn parse_declaration_block(tokens: &Vec<CssToken>) -> (r: Option<Vec<Declaration>>)
    ensures
        match r {
            Some(v) => spec_block(tokens_view(tokens@), 0) == Some(declarations_view(v@)),
            None => spec_block(tokens_view(tokens@), 0) is None,
        },
{
    let ghost tv = tokens_view(tokens@);
    let mut decls: Vec<Declaration> = Vec::new();
    let mut p: usize = 0;
    assert(declarations_view(decls@) =~= Seq::<(Seq<char>, SpecValue)>::empty());
    assert(prepend(Seq::<(Seq<char>, SpecValue)>::empty(), spec_block(tv, 0)) =~= spec_block(tv, 0)) by {
        if let Some(r) = spec_block(tv, 0) {
            assert(Seq::<(Seq<char>, SpecValue)>::empty() + r =~= r);
        }
    }
    loop
        invariant
            tv == tokens_view(tokens@),
            p <= tokens.len(),
            spec_block(tv, 0) == prepend(declarations_view(decls@), spec_block(tv, p as int)),
        decreases tokens.len() - p,
    {
        let ghost dv = declarations_view(decls@);
        proof {
            lemma_skip_to(tv, p + 1);
            lemma_skip_to(tv, p + 2);
            lemma_skip_to(tv, p + 3);
            lemma_skip_to(tv, p + 4);
        }
        if p >= tokens.len() {
            assert(dv + Seq::<(Seq<char>, SpecValue)>::empty() =~= dv);
            return Some(decls);
        }
        let resume: Option<usize>;
        match &tokens[p] {
            CssToken::CloseCurlyBracket => {
                assert(dv + Seq::<(Seq<char>, SpecValue)>::empty() =~= dv);
                return Some(decls);
            },
            CssToken::Semicolon => {
                resume = Some(p + 1);
            },
            CssToken::Ident(name) => {
                if p + 1 < tokens.len() && matches!(tokens[p + 1], CssToken::Colon) {
                    assert(tv[p + 1] == SpecToken::Colon);
                    if value_cuts_character(tokens, p + 2) {
                        return None;
                    }
                    match parse_css_value(tokens, p + 2) {
                        Ok(v) => {
                            let ghost d = (name@, v@);
                            decls.push(Declaration { name: clone_string(name), value: v });
                            assert(declarations_view(decls@) =~= dv.push(d));
                            proof {
                                match spec_block(tv, p as int) {
                                    Some(rest) => {
                                        assert(dv + rest =~= dv.push(d) + rest.drop_first());
                                    },
                                    None => {},
                                }
                            }
                            if p + 3 >= tokens.len() {
                                assert(dv + seq![d] =~= dv.push(d));
                                return Some(decls);
                            }
                            match &tokens[p + 3] {
                                CssToken::Semicolon => {
                                    resume = Some(p + 4);
                                },
                                CssToken::CloseCurlyBracket => {
                                    assert(dv + seq![d] =~= dv.push(d));
                                    return Some(decls);
                                },
                                _ => {
                                    resume = skip_declaration(tokens, p + 4);
                                },
                            }
                        },
                        Err(()) => {
                            resume = if p + 2 < tokens.len() {
                                skip_declaration(tokens, p + 3)
                            } else {
                                None
                            };
                        },
                    }
                } else {
                    resume = if p + 1 < tokens.len() {
                        skip_declaration(tokens, p + 2)
                    } else {
                        None
                    };
                }
            },
            _ => {
                resume = skip_declaration(tokens, p + 1);
            },
        }
        match resume {
            Some(q) => {
                p = q;
            },
            None => {
                assert(declarations_view(decls@) + Seq::<(Seq<char>, SpecValue)>::empty() =~= declarations_view(decls@));
                return Some(decls);
            },
        }
    }
}


// ---------------------------------------------------------------------------
// Style sheets
// ---------------------------------------------------------------------------

/// The tokens of one qualified rule as the tokenizer splits a style sheet: those of
/// the prelude before the `{`, and those inside the block.
#[derive(Debug)]
pub struct QualifiedRuleTokens {
    pub prelude: Vec<CssToken>,
    pub block: Vec<CssToken>,
}

impl View for QualifiedRuleTokens {
    type V = (Seq<SpecToken>, Seq<SpecToken>);

    open spec fn view(&self) -> (Seq<SpecToken>, Seq<SpecToken>) {
        (tokens_view(self.prelude@), tokens_view(self.block@))
    }
}

/// What one qualified rule gives: `Some(Some(rule))` for a rule, `Some(None)` where
/// its prelude is not a selector list (the rule is dropped), `None` where a value of
/// its block is a hash name that `parse_color_hex` would cut inside a character.
pub open spec fn spec_rule(prelude: Seq<SpecToken>, block: Seq<SpecToken>) -> Option<Option<SpecRule>> {
    match spec_selector_list(prelude, 0) {
        None => Some(None),
        Some(sels) => match spec_block(block, 0) {
            None => None,
            Some(decls) => Some(Some(SpecRule { selector: sels, declaration: decls })),
        },
    }
}

/// The rules of a style sheet, in order: each qualified rule whose prelude is a
/// selector list; `None` where one of them cuts a hash name inside a character.
pub open spec fn spec_stylesheet(rules: Seq<(Seq<SpecToken>, Seq<SpecToken>)>) -> Option<Seq<SpecRule>>
    decreases rules.len(),
{
    if rules.len() == 0 {
        Some(Seq::empty())
    } else {
        match spec_stylesheet(rules.drop_last()) {
            None => None,
            Some(prev) => match spec_rule(rules.last().0, rules.last().1) {
                None => None,
                Some(None) => Some(prev),
                Some(Some(r)) => Some(prev.push(r)),
            },
        }
    }
}

pub open spec fn raw_rules_view(v: Seq<QualifiedRuleTokens>) -> Seq<(Seq<SpecToken>, Seq<SpecToken>)> {
    v.map_values(|r: QualifiedRuleTokens| r@)
}

/// Builds the style sheet from the qualified rules of its source, in order, dropping
/// each rule whose prelude is not a selector list. `None` where a declared value is
/// a hash name whose bytes `parse_color_hex` would cut inside a character (reading
/// the style sheet panics there).
pub fn parse_rules(rules: &Vec<QualifiedRuleTokens>) -> (r: Option<Stylesheet>)
    ensures
        match r {
            Some(sheet) => spec_stylesheet(raw_rules_view(rules@)) == Some(sheet@),
            None => spec_stylesheet(raw_rules_view(rules@)) is None,
        },
{
    let ghost rv = raw_rules_view(rules@);
    let mut out: Vec<Rule> = Vec::new();
    let mut i: usize = 0;
    while i < rules.len()
        invariant
            rv == raw_rules_view(rules@),
            i <= rules.len(),
            spec_stylesheet(rv.take(i as int)) == Some(out@.map_values(|r: Rule| r@)),
        decreases rules.len() - i,
    {
        let ghost before = out@.map_values(|r: Rule| r@);
        assert(rv.take(i + 1).drop_last() =~= rv.take(i as int));
        assert(rv.take(i + 1).last() == rules@[i as int]@);
        let raw = &rules[i];
        match parse_selector_list(&raw.prelude) {
            None => {},
            Some(selector) => {
                match parse_declaration_block(&raw.block) {
                    None => {
                        proof {
                            lemma_stylesheet_stays_none(rv, i as int + 1);
                        }
                        assert(rv.take(rules.len() as int) =~= rv);
                        return None;
                    },
                    Some(declaration) => {
                        let rule = Rule { selector, declaration };
                        let ghost rv_rule = rule@;
                        out.push(rule);
                        assert(out@.map_values(|r: Rule| r@) =~= before.push(rv_rule));
                    },
                }
            },
        }
        i = i + 1;
    }
    assert(rv.take(rules.len() as int) =~= rv);
    Some(Stylesheet { rules: out })
}

proof fn lemma_stylesheet_stays_none(rules: Seq<(Seq<SpecToken>, Seq<SpecToken>)>, n: int)
    requires
        0 <= n <= rules.len(),
        spec_stylesheet(rules.take(n)) is None,
    ensures
        spec_stylesheet(rules.take(rules.len() as int)) is None,
    decreases rules.len() - n,
{
    if n < rules.len() {
        assert(rules.take(n + 1).drop_last() =~= rules.take(n));
        lemma_stylesheet_stays_none(rules, n + 1);
    }
}

} // verus!
