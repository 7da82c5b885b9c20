//! Properties that hold of the library as a whole.

use vstd::prelude::*;
use crate::css_logic::{
    Color, spec_selector_list, lemma_simple_selector_advances, SpecValue as Val, ValueOutcome, spec_simple_selector, selector_tail, empty_selector,
    SpecSimpleSelector, SpecRule, SpecValue, SpecToken, spec_color_hex, channel, spec_stylesheet,
    spec_rule, spec_block, spec_css_value, hex_cuts_on_boundaries, skip_to, lemma_skip_to,
};
use crate::html_logic::{SpecNodeData, Node, walk_lines, node_lines, children_lines, spaces, attrs_text};
use crate::style_logic::{
    spec_matches, has_class, rule_matches, matched_rules, apply_declarations, apply_rules,
    specified_values, lemma_matched_rules_in_order, attr_value, styled_as, children_styled_as, StyledNode,
};
use crate::text::{words, hex_digit_value, hex_digits_value, is_white_space, trimmed, trim_start, trim_end};
use vstd::utf8::encode_utf8;

verus! {

// ---------------------------------------------------------------------------
// Matching
// ---------------------------------------------------------------------------

/// A selector without tag name, id or classes matches every element, and no
/// selector matches a node that is not an element.
pub proof fn law_unconditional_selector_matches_elements(data: SpecNodeData, sel: SpecSimpleSelector)
    ensures
        data is Element ==> spec_matches(data, SpecSimpleSelector { tag_name: None, id: None, class: Seq::empty() }),
        !(data is Element) ==> !spec_matches(data, sel),
{
}

/// A selector asking for the classes `c1` and then `c2` matches a node exactly when
/// the same selector asking for `c1` only and the one asking for `c2` only both match it.
pub proof fn law_classes_are_conjoined(
    data: SpecNodeData,
    tag_name: Option<Seq<char>>,
    id: Option<Seq<char>>,
    c1: Seq<Seq<char>>,
    c2: Seq<Seq<char>>,
)
    ensures
        spec_matches(data, SpecSimpleSelector { tag_name, id, class: c1 + c2 }) == (spec_matches(
            data,
            SpecSimpleSelector { tag_name, id, class: c1 },
        ) && spec_matches(data, SpecSimpleSelector { tag_name, id, class: c2 })),
{
    if let SpecNodeData::Element(name, attrs) = data {
        let s0 = SpecSimpleSelector { tag_name, id, class: c1 + c2 };
        let s1 = SpecSimpleSelector { tag_name, id, class: c1 };
        let s2 = SpecSimpleSelector { tag_name, id, class: c2 };
        let f = forall|k: int| 0 <= k < s0.class.len() ==> #[trigger] has_class(attrs, s0.class[k]);
        let f1 = forall|k: int| 0 <= k < s1.class.len() ==> #[trigger] has_class(attrs, s1.class[k]);
        let f2 = forall|k: int| 0 <= k < s2.class.len() ==> #[trigger] has_class(attrs, s2.class[k]);
        assert(f ==> f1) by {
            if f {
                assert forall|k: int| 0 <= k < s1.class.len() implies #[trigger] has_class(attrs, s1.class[k]) by {
                    assert(s0.class[k] == c1[k]);
                }
            }
        }
        assert(f ==> f2) by {
            if f {
                assert forall|k: int| 0 <= k < s2.class.len() implies #[trigger] has_class(attrs, s2.class[k]) by {
                    assert(s0.class[c1.len() + k] == c2[k]);
                }
            }
        }
        assert(f1 && f2 ==> f) by {
            if f1 && f2 {
                assert forall|k: int| 0 <= k < s0.class.len() implies #[trigger] has_class(attrs, s0.class[k]) by {
                    if k < c1.len() {
                        assert(s0.class[k] == s1.class[k]);
                    } else {
                        assert(s0.class[k] == s2.class[k - c1.len()]);
                    }
                }
            }
        }
    }
}

// ---------------------------------------------------------------------------
// Colours
// ---------------------------------------------------------------------------

/// Every colour read from a hash name is opaque.
pub proof fn law_colors_are_opaque(b: Seq<u8>)
    ensures
        spec_color_hex(b).a == 255,
{
}

proof fn lemma_doubled_digit(x: u8)
    ensures
        channel(seq![x, x]) == channel(seq![x]) * 17,
        channel(seq![x]) < 16,
{
    reveal_with_fuel(hex_digits_value, 3);
    assert(seq![x, x].drop_last() =~= seq![x]);
    assert(seq![x].drop_last() =~= Seq::<u8>::empty());
    assert(seq![x, x].drop_first() =~= seq![x]);
}

/// The three-digit form `#rgb` denotes the same colour as the six-digit form
/// `#rrggbb` that repeats each digit.
pub proof fn law_short_hex_repeats_digits(b: Seq<u8>)
    requires
        b.len() == 3,
    ensures
        spec_color_hex(b) == spec_color_hex(seq![b[0], b[0], b[1], b[1], b[2], b[2]]),
{
    let l = seq![b[0], b[0], b[1], b[1], b[2], b[2]];
    lemma_doubled_digit(b[0]);
    lemma_doubled_digit(b[1]);
    lemma_doubled_digit(b[2]);
    assert(b.subrange(0, 1) =~= seq![b[0]]);
    assert(b.subrange(1, 2) =~= seq![b[1]]);
    assert(b.subrange(2, 3) =~= seq![b[2]]);
    assert(l.subrange(0, 2) =~= seq![b[0], b[0]]);
    assert(l.subrange(2, 4) =~= seq![b[1], b[1]]);
    assert(l.subrange(4, 6) =~= seq![b[2], b[2]]);
}

/// The value of the hexadecimal digit `b`, which must be one.
pub open spec fn hv(b: u8) -> int {
    match hex_digit_value(b) {
        Some(v) => v,
        None => 0,
    }
}

/// Six hexadecimal digits give two digits per channel, most significant first, in
/// either case.
pub proof fn law_six_hex_digits(b: Seq<u8>)
    requires
        b.len() == 6,
        forall|i: int| 0 <= i < 6 ==> (#[trigger] hex_digit_value(b[i])) is Some,
    ensures
        spec_color_hex(b) == (Color {
            r: (16 * hv(b[0]) + hv(b[1])) as u8,
            g: (16 * hv(b[2]) + hv(b[3])) as u8,
            b: (16 * hv(b[4]) + hv(b[5])) as u8,
            a: 255,
        }),
{
    assert(hex_digit_value(b[0]) is Some);
    assert(hex_digit_value(b[1]) is Some);
    assert(hex_digit_value(b[2]) is Some);
    assert(hex_digit_value(b[3]) is Some);
    assert(hex_digit_value(b[4]) is Some);
    assert(hex_digit_value(b[5]) is Some);
    lemma_two_digits(b[0], b[1]);
    lemma_two_digits(b[2], b[3]);
    lemma_two_digits(b[4], b[5]);
    assert(b.subrange(0, 2) =~= seq![b[0], b[1]]);
    assert(b.subrange(2, 4) =~= seq![b[2], b[3]]);
    assert(b.subrange(4, 6) =~= seq![b[4], b[5]]);
}

proof fn lemma_two_digits(x: u8, y: u8)
    requires
        hex_digit_value(x) is Some,
        hex_digit_value(y) is Some,
    ensures
        channel(seq![x, y]) == (16 * hv(x) + hv(y)) as u8,
        0 <= 16 * hv(x) + hv(y) <= 255,
{
    reveal_with_fuel(hex_digits_value, 3);
    assert(seq![x, y].drop_last() =~= seq![x]);
    assert(seq![x].drop_last() =~= Seq::<u8>::empty());
}

/// The digit that writes `v` (below 16) in hexadecimal, in lower or upper case.
pub open spec fn hex_digit_byte(v: int, upper: bool) -> u8 {
    if v < 10 {
        (48 + v) as u8
    } else if upper {
        (55 + v) as u8
    } else {
        (87 + v) as u8
    }
}

/// A byte written as two hexadecimal digits, as `{:02x}` (or `{:02X}`) writes it.
pub open spec fn hex_byte(x: u8, upper: bool) -> Seq<u8> {
    seq![hex_digit_byte((x / 16) as int, upper), hex_digit_byte((x % 16) as int, upper)]
}

/// Writing the channels of a colour as six hexadecimal digits and reading them back
/// gives the colour, opaque.
pub proof fn law_hex_colour_round_trip(r: u8, g: u8, b: u8, upper: bool)
    ensures
        spec_color_hex(hex_byte(r, upper) + hex_byte(g, upper) + hex_byte(b, upper)) == (Color { r, g, b, a: 255 }),
{
    let s = hex_byte(r, upper) + hex_byte(g, upper) + hex_byte(b, upper);
    assert forall|x: u8| #![trigger hex_byte(x, upper)]
        hex_digit_value(hex_byte(x, upper)[0]) == Some((x / 16) as int)
            && hex_digit_value(hex_byte(x, upper)[1]) == Some((x % 16) as int) by {}
    assert(forall|i: int| 0 <= i < 6 ==> (#[trigger] hex_digit_value(s[i])) is Some) by {
        assert(s[0] == hex_byte(r, upper)[0]);
        assert(s[1] == hex_byte(r, upper)[1]);
        assert(s[2] == hex_byte(g, upper)[0]);
        assert(s[3] == hex_byte(g, upper)[1]);
        assert(s[4] == hex_byte(b, upper)[0]);
        assert(s[5] == hex_byte(b, upper)[1]);
    }
    law_six_hex_digits(s);
}

// ---------------------------------------------------------------------------
// Style sheets
// ---------------------------------------------------------------------------

/// The rules of two consecutive parts of a style sheet are the rules of the first
/// part followed by those of the second; reading fails where either part fails.
pub proof fn law_stylesheet_concatenates(
    a: Seq<(Seq<SpecToken>, Seq<SpecToken>)>,
    b: Seq<(Seq<SpecToken>, Seq<SpecToken>)>,
)
    ensures
        spec_stylesheet(a + b) == match (spec_stylesheet(a), spec_stylesheet(b)) {
            (Some(x), Some(y)) => Some(x + y),
            _ => None::<Seq<SpecRule>>,
        },
    decreases b.len(),
{
    if b.len() == 0 {
        assert(a + b =~= a);
        if let Some(x) = spec_stylesheet(a) {
            assert(x + Seq::<SpecRule>::empty() =~= x);
        }
    } else {
        assert((a + b).drop_last() =~= a + b.drop_last());
        assert((a + b).last() == b.last());
        law_stylesheet_concatenates(a, b.drop_last());
        match (spec_stylesheet(a), spec_stylesheet(b.drop_last())) {
            (Some(x), Some(y)) => {
                if let Some(Some(r)) = spec_rule(b.last().0, b.last().1) {
                    assert((x + y).push(r) =~= x + y.push(r));
                }
            },
            _ => {},
        }
    }
}

/// Reading the declarations of a block fails only on a value that is a hash name
/// whose bytes `parse_color_hex` would cut inside a character: where every hash
/// name in the block can be cut, reading succeeds.
pub proof fn law_block_fails_only_on_cut_hash_names(t: Seq<SpecToken>, pos: int)
    requires
        forall|i: int| 0 <= i < t.len() ==> (#[trigger] t[i] matches SpecToken::Hash(n) ==> hex_cuts_on_boundaries(encode_utf8(n))),
        forall|i: int| 0 <= i < t.len() ==> (#[trigger] t[i] matches SpecToken::IDHash(n) ==> hex_cuts_on_boundaries(encode_utf8(n))),
    ensures
        spec_block(t, pos) is Some,
    decreases t.len() - pos,
{
    if 0 <= pos < t.len() {
        lemma_skip_to(t, pos + 1);
        lemma_skip_to(t, pos + 2);
        lemma_skip_to(t, pos + 3);
        lemma_skip_to(t, pos + 4);
        if let Some(q) = skip_to(t, pos + 1) {
            law_block_fails_only_on_cut_hash_names(t, q);
        }
        if let Some(q) = skip_to(t, pos + 2) {
            law_block_fails_only_on_cut_hash_names(t, q);
        }
        if let Some(q) = skip_to(t, pos + 3) {
            law_block_fails_only_on_cut_hash_names(t, q);
        }
        if let Some(q) = skip_to(t, pos + 4) {
            law_block_fails_only_on_cut_hash_names(t, q);
        }
        law_block_fails_only_on_cut_hash_names(t, pos + 1);
        if pos + 4 <= t.len() {
            law_block_fails_only_on_cut_hash_names(t, pos + 4);
        }
        if pos + 2 < t.len() {
            assert(!(spec_css_value(t, pos + 2) is CutsCharacter));
        }
    }
}

/// An empty list of rules gives an empty style sheet, and a single rule gives
/// itself where its prelude reads, nothing where it does not.
pub proof fn law_stylesheet_of_one_rule(x: (Seq<SpecToken>, Seq<SpecToken>))
    ensures
        spec_stylesheet(Seq::empty()) == Some(Seq::<SpecRule>::empty()),
        spec_stylesheet(seq![x]) == match spec_rule(x.0, x.1) {
            None => None,
            Some(None) => Some(Seq::<SpecRule>::empty()),
            Some(Some(r)) => Some(seq![r]),
        },
{
    assert(seq![x].drop_last() =~= Seq::<(Seq<SpecToken>, Seq<SpecToken>)>::empty());
    if let Some(Some(r)) = spec_rule(x.0, x.1) {
        assert(Seq::<SpecRule>::empty().push(r) =~= seq![r]);
    }
}

// ---------------------------------------------------------------------------
// Specified values
// ---------------------------------------------------------------------------

proof fn lemma_apply_rules_ignores_later_rules(rules: Seq<SpecRule>, r: SpecRule, idx: Seq<int>)
    requires
        forall|a: int| 0 <= a < idx.len() ==> 0 <= #[trigger] idx[a] < rules.len(),
    ensures
        apply_rules(rules.push(r), idx) == apply_rules(rules, idx),
    decreases idx.len(),
{
    if idx.len() > 0 {
        lemma_apply_rules_ignores_later_rules(rules, r, idx.drop_last());
        assert(idx.last() == idx[idx.len() - 1]);
        assert(rules.push(r)[idx.last()] == rules[idx.last()]);
    }
}

/// The rules that match a node are listed each once, in source order, and no
/// other rule is listed.
pub proof fn law_matched_rules_are_the_matching_rules(data: SpecNodeData, rules: Seq<SpecRule>, i: int)
    ensures
        matched_rules(data, rules).contains(i) == (0 <= i < rules.len() && rule_matches(data, rules[i])),
        forall|a: int, b: int| 0 <= a < b < matched_rules(data, rules).len() ==> matched_rules(data, rules)[a] < matched_rules(data, rules)[b],
    decreases rules.len(),
{
    lemma_matched_rules_in_order(data, rules);
    if rules.len() > 0 {
        let init = rules.drop_last();
        law_matched_rules_are_the_matching_rules(data, init, i);
        let m = matched_rules(data, rules);
        let p = matched_rules(data, init);
        if p.contains(i) {
            let a = choose|a: int| 0 <= a < p.len() && p[a] == i;
            assert(m[a] == i);
        }
        if m.contains(i) {
            let a = choose|a: int| 0 <= a < m.len() && m[a] == i;
            if a < p.len() {
                assert(p[a] == i);
            }
        }
        if i == rules.len() - 1 && rule_matches(data, rules[i]) {
            assert(rules.last() == rules[i]);
            assert(m[m.len() - 1] == i);
        }
        if 0 <= i < init.len() {
            assert(init[i] == rules[i]);
        }
    }
}

/// Adding a rule at the end of a style sheet leaves the values specified for a node
/// unchanged where the rule does not match it, and otherwise applies the rule's
/// declarations over them: a later matching rule overrides earlier ones.
pub proof fn law_appended_rule_overrides(data: SpecNodeData, rules: Seq<SpecRule>, r: SpecRule)
    ensures
        specified_values(data, rules.push(r)) == if rule_matches(data, r) {
            apply_declarations(specified_values(data, rules), r.declaration)
        } else {
            specified_values(data, rules)
        },
{
    let rp = rules.push(r);
    assert(rp.drop_last() =~= rules);
    assert(rp.last() == r);
    let prev = matched_rules(data, rules);
    lemma_matched_rules_in_order(data, rules);
    lemma_apply_rules_ignores_later_rules(rules, r, prev);
    if rule_matches(data, r) {
        let idx = prev.push(rules.len() as int);
        assert(idx.drop_last() =~= prev);
        assert(rp[rules.len() as int] == r);
    }
}

proof fn lemma_declared_keys(m: Map<Seq<char>, SpecValue>, d: Seq<(Seq<char>, SpecValue)>, k: Seq<char>)
    ensures
        apply_declarations(m, d).contains_key(k) == (m.contains_key(k) || exists|j: int| 0 <= j < d.len() && (#[trigger] d[j]).0 == k),
    decreases d.len(),
{
    if d.len() > 0 {
        lemma_declared_keys(m, d.drop_last(), k);
        if exists|j: int| 0 <= j < d.drop_last().len() && (#[trigger] d.drop_last()[j]).0 == k {
            let j = choose|j: int| 0 <= j < d.drop_last().len() && (#[trigger] d.drop_last()[j]).0 == k;
            assert(d[j] == d.drop_last()[j]);
        }
        if exists|j: int| 0 <= j < d.len() && (#[trigger] d[j]).0 == k {
            let j = choose|j: int| 0 <= j < d.len() && (#[trigger] d[j]).0 == k;
            if j < d.len() - 1 {
                assert(d.drop_last()[j] == d[j]);
            }
        }
        assert(d.last() == d[d.len() - 1]);
    }
}

/// A property has a specified value for a node exactly when some rule that matches
/// the node declares it.
pub proof fn law_specified_exactly_when_declared(data: SpecNodeData, rules: Seq<SpecRule>, k: Seq<char>)
    ensures
        specified_values(data, rules).contains_key(k) == exists|i: int, j: int|
            0 <= i < rules.len() && rule_matches(data, #[trigger] rules[i]) && 0 <= j < rules[i].declaration.len()
                && (#[trigger] rules[i].declaration[j]).0 == k,
    decreases rules.len(),
{
    if rules.len() == 0 {
        assert(matched_rules(data, rules) =~= Seq::<int>::empty());
    } else {
        let init = rules.drop_last();
        let r = rules.last();
        assert(init.push(r) =~= rules);
        law_specified_exactly_when_declared(data, init, k);
        law_appended_rule_overrides(data, init, r);
        if rule_matches(data, r) {
            lemma_declared_keys(specified_values(data, init), r.declaration, k);
        }
        let p = exists|i: int, j: int|
            0 <= i < rules.len() && rule_matches(data, #[trigger] rules[i]) && 0 <= j < rules[i].declaration.len()
                && (#[trigger] rules[i].declaration[j]).0 == k;
        let q = exists|i: int, j: int|
            0 <= i < init.len() && rule_matches(data, #[trigger] init[i]) && 0 <= j < init[i].declaration.len()
                && (#[trigger] init[i].declaration[j]).0 == k;
        let last = rule_matches(data, r) && exists|j: int| 0 <= j < r.declaration.len() && (#[trigger] r.declaration[j]).0 == k;
        if p {
            let (i, j) = choose|i: int, j: int|
                0 <= i < rules.len() && rule_matches(data, #[trigger] rules[i]) && 0 <= j < rules[i].declaration.len()
                    && (#[trigger] rules[i].declaration[j]).0 == k;
            if i < init.len() {
                assert(init[i] == rules[i]);
                assert(init[i].declaration[j].0 == k);
            } else {
                assert(rules[i] == r);
                assert(r.declaration[j].0 == k);
            }
        }
        if q {
            let (i, j) = choose|i: int, j: int|
                0 <= i < init.len() && rule_matches(data, #[trigger] init[i]) && 0 <= j < init[i].declaration.len()
                    && (#[trigger] init[i].declaration[j]).0 == k;
            assert(rules[i] == init[i]);
            assert(rules[i].declaration[j].0 == k);
        }
        if last {
            let j = choose|j: int| 0 <= j < r.declaration.len() && (#[trigger] r.declaration[j]).0 == k;
            assert(rules[rules.len() - 1] == r);
            assert(rules[rules.len() - 1].declaration[j].0 == k);
        }
        assert(p == (q || last));
    }
}

proof fn lemma_declarations_keep_other_keys(m: Map<Seq<char>, SpecValue>, d: Seq<(Seq<char>, SpecValue)>, k: Seq<char>)
    requires
        forall|j: int| 0 <= j < d.len() ==> (#[trigger] d[j]).0 != k,
    ensures
        apply_declarations(m, d).contains_key(k) == m.contains_key(k),
        apply_declarations(m, d)[k] == m[k],
    decreases d.len(),
{
    if d.len() > 0 {
        assert forall|j: int| 0 <= j < d.drop_last().len() implies (#[trigger] d.drop_last()[j]).0 != k by {
            assert(d.drop_last()[j] == d[j]);
        }
        lemma_declarations_keep_other_keys(m, d.drop_last(), k);
        assert(d.last() == d[d.len() - 1]);
    }
}

proof fn lemma_last_declaration_of_key(m: Map<Seq<char>, SpecValue>, d: Seq<(Seq<char>, SpecValue)>, j: int)
    requires
        0 <= j < d.len(),
        forall|l: int| j < l < d.len() ==> (#[trigger] d[l]).0 != d[j].0,
    ensures
        apply_declarations(m, d).contains_key(d[j].0),
        apply_declarations(m, d)[d[j].0] == d[j].1,
    decreases d.len(),
{
    if j == d.len() - 1 {
        assert(d.last() == d[j]);
    } else {
        assert forall|l: int| j < l < d.drop_last().len() implies (#[trigger] d.drop_last()[l]).0 != d.drop_last()[j].0 by {
            assert(d.drop_last()[l] == d[l]);
        }
        lemma_last_declaration_of_key(m, d.drop_last(), j);
        assert(d.drop_last()[j] == d[j]);
        assert(d.last() == d[d.len() - 1]);
    }
}

/// The value specified for a property is the one given by the last declaration of
/// it in the last rule that matches the node and declares it.
pub proof fn law_last_declaration_wins(data: SpecNodeData, rules: Seq<SpecRule>, i: int, j: int)
    requires
        0 <= i < rules.len(),
        rule_matches(data, rules[i]),
        0 <= j < rules[i].declaration.len(),
        forall|l: int| j < l < rules[i].declaration.len() ==> (#[trigger] rules[i].declaration[l]).0 != rules[i].declaration[j].0,
        forall|a: int, l: int|
            i < a < rules.len() && rule_matches(data, #[trigger] rules[a]) && 0 <= l < rules[a].declaration.len()
                ==> (#[trigger] rules[a].declaration[l]).0 != rules[i].declaration[j].0,
    ensures
        specified_values(data, rules).contains_key(rules[i].declaration[j].0),
        specified_values(data, rules)[rules[i].declaration[j].0] == rules[i].declaration[j].1,
    decreases rules.len(),
{
    let k = rules[i].declaration[j].0;
    let init = rules.drop_last();
    let r = rules.last();
    assert(init.push(r) =~= rules);
    law_appended_rule_overrides(data, init, r);
    if i == rules.len() - 1 {
        assert(r == rules[i]);
        lemma_last_declaration_of_key(specified_values(data, init), r.declaration, j);
    } else {
        assert(init[i] == rules[i]);
        assert forall|a: int, l: int|
            i < a < init.len() && rule_matches(data, #[trigger] init[a]) && 0 <= l < init[a].declaration.len()
                implies (#[trigger] init[a].declaration[l]).0 != init[i].declaration[j].0 by {
            assert(init[a] == rules[a]);
            assert(rules[a].declaration[l] == init[a].declaration[l]);
        }
        law_last_declaration_wins(data, init, i, j);
        if rule_matches(data, r) {
            assert forall|l: int| 0 <= l < r.declaration.len() implies (#[trigger] r.declaration[l]).0 != k by {
                assert(rules[rules.len() - 1] == r);
                assert(rules[rules.len() - 1].declaration[l] == r.declaration[l]);
            }
            lemma_declarations_keep_other_keys(specified_values(data, init), r.declaration, k);
        }
    }
}

/// After a property is set in a property map, reading it gives the value set, and
/// reading any other property gives what it gave before.
pub proof fn law_property_read_after_write(m: Map<Seq<char>, SpecValue>, k: Seq<char>, v: SpecValue, other: Seq<char>)
    requires
        other != k,
    ensures
        m.insert(k, v).contains_key(k),
        m.insert(k, v)[k] == v,
        m.insert(k, v).contains_key(other) == m.contains_key(other),
        m.insert(k, v)[other] == m[other],
{
}


// ---------------------------------------------------------------------------
// What the operations are for, stated from their inputs
// ---------------------------------------------------------------------------

/// A rule applies to a node when any selector of its list matches the node, not
/// only the first: then each property that the rule declares has a specified value.
pub proof fn law_any_selector_of_a_rule_applies_it(data: SpecNodeData, rules: Seq<SpecRule>, i: int, k: int, j: int)
    requires
        0 <= i < rules.len(),
        0 <= k < rules[i].selector.len(),
        spec_matches(data, rules[i].selector[k]),
        0 <= j < rules[i].declaration.len(),
    ensures
        rule_matches(data, rules[i]),
        specified_values(data, rules).contains_key(rules[i].declaration[j].0),
{
    assert(spec_matches(data, rules[i].selector[k]));
    law_specified_exactly_when_declared(data, rules, rules[i].declaration[j].0);
}

/// A rule whose selectors all fail to match a node declares nothing for it: a
/// property is specified only through some rule with a matching selector.
pub proof fn law_specified_only_through_matching_selectors(data: SpecNodeData, rules: Seq<SpecRule>, key: Seq<char>)
    requires
        specified_values(data, rules).contains_key(key),
    ensures
        exists|i: int, k: int, j: int|
            0 <= i < rules.len() && 0 <= k < rules[i].selector.len() && spec_matches(data, #[trigger] rules[i].selector[k])
                && 0 <= j < rules[i].declaration.len() && (#[trigger] rules[i].declaration[j]).0 == key,
{
    law_specified_exactly_when_declared(data, rules, key);
    let (i, j) = choose|i: int, j: int|
        0 <= i < rules.len() && rule_matches(data, #[trigger] rules[i]) && 0 <= j < rules[i].declaration.len()
            && (#[trigger] rules[i].declaration[j]).0 == key;
    let k = choose|k: int| 0 <= k < rules[i].selector.len() && spec_matches(data, #[trigger] rules[i].selector[k]);
    assert(spec_matches(data, rules[i].selector[k]) && rules[i].declaration[j].0 == key);
}

/// The last attribute named `key` has the value `v`.
pub open spec fn is_last_attribute(attrs: Seq<(Seq<char>, Seq<char>)>, key: Seq<char>, v: Seq<char>) -> bool {
    exists|j: int|
        0 <= j < attrs.len() && (#[trigger] attrs[j]).0 == key && attrs[j].1 == v && (forall|l: int|
            j < l < attrs.len() ==> (#[trigger] attrs[l]).0 != key)
}

proof fn lemma_attr_value_is_last(attrs: Seq<(Seq<char>, Seq<char>)>, key: Seq<char>, v: Seq<char>)
    ensures
        (attr_value(attrs, key) == Some(v)) == is_last_attribute(attrs, key, v),
    decreases attrs.len(),
{
    if attrs.len() > 0 {
        let init = attrs.drop_last();
        lemma_attr_value_is_last(init, key, v);
        let n = attrs.len() - 1;
        if attrs.last().0 == key {
            if is_last_attribute(attrs, key, v) {
                let j = choose|j: int|
                    0 <= j < attrs.len() && (#[trigger] attrs[j]).0 == key && attrs[j].1 == v && (forall|l: int|
                        j < l < attrs.len() ==> (#[trigger] attrs[l]).0 != key);
                if j < n {
                    assert(attrs[n].0 == key);
                }
            }
            if attrs.last().1 == v {
                assert(attrs[n].0 == key && attrs[n].1 == v);
            }
        } else {
            if is_last_attribute(attrs, key, v) {
                let j = choose|j: int|
                    0 <= j < attrs.len() && (#[trigger] attrs[j]).0 == key && attrs[j].1 == v && (forall|l: int|
                        j < l < attrs.len() ==> (#[trigger] attrs[l]).0 != key);
                assert(j != n);
                assert(init[j] == attrs[j]);
                assert forall|l: int| j < l < init.len() implies (#[trigger] init[l]).0 != key by {
                    assert(init[l] == attrs[l]);
                }
            }
            if is_last_attribute(init, key, v) {
                let j = choose|j: int|
                    0 <= j < init.len() && (#[trigger] init[j]).0 == key && init[j].1 == v && (forall|l: int|
                        j < l < init.len() ==> (#[trigger] init[l]).0 != key);
                assert(attrs[j] == init[j]);
                assert forall|l: int| j < l < attrs.len() implies (#[trigger] attrs[l]).0 != key by {
                    if l < n {
                        assert(attrs[l] == init[l]);
                    }
                }
            }
        }
    }
}

/// The last `class` attribute exists and has `c` among its white-space separated words.
pub open spec fn in_last_class_attribute(attrs: Seq<(Seq<char>, Seq<char>)>, c: Seq<char>) -> bool {
    exists|v: Seq<char>| is_last_attribute(attrs, seq!['c', 'l', 'a', 's', 's'], v) && #[trigger] words(v).contains(c)
}

/// A simple selector matches an element exactly when: the element's name is the
/// selector's tag name, if it has one; the element's last `id` attribute exists
/// and is the selector's id, if it has one (an element without an `id` attribute
/// matches no id selector); and for each class of the selector the element's last
/// `class` attribute exists and has it among its white-space separated words.
pub proof fn law_selector_conditions(name: Seq<char>, attrs: Seq<(Seq<char>, Seq<char>)>, sel: SpecSimpleSelector)
    ensures
        spec_matches(SpecNodeData::Element(name, attrs), sel) == {
            &&& (sel.tag_name matches Some(t) ==> name == t)
            &&& (sel.id matches Some(i) ==> is_last_attribute(attrs, seq!['i', 'd'], i))
            &&& forall|k: int| 0 <= k < sel.class.len() ==> #[trigger] in_last_class_attribute(attrs, sel.class[k])
        },
{
    let id = seq!['i', 'd'];
    let cl = seq!['c', 'l', 'a', 's', 's'];
    assert(crate::style_logic::id_key() =~= id);
    assert(crate::style_logic::class_key() =~= cl);
    if let Some(i) = sel.id {
        lemma_attr_value_is_last(attrs, id, i);
    }
    match attr_value(attrs, cl) {
        Some(v) => {
            lemma_attr_value_is_last(attrs, cl, v);
            assert forall|w: Seq<char>| is_last_attribute(attrs, cl, w) implies w == v by {
                lemma_attr_value_is_last(attrs, cl, w);
            }
        },
        None => {
            assert forall|w: Seq<char>| !is_last_attribute(attrs, cl, w) by {
                lemma_attr_value_is_last(attrs, cl, w);
            }
        },
    }
    let lhs = forall|k: int| 0 <= k < sel.class.len() ==> #[trigger] has_class(attrs, sel.class[k]);
    let rhs = forall|k: int| 0 <= k < sel.class.len() ==> #[trigger] in_last_class_attribute(attrs, sel.class[k]);
    assert(lhs == rhs) by {
        if lhs {
            assert forall|k: int| 0 <= k < sel.class.len() implies #[trigger] in_last_class_attribute(attrs, sel.class[k]) by {
                assert(has_class(attrs, sel.class[k]));
                let v = attr_value(attrs, cl)->0;
                assert(is_last_attribute(attrs, cl, v) && words(v).contains(sel.class[k]));
            }
        }
        if rhs {
            assert forall|k: int| 0 <= k < sel.class.len() implies #[trigger] has_class(attrs, sel.class[k]) by {
                assert(in_last_class_attribute(attrs, sel.class[k]));
                let v = choose|v: Seq<char>| is_last_attribute(attrs, cl, v) && #[trigger] words(v).contains(sel.class[k]);
                assert(v == attr_value(attrs, cl)->0);
            }
        }
    }
}

proof fn lemma_children_styled_in_order(ss: Seq<StyledNode>, ns: Seq<crate::html_logic::Node>, rules: Seq<SpecRule>)
    requires
        children_styled_as(ss, ns, rules),
    ensures
        ss.len() == ns.len(),
        forall|i: int| 0 <= i < ns.len() ==> #[trigger] styled_as(ss[i], ns[i], rules),
    decreases ns.len(),
{
    if ns.len() > 0 {
        lemma_children_styled_in_order(ss.drop_last(), ns.drop_last(), rules);
        assert forall|i: int| 0 <= i < ns.len() implies #[trigger] styled_as(ss[i], ns[i], rules) by {
            if i < ns.len() - 1 {
                assert(ss.drop_last()[i] == ss[i]);
                assert(ns.drop_last()[i] == ns[i]);
            }
        }
    }
}

/// The style tree keeps the document's shape and order: the styled node holds the
/// node's data, it has as many children as the node, and its `i`-th child is the
/// styled form of the node's `i`-th child.
pub proof fn law_style_tree_keeps_order(s: StyledNode, n: crate::html_logic::Node, rules: Seq<SpecRule>)
    requires
        styled_as(s, n, rules),
    ensures
        s.node@ == n.data@,
        s.children@.len() == n.children@.len(),
        forall|i: int| 0 <= i < n.children@.len() ==> #[trigger] styled_as(s.children@[i], n.children@[i], rules),
{
    lemma_children_styled_in_order(s.children@, n.children@, rules);
}

/// The identifiers that follow a `.` among the tokens from `a` to `b`, in order.
pub open spec fn dotted_idents(t: Seq<SpecToken>, a: int, b: int) -> Seq<Seq<char>>
    decreases b - a,
{
    if a < 0 || a >= b || b > t.len() {
        Seq::empty()
    } else if t[a] == SpecToken::Delim('.') && a + 1 < b && t[a + 1] is Ident {
        seq![t[a + 1]->Ident_0] + dotted_idents(t, a + 2, b)
    } else {
        dotted_idents(t, a + 1, b)
    }
}

/// The name of the last hash token among the tokens from `a` to `b`, or `cur` if
/// there is none.
pub open spec fn last_hash_from(t: Seq<SpecToken>, a: int, b: int, cur: Option<Seq<char>>) -> Option<Seq<char>>
    decreases b - a,
{
    if a < 0 || a >= b || b > t.len() {
        cur
    } else {
        match t[a] {
            SpecToken::Hash(n) => last_hash_from(t, a + 1, b, Some(n)),
            SpecToken::IDHash(n) => last_hash_from(t, a + 1, b, Some(n)),
            _ => last_hash_from(t, a + 1, b, cur),
        }
    }
}

proof fn lemma_tail_classes(t: Seq<SpecToken>, p: int, sel: SpecSimpleSelector, m: bool)
    requires
        0 <= p <= t.len(),
    ensures
        selector_tail(t, p, sel, m) matches Some((s, q, mm)) ==> s.tag_name == sel.tag_name && s.class == sel.class
            + dotted_idents(t, p, q) && s.id == last_hash_from(t, p, q, sel.id),
    decreases t.len() - p,
{
    crate::css_logic::lemma_selector_tail(t, p, sel, m);
    if p < t.len() {
        match t[p] {
            SpecToken::Hash(n) => {
                let next = SpecSimpleSelector { tag_name: sel.tag_name, id: Some(n), class: sel.class };
                lemma_tail_classes(t, p + 1, next, true);
                crate::css_logic::lemma_selector_tail(t, p + 1, next, true);
            },
            SpecToken::IDHash(n) => {
                let next = SpecSimpleSelector { tag_name: sel.tag_name, id: Some(n), class: sel.class };
                lemma_tail_classes(t, p + 1, next, true);
                crate::css_logic::lemma_selector_tail(t, p + 1, next, true);
            },
            SpecToken::Delim(c) => {
                if c == '.' && p + 1 < t.len() && t[p + 1] is Ident {
                    let next = SpecSimpleSelector { tag_name: sel.tag_name, id: sel.id, class: sel.class.push(t[p + 1]->Ident_0) };
                    lemma_tail_classes(t, p + 2, next, true);
                    crate::css_logic::lemma_selector_tail(t, p + 2, next, true);
                    if let Some((s, q, mm)) = selector_tail(t, p, sel, m) {
                        assert(sel.class.push(t[p + 1]->Ident_0) + dotted_idents(t, p + 2, q) =~= sel.class + (seq![t[p + 1]->Ident_0] + dotted_idents(t, p + 2, q)));
                        assert(last_hash_from(t, p + 1, q, sel.id) == last_hash_from(t, p + 2, q, sel.id));
                    }
                } else if let Some((s, q, mm)) = selector_tail(t, p, sel, m) {
                    assert(sel.class + dotted_idents(t, p, q) =~= sel.class);
                }
            },
            _ => {
                if let Some((s, q, mm)) = selector_tail(t, p, sel, m) {
                    assert(sel.class + dotted_idents(t, p, q) =~= sel.class);
                }
            },
        }
    } else {
        if let Some((s, q, mm)) = selector_tail(t, p, sel, m) {
            assert(sel.class + dotted_idents(t, p, q) =~= sel.class);
        }
    }
}

/// A simple selector read from the tokens at `pos` has as tag name the identifier
/// at `pos` (none where the selector starts otherwise), and as classes every
/// identifier that follows a `.` among the tokens it spans, in order, whether or
/// not a tag name comes first.
pub proof fn law_selector_classes_are_the_dotted_identifiers(t: Seq<SpecToken>, pos: int)
    requires
        0 <= pos <= t.len(),
    ensures
        spec_simple_selector(t, pos) matches Some((s, q)) ==> {
            &&& s.class == dotted_idents(t, pos, q)
            &&& s.id == last_hash_from(t, pos, q, None)
            &&& s.tag_name == if pos < t.len() && t[pos] is Ident { Some(t[pos]->Ident_0) } else { None }
        },
{
    let head: (SpecSimpleSelector, int, bool) = if 0 <= pos < t.len() && t[pos] is Ident {
        (SpecSimpleSelector { tag_name: Some(t[pos]->Ident_0), id: None, class: Seq::empty() }, pos + 1, true)
    } else if 0 <= pos < t.len() && t[pos] == SpecToken::Delim('*') {
        (empty_selector(), pos + 1, true)
    } else {
        (empty_selector(), pos, false)
    };
    lemma_tail_classes(t, head.1, head.0, head.2);
    crate::css_logic::lemma_selector_tail(t, head.1, head.0, head.2);
    if let Some((s, q)) = spec_simple_selector(t, pos) {
        assert(head.0.class + dotted_idents(t, head.1, q) =~= dotted_idents(t, head.1, q));
        if head.1 == pos + 1 {
            assert(dotted_idents(t, pos, q) == dotted_idents(t, pos + 1, q));
            assert(last_hash_from(t, pos, q, None) == last_hash_from(t, pos + 1, q, None));
        }
    }
}

/// The number of comma tokens from `a` to `b`.
pub open spec fn commas(t: Seq<SpecToken>, a: int, b: int) -> nat
    decreases b - a,
{
    if a < 0 || a >= b || b > t.len() {
        0
    } else {
        (if t[a] == SpecToken::Comma { 1nat } else { 0nat }) + commas(t, a + 1, b)
    }
}

proof fn lemma_commas_split(t: Seq<SpecToken>, a: int, m: int, b: int)
    requires
        0 <= a <= m <= b <= t.len(),
    ensures
        commas(t, a, b) == commas(t, a, m) + commas(t, m, b),
    decreases m - a,
{
    if a < m {
        lemma_commas_split(t, a + 1, m, b);
    }
}

proof fn lemma_tail_has_no_comma(t: Seq<SpecToken>, p: int, sel: SpecSimpleSelector, m: bool)
    requires
        0 <= p <= t.len(),
    ensures
        selector_tail(t, p, sel, m) matches Some((s, q, mm)) ==> commas(t, p, q) == 0,
    decreases t.len() - p,
{
    crate::css_logic::lemma_selector_tail(t, p, sel, m);
    if p < t.len() {
        match t[p] {
            SpecToken::Hash(n) => {
                let next = SpecSimpleSelector { tag_name: sel.tag_name, id: Some(n), class: sel.class };
                lemma_tail_has_no_comma(t, p + 1, next, true);
                crate::css_logic::lemma_selector_tail(t, p + 1, next, true);
                if let Some((s, q, mm)) = selector_tail(t, p, sel, m) {
                    assert(commas(t, p, q) == commas(t, p + 1, q));
                }
            },
            SpecToken::IDHash(n) => {
                let next = SpecSimpleSelector { tag_name: sel.tag_name, id: Some(n), class: sel.class };
                lemma_tail_has_no_comma(t, p + 1, next, true);
                crate::css_logic::lemma_selector_tail(t, p + 1, next, true);
                if let Some((s, q, mm)) = selector_tail(t, p, sel, m) {
                    assert(commas(t, p, q) == commas(t, p + 1, q));
                }
            },
            SpecToken::Delim(c) => {
                if c == '.' && p + 1 < t.len() && t[p + 1] is Ident {
                    let next = SpecSimpleSelector { tag_name: sel.tag_name, id: sel.id, class: sel.class.push(t[p + 1]->Ident_0) };
                    lemma_tail_has_no_comma(t, p + 2, next, true);
                    crate::css_logic::lemma_selector_tail(t, p + 2, next, true);
                    if let Some((s, q, mm)) = selector_tail(t, p, sel, m) {
                        assert(commas(t, p + 1, q) == commas(t, p + 2, q));
                        assert(commas(t, p, q) == commas(t, p + 1, q));
                    }
                }
            },
            _ => {},
        }
    }
}

/// A selector list that reads has one selector more than the prelude has commas:
/// a selector never spans a comma, and every comma separates two selectors.
pub proof fn law_selector_list_splits_at_commas(t: Seq<SpecToken>, pos: int)
    requires
        0 <= pos <= t.len(),
    ensures
        spec_selector_list(t, pos) matches Some(sels) ==> sels.len() == commas(t, pos, t.len() as int) + 1,
    decreases t.len() - pos,
{
    lemma_simple_selector_advances(t, pos);
    if let Some((s, q)) = crate::css_logic::spec_simple_selector(t, pos) {
        let head: (SpecSimpleSelector, int, bool) = if 0 <= pos < t.len() && t[pos] is Ident {
            (SpecSimpleSelector { tag_name: Some(t[pos]->Ident_0), id: None, class: Seq::empty() }, pos + 1, true)
        } else if 0 <= pos < t.len() && t[pos] == SpecToken::Delim('*') {
            (empty_selector(), pos + 1, true)
        } else {
            (empty_selector(), pos, false)
        };
        lemma_tail_has_no_comma(t, head.1, head.0, head.2);
        crate::css_logic::lemma_selector_tail(t, head.1, head.0, head.2);
        if head.1 == pos + 1 {
            assert(commas(t, pos, q) == commas(t, pos + 1, q));
        }
        lemma_commas_split(t, pos, q, t.len() as int);
        if q < t.len() && t[q] == SpecToken::Comma {
            law_selector_list_splits_at_commas(t, q + 1);
            assert(commas(t, q, t.len() as int) == 1 + commas(t, q + 1, t.len() as int));
        } else if q == t.len() {
            assert(commas(t, q, t.len() as int) == 0);
        }
    }
}

/// A declaration `name : value` whose value reads is kept, whatever tokens follow
/// the value before the next `;`: the declarations read from it start with it.
pub proof fn law_declaration_kept_whatever_follows(t: Seq<SpecToken>, p: int)
    requires
        0 <= p,
        p + 2 < t.len(),
        t[p] is Ident,
        t[p + 1] == SpecToken::Colon,
        spec_css_value(t, p + 2) is Read,
    ensures
        spec_block(t, p) matches Some(d) ==> d.len() > 0 && d[0] == (t[p]->Ident_0, spec_css_value(t, p + 2)->Read_0),
        t[p + 2] matches SpecToken::Ident(w) ==> (spec_block(t, p) matches Some(d) ==> d[0] == (t[p]->Ident_0, Val::Keyword(w))),
{
}

// ---------------------------------------------------------------------------
// Outline
// ---------------------------------------------------------------------------

proof fn lemma_spaces(n: nat)
    ensures
        spaces(n).len() == n,
        forall|i: int| 0 <= i < n ==> #[trigger] spaces(n)[i] == ' ',
    decreases n,
{
    if n > 0 {
        lemma_spaces((n - 1) as nat);
    }
}

/// The outline of a node is its own line (if any) followed by the outlines of its
/// children indented two more. Its own line is, at indentation `k` (`k` spaces):
/// for the document, the spaces then ` #Document`; for a text, the spaces then
/// `#Text: "…"` around the trimmed text, or nothing when the trimmed text is empty;
/// for a comment, its text without indentation; for an element, the spaces, `<`,
/// its name, `>` and then ` name="value"` for each attribute in order; nothing for
/// a doctype or a processing instruction.
pub proof fn law_walk_lines(node: Node, k: nat)
    ensures
        walk_lines(node, k) == node_lines(node.data@, k) + children_lines(node.children@, k + 2),
        spaces(k).len() == k,
        forall|i: int| 0 <= i < k ==> #[trigger] spaces(k)[i] == ' ',
        node.data@ is Document ==> node_lines(node.data@, k) == seq![spaces(k) + seq![' ', '#', 'D', 'o', 'c', 'u', 'm', 'e', 'n', 't']],
        node.data@ matches SpecNodeData::Text(t) ==> node_lines(node.data@, k) == if trimmed(t).len() == 0 {
            Seq::<Seq<char>>::empty()
        } else {
            seq![spaces(k) + seq!['#', 'T', 'e', 'x', 't', ':', ' ', '"'] + trimmed(t) + seq!['"']]
        },
        node.data@ matches SpecNodeData::Comment(c) ==> node_lines(node.data@, k) == seq![c],
        node.data@ matches SpecNodeData::Element(n, a) ==> node_lines(node.data@, k) == seq![spaces(k) + seq!['<'] + n + seq!['>'] + attrs_text(a)],
        node.data@ is Doctype || node.data@ is ProcessingInstruction ==> node_lines(node.data@, k) == Seq::<Seq<char>>::empty(),
{
    lemma_spaces(k);
}

// ---------------------------------------------------------------------------
// Text
// ---------------------------------------------------------------------------

proof fn lemma_trim_start_suffix(s: Seq<char>)
    ensures
        trim_start(s).len() > 0 ==> !is_white_space(trim_start(s)[0]),
        trim_start(s).len() <= s.len(),
        trim_start(s) == s.skip(s.len() - trim_start(s).len()),
    decreases s.len(),
{
    if s.len() > 0 && is_white_space(s[0]) {
        lemma_trim_start_suffix(s.drop_first());
        assert(s.drop_first().skip(s.drop_first().len() - trim_start(s.drop_first()).len()) =~= s.skip(s.len() - trim_start(s).len()));
    } else {
        assert(s.skip(0) =~= s);
    }
}

proof fn lemma_trim_end_prefix(s: Seq<char>)
    ensures
        trim_end(s).len() > 0 ==> !is_white_space(trim_end(s).last()),
        trim_end(s) == s.take(trim_end(s).len() as int),
        trim_end(s).len() <= s.len(),
    decreases s.len(),
{
    if s.len() > 0 && is_white_space(s.last()) {
        lemma_trim_end_prefix(s.drop_last());
        assert(s.drop_last().take(trim_end(s).len() as int) =~= s.take(trim_end(s).len() as int));
    } else {
        assert(s.take(s.len() as int) =~= s);
    }
}

/// A trimmed text neither starts nor ends with white space.
pub proof fn law_trimmed_has_no_outer_white_space(s: Seq<char>)
    ensures
        trimmed(s).len() > 0 ==> !is_white_space(trimmed(s)[0]) && !is_white_space(trimmed(s).last()),
{
    let a = trim_start(s);
    lemma_trim_start_suffix(s);
    lemma_trim_end_prefix(a);
    if trimmed(s).len() > 0 {
        assert(trimmed(s)[0] == a[0]);
    }
}

} // verus!
