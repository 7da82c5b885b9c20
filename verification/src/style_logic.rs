//! Selector matching and the values that a style sheet specifies for each node.

use vstd::prelude::*;
use crate::css_logic::{SimpleSelector, SpecSimpleSelector, SpecRule, SpecValue, Stylesheet, Selector, Value, Rule};
use crate::html_logic::{Node, NodeData, SpecNodeData, attrs_view, Attribute};
use crate::text::{words, has_word, str_eq};

verus! {

/// The value of the attribute named `key`; where several attributes have that name,
/// the last one counts.
pub open spec fn attr_value(attrs: Seq<(Seq<char>, Seq<char>)>, key: Seq<char>) -> Option<Seq<char>>
    decreases attrs.len(),
{
    if attrs.len() == 0 {
        None
    } else if attrs.last().0 == key {
        Some(attrs.last().1)
    } else {
        attr_value(attrs.drop_last(), key)
    }
}

pub open spec fn id_key() -> Seq<char> {
    seq!['i', 'd']
}

pub open spec fn class_key() -> Seq<char> {
    seq!['c', 'l', 'a', 's', 's']
}

/// Whether `c` is one of the white-space separated words of the `class` attribute.
pub open spec fn has_class(attrs: Seq<(Seq<char>, Seq<char>)>, c: Seq<char>) -> bool {
    match attr_value(attrs, class_key()) {
        Some(v) => words(v).contains(c),
        None => false,
    }
}

/// Whether a simple selector matches a node: the node is an element; its name is
/// the selector's tag name, if the selector has one; its `id` attribute is the
/// selector's id, if the selector has one; and each class of the selector is one of
/// the white-space separated words of its `class` attribute.
pub open spec fn spec_matches(data: SpecNodeData, sel: SpecSimpleSelector) -> bool {
    match data {
        SpecNodeData::Element(name, attrs) => {
            &&& (sel.tag_name matches Some(t) ==> name == t)
            &&& (sel.id matches Some(i) ==> attr_value(attrs, id_key()) == Some(i))
            &&& forall|k: int| 0 <= k < sel.class.len() ==> #[trigger] has_class(attrs, sel.class[k])
        },
        _ => false,
    }
}

fn attribute_value<'a>(attrs: &'a Vec<Attribute>, key: &str) -> (r: Option<&'a String>)
    ensures
        match r {
            Some(v) => attr_value(attrs_view(attrs@), key@) == Some(v@),
            None => attr_value(attrs_view(attrs@), key@) is None,
        },
{
    let ghost av = attrs_view(attrs@);
    let mut i: usize = attrs.len();
    assert(av.take(i as int) =~= av);
    while i > 0
        invariant
            i <= attrs.len(),
            av == attrs_view(attrs@),
            attr_value(av, key@) == attr_value(av.take(i as int), key@),
        decreases i,
    {
        assert(av.take(i as int).drop_last() =~= av.take(i - 1));
        if str_eq(attrs[i - 1].name.as_str(), key) {
            return Some(&attrs[i - 1].value);
        }
        i = i - 1;
    }
    None
}

/// Whether the selector matches the node.
pub fn matches(elem: &Node, selector: &SimpleSelector) -> (m: bool)
    ensures
        m == spec_matches(elem.data@, selector@),
{
    match &elem.data {
        NodeData::Element { name, attrs } => {
            if let Some(tag_name) = &selector.tag_name {
                if !str_eq(name.as_str(), tag_name.as_str()) {
                    return false;
                }
            }
            proof {
                reveal_strlit("id");
                reveal_strlit("class");
                assert("id"@ =~= id_key());
                assert("class"@ =~= class_key());
            }
            if let Some(id) = &selector.id {
                match attribute_value(attrs, "id") {
                    Some(v) => {
                        if !str_eq(v.as_str(), id.as_str()) {
                            return false;
                        }
                    },
                    None => {
                        return false;
                    },
                }
            }
            let class_attr = attribute_value(attrs, "class");
            let mut k: usize = 0;
            while k < selector.class.len()
                invariant
                    k <= selector.class.len(),
                    elem.data@ == SpecNodeData::Element(name@, attrs_view(attrs@)),
                    selector@.tag_name matches Some(t) ==> name@ == t,
                    selector@.id matches Some(i) ==> attr_value(attrs_view(attrs@), id_key()) == Some(i),
                    match class_attr {
                        Some(v) => attr_value(attrs_view(attrs@), class_key()) == Some(v@),
                        None => attr_value(attrs_view(attrs@), class_key()) is None,
                    },
                    forall|j: int| 0 <= j < k ==> #[trigger] has_class(attrs_view(attrs@), selector@.class[j]),
                decreases selector.class.len() - k,
            {
                match class_attr {
                    Some(v) => {
                        if !has_word(v.as_str(), selector.class[k].as_str()) {
                            assert(!has_class(attrs_view(attrs@), selector@.class[k as int]));
                            return false;
                        }
                    },
                    None => {
                        assert(!has_class(attrs_view(attrs@), selector@.class[k as int]));
                        return false;
                    },
                }
                k = k + 1;
            }
            true
        },
        _ => false,
    }
}


// ---------------------------------------------------------------------------
// Specified values
// ---------------------------------------------------------------------------

/// Whether some selector of the rule matches the node.
pub open spec fn rule_matches(data: SpecNodeData, rule: SpecRule) -> bool {
    exists|k: int| 0 <= k < rule.selector.len() && spec_matches(data, #[trigger] rule.selector[k])
}

/// The positions, in increasing order, of the rules that match the node.
pub open spec fn matched_rules(data: SpecNodeData, rules: Seq<SpecRule>) -> Seq<int>
    decreases rules.len(),
{
    if rules.len() == 0 {
        Seq::empty()
    } else {
        let prev = matched_rules(data, rules.drop_last());
        if rule_matches(data, rules.last()) {
            prev.push(rules.len() - 1)
        } else {
            prev
        }
    }
}

/// The map after setting each declared property in turn; a later declaration of a
/// property replaces an earlier one.
pub open spec fn apply_declarations(m: Map<Seq<char>, SpecValue>, d: Seq<(Seq<char>, SpecValue)>) -> Map<Seq<char>, SpecValue>
    decreases d.len(),
{
    if d.len() == 0 {
        m
    } else {
        apply_declarations(m, d.drop_last()).insert(d.last().0, d.last().1)
    }
}

/// The declarations of the rules at the given positions, applied in that order to
/// an empty map.
pub open spec fn apply_rules(rules: Seq<SpecRule>, idx: Seq<int>) -> Map<Seq<char>, SpecValue>
    decreases idx.len(),
{
    if idx.len() == 0 {
        Map::empty()
    } else {
        apply_declarations(apply_rules(rules, idx.drop_last()), rules[idx.last()].declaration)
    }
}

/// The values that the style sheet specifies for a node: the declarations of the
/// rules that match it, applied in source order, so that the last one wins.
pub open spec fn specified_values(data: SpecNodeData, rules: Seq<SpecRule>) -> Map<Seq<char>, SpecValue> {
    apply_rules(rules, matched_rules(data, rules))
}

/// Each position that `matched_rules` gives is that of a rule, and they increase.
pub proof fn lemma_matched_rules_in_order(data: SpecNodeData, rules: Seq<SpecRule>)
    ensures
        forall|a: int| 0 <= a < matched_rules(data, rules).len() ==> 0 <= #[trigger] matched_rules(data, rules)[a] < rules.len(),
        forall|a: int, b: int| 0 <= a < b < matched_rules(data, rules).len() ==> matched_rules(data, rules)[a] < matched_rules(data, rules)[b],
    decreases rules.len(),
{
    if rules.len() > 0 {
        lemma_matched_rules_in_order(data, rules.drop_last());
        let m = matched_rules(data, rules);
        let prev = matched_rules(data, rules.drop_last());
        assert forall|a: int| 0 <= a < m.len() implies 0 <= #[trigger] m[a] < rules.len() by {
            if a < prev.len() {
                assert(m[a] == prev[a]);
            }
        }
        assert forall|a: int, b: int| 0 <= a < b < m.len() implies m[a] < m[b] by {
            assert(m[a] == prev[a]);
            if b < prev.len() {
                assert(m[b] == prev[b]);
            }
        }
    }
}

/// Properties and their values; no property occurs twice.
#[derive(Debug)]
pub struct PropertyMap {
    entries: Vec<(String, Value)>,
}

impl PropertyMap {
    #[verifier::type_invariant]
    closed spec fn keys_unique(self) -> bool {
        forall|i: int, j: int| 0 <= i < j < self.entries@.len() ==> self.entries@[i].0@ != self.entries@[j].0@
    }

    closed spec fn has_key(self, k: Seq<char>) -> bool {
        exists|i: int| 0 <= i < self.entries@.len() && self.entries@[i].0@ == k
    }

    closed spec fn value_of(self, k: Seq<char>) -> SpecValue {
        self.entries@[choose|i: int| 0 <= i < self.entries@.len() && self.entries@[i].0@ == k].1@
    }
}

impl View for PropertyMap {
    type V = Map<Seq<char>, SpecValue>;

    closed spec fn view(&self) -> Map<Seq<char>, SpecValue> {
        Map::new(|k: Seq<char>| self.has_key(k), |k: Seq<char>| self.value_of(k))
    }
}

impl PropertyMap {
    /// A map without properties.
    pub fn new() -> (m: PropertyMap)
        ensures
            m@ == Map::<Seq<char>, SpecValue>::empty(),
    {
        let m = PropertyMap { entries: Vec::new() };
        assert(m@ =~= Map::<Seq<char>, SpecValue>::empty());
        m
    }

    /// The number of properties.
    pub fn len(&self) -> (n: usize)
        ensures
            n == self@.len(),
    {
        proof {
            use_type_invariant(self);
            self.lemma_len();
        }
        self.entries.len()
    }

    proof fn lemma_len(self)
        requires
            self.keys_unique(),
        ensures
            self@.dom().finite(),
            self@.len() == self.entries@.len(),
    {
        let keys = self.entries@.map_values(|e: (String, Value)| e.0@);
        assert forall|k: Seq<char>| self@.dom().contains(k) <==> keys.to_set().contains(k) by {
            if self.has_key(k) {
                let c = choose|c: int| 0 <= c < self.entries@.len() && self.entries@[c].0@ == k;
                assert(keys[c] == k);
            }
            if keys.contains(k) {
                let c = choose|c: int| 0 <= c < keys.len() && keys[c] == k;
                assert(self.entries@[c].0@ == k);
            }
        }
        assert(self@.dom() =~= keys.to_set());
        assert forall|i: int, j: int| 0 <= i < j < keys.len() implies keys[i] != keys[j] by {}
        keys.unique_seq_to_set();
    }

    /// The value of a property, if it has one.
    pub fn get(&self, name: &str) -> (v: Option<&Value>)
        ensures
            match v {
                Some(v) => self@.contains_key(name@) && self@[name@] == v@,
                None => !self@.contains_key(name@),
            },
    {
        proof {
            use_type_invariant(self);
        }
        let mut i: usize = 0;
        while i < self.entries.len()
            invariant
                i <= self.entries.len(),
                forall|j: int| 0 <= j < i ==> self.entries@[j].0@ != name@,
            decreases self.entries.len() - i,
        {
            if str_eq(self.entries[i].0.as_str(), name) {
                proof {
                    use_type_invariant(self);
                    let c = choose|c: int| 0 <= c < self.entries@.len() && self.entries@[c].0@ == name@;
                    assert(self.entries@[i as int].0@ == name@);
                    if c > i {
                        assert(self.entries@[i as int].0@ != self.entries@[c].0@);
                    }
                    assert(c == i);
                }
                return Some(&self.entries[i].1);
            }
            i = i + 1;
        }
        None
    }

    /// Sets a property, replacing the value it had.
    pub fn insert(&mut self, name: String, value: Value)
        ensures
            final(self)@ == old(self)@.insert(name@, value@),
    {
        proof {
            use_type_invariant(&*self);
        }
        let ghost old_map = self@;
        let mut entries: Vec<(String, Value)> = Vec::new();
        std::mem::swap(&mut entries, &mut self.entries);
        let ghost old_entries = entries@;
        let ghost nv = (name@, value@);
        let mut i: usize = 0;
        let mut found = false;
        while i < entries.len()
            invariant_except_break
                !found,
            invariant
                entries@ == old_entries,
                i <= entries.len(),
                forall|j: int| 0 <= j < i ==> old_entries[j].0@ != name@,
            ensures
                entries@ == old_entries,
                i <= entries.len(),
                forall|j: int| 0 <= j < i ==> old_entries[j].0@ != name@,
                found ==> i < entries.len() && old_entries[i as int].0@ == name@,
                !found ==> i == entries.len(),
            decreases entries.len() - i,
        {
            if entries[i].0 == name {
                found = true;
                break;
            }
            i = i + 1;
        }
        let ghost pos: int = i as int;
        if found {
            entries.set(i, (name, value));
        } else {
            entries.push((name, value));
        }
        let ghost e = entries@;
        assert(forall|j: int| 0 <= j < e.len() && j != pos ==> e[j] == old_entries[j]);
        assert(e[pos] == (name, value));
        assert(forall|j: int| 0 <= j < e.len() && j != pos ==> e[j].0@ != nv.0);
        self.entries = entries;
        proof {
            assert forall|k: Seq<char>| #[trigger] self@.contains_key(k) == old_map.insert(nv.0, nv.1).contains_key(k) by {
                if k == nv.0 {
                    assert(e[pos].0@ == k);
                } else if old_map.contains_key(k) {
                    let c = choose|c: int| 0 <= c < old_entries.len() && old_entries[c].0@ == k;
                    assert(e[c].0@ == k);
                } else if self@.contains_key(k) {
                    let c = choose|c: int| 0 <= c < e.len() && e[c].0@ == k;
                    assert(old_entries[c].0@ == k);
                }
            }
            assert forall|k: Seq<char>| #[trigger] self@.contains_key(k) implies self@[k] == old_map.insert(nv.0, nv.1)[k] by {
                let c = choose|c: int| 0 <= c < e.len() && e[c].0@ == k;
                if k == nv.0 {
                    assert(c == pos);
                } else {
                    let d = choose|d: int| 0 <= d < old_entries.len() && old_entries[d].0@ == k;
                    assert(c == d);
                }
            }
            assert(self@ =~= old_map.insert(nv.0, nv.1));
        }
    }
}


/// Whether some selector of the rule matches the node.
fn rule_has_match(elem: &Node, rule: &Rule) -> (m: bool)
    ensures
        m == rule_matches(elem.data@, rule@),
{
    let mut k: usize = 0;
    while k < rule.selector.len()
        invariant
            k <= rule.selector.len(),
            forall|j: int| 0 <= j < k ==> !spec_matches(elem.data@, #[trigger] rule@.selector[j]),
        decreases rule.selector.len() - k,
    {
        match &rule.selector[k] {
            Selector::Simple(s) => {
                if matches(elem, s) {
                    assert(spec_matches(elem.data@, rule@.selector[k as int]));
                    return true;
                }
            },
        }
        k = k + 1;
    }
    false
}

/// The positions of the rules that match the node, in increasing order.
fn match_selector(elem: &Node, stylesheet: &Stylesheet) -> (r: Vec<usize>)
    ensures
        r@.map_values(|i: usize| i as int) == matched_rules(elem.data@, stylesheet@),
{
    let ghost rules = stylesheet@;
    let mut r: Vec<usize> = Vec::new();
    let mut i: usize = 0;
    while i < stylesheet.rules.len()
        invariant
            rules == stylesheet@,
            i <= stylesheet.rules.len(),
            r@.map_values(|i: usize| i as int) == matched_rules(elem.data@, rules.take(i as int)),
        decreases stylesheet.rules.len() - i,
    {
        assert(rules.take(i + 1).drop_last() =~= rules.take(i as int));
        assert(rules.take(i + 1).last() == stylesheet.rules@[i as int]@);
        let ghost before = r@.map_values(|i: usize| i as int);
        if rule_has_match(elem, &stylesheet.rules[i]) {
            r.push(i);
            assert(r@.map_values(|i: usize| i as int) =~= before.push(i as int));
        }
        i = i + 1;
    }
    assert(rules.take(stylesheet.rules.len() as int) =~= rules);
    r
}

/// The values that the style sheet specifies for the node: the declarations of the
/// rules that match it, applied in source order, so that the last one wins.
pub fn get_specified_values(elem: &Node, stylesheet: &Stylesheet) -> (values: PropertyMap)
    ensures
        values@ == specified_values(elem.data@, stylesheet@),
{
    let ghost rules = stylesheet@;
    let matched = match_selector(elem, stylesheet);
    let ghost mv = matched@.map_values(|i: usize| i as int);
    proof {
        lemma_matched_rules_in_order(elem.data@, rules);
    }
    let mut values = PropertyMap::new();
    let mut j: usize = 0;
    while j < matched.len()
        invariant
            rules == stylesheet@,
            mv == matched@.map_values(|i: usize| i as int),
            mv == matched_rules(elem.data@, rules),
            forall|a: int| 0 <= a < mv.len() ==> 0 <= #[trigger] mv[a] < rules.len(),
            j <= matched.len(),
            values@ == apply_rules(rules, mv.take(j as int)),
        decreases matched.len() - j,
    {
        assert(mv[j as int] == matched[j as int] as int);
        let rule = &stylesheet.rules[matched[j]];
        let ghost base = values@;
        let ghost decls = rule@.declaration;
        assert(decls == rules[mv[j as int]].declaration);
        let mut d: usize = 0;
        while d < rule.declaration.len()
            invariant
                decls == rule@.declaration,
                d <= rule.declaration.len(),
                values@ == apply_declarations(base, decls.take(d as int)),
            decreases rule.declaration.len() - d,
        {
            assert(decls.take(d + 1).drop_last() =~= decls.take(d as int));
            assert(decls.take(d + 1).last() == rule.declaration@[d as int]@);
            let decl = &rule.declaration[d];
            values.insert(decl.name.clone(), decl.value.clone());
            d = d + 1;
        }
        assert(decls.take(rule.declaration.len() as int) =~= decls);
        assert(mv.take(j + 1).drop_last() =~= mv.take(j as int));
        assert(mv.take(j + 1).last() == mv[j as int]);
        j = j + 1;
    }
    assert(mv.take(matched.len() as int) =~= mv);
    values
}

// ---------------------------------------------------------------------------
// The style tree
// ---------------------------------------------------------------------------

/// A node of a document with the values specified for it and its styled children.
#[derive(Debug)]
pub struct StyledNode {
    pub node: NodeData,
    pub specified_values: PropertyMap,
    pub children: Vec<StyledNode>,
}

/// Whether `s` is the styled form of the tree `n`: the same node data, the values
/// that the rules specify for an element (none for other nodes), and the styled
/// forms of its children, in order.
pub open spec fn styled_as(s: StyledNode, n: Node, rules: Seq<SpecRule>) -> bool
    decreases n,
{
    &&& s.node@ == n.data@
    &&& s.specified_values@ == (if n.data@ is Element {
        specified_values(n.data@, rules)
    } else {
        Map::empty()
    })
    &&& children_styled_as(s.children@, n.children@, rules)
}

/// Whether `ss` are the styled forms of the sibling nodes `ns`, one for one.
pub open spec fn children_styled_as(ss: Seq<StyledNode>, ns: Seq<Node>, rules: Seq<SpecRule>) -> bool
    decreases ns,
{
    if ns.len() == 0 {
        ss.len() == 0
    } else {
        &&& ss.len() == ns.len()
        &&& children_styled_as(ss.drop_last(), ns.drop_last(), rules)
        &&& styled_as(ss.last(), ns.last(), rules)
    }
}

/// Styles a document tree: each element gets the values that the style sheet
/// specifies for it, and the tree keeps its shape.
pub fn style_tree(root: &Node, stylesheet: &Stylesheet) -> (s: StyledNode)
    ensures
        styled_as(s, *root, stylesheet@),
    decreases root,
{
    let mut styled = StyledNode {
        node: root.data.clone(),
        specified_values: PropertyMap::new(),
        children: Vec::new(),
    };
    if let NodeData::Element { .. } = &root.data {
        styled.specified_values = get_specified_values(root, stylesheet);
    }
    let mut i: usize = 0;
    while i < root.children.len()
        invariant
            i <= root.children.len(),
            styled.node@ == root.data@,
            styled.specified_values@ == (if root.data@ is Element {
                specified_values(root.data@, stylesheet@)
            } else {
                Map::empty()
            }),
            children_styled_as(styled.children@, root.children@.take(i as int), stylesheet@),
        decreases root.children.len() - i,
    {
        let child = style_tree(&root.children[i], stylesheet);
        let ghost before = styled.children@;
        styled.children.push(child);
        assert(root.children@.take(i + 1).drop_last() =~= root.children@.take(i as int));
        assert(styled.children@.drop_last() =~= before);
        i = i + 1;
    }
    assert(root.children@.take(root.children.len() as int) =~= root.children@);
    styled
}

} // verus!
