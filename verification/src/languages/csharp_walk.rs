//! The walk over one C# syntax tree: namespaces, using directives, declared
//! types, and the type names it refers to, each with the scope it stands in.
use vstd::prelude::*;
use crate::languages::csharp::{cs_qualified, qualify};
use crate::languages::java_walk::first_segment;
use crate::order::texts;
use crate::scanner::{decimal, decimal_chars};
use crate::syntax::{
    forest_size, tree_size,
    csharp_syntax, field_of, lemma_views_of, parse_csharp, syntax_view, views_of, SyntaxNode,
    SyntaxView,
};
use crate::text_util::{chars_of, join_with, str_eq, string_of, vec_concat, vec_slice};

verus! {

/// The scope a C# name stands in: namespace, enclosing types, type parameters.
#[derive(Debug, PartialEq, Eq)]
pub struct CsWalkScope {
    pub namespace: String,
    pub containers: Vec<String>,
    pub generics: Vec<String>,
}

/// The mathematical value of a [`CsWalkScope`].
pub struct CsScopeView {
    pub namespace: Seq<char>,
    pub containers: Seq<Seq<char>>,
    pub generics: Seq<Seq<char>>,
}

/// The value of a scope.
pub open spec fn cs_scope_view(s: CsWalkScope) -> CsScopeView {
    CsScopeView { namespace: s.namespace@, containers: texts(s.containers@), generics: texts(s.generics@) }
}

/// One fact found in a C# file.
#[derive(Debug, PartialEq, Eq)]
pub enum CsFact {
    /// A namespace the file opens.
    Namespace(String),
    /// A declared type: qualified name (with generic arity) and whether it is partial.
    Declaration { qualified: String, partial: bool },
    /// A using directive.
    Using { name: String, alias: Option<String>, scope: String, is_static: bool, global: bool },
    /// A type name used in a scope, and whether it names an attribute.
    Reference { name: String, scope: CsWalkScope, attribute: bool },
    /// The name of a variable, parameter or property.
    ValueName(String),
    /// The receiver of a member access, in its scope.
    Receiver { name: String, scope: CsWalkScope },
}

/// The mathematical value of a [`CsFact`].
pub enum CsFactView {
    Namespace(Seq<char>),
    Declaration(Seq<char>, bool),
    Using(Seq<char>, Option<Seq<char>>, Seq<char>, bool, bool),
    Reference(Seq<char>, CsScopeView, bool),
    ValueName(Seq<char>),
    Receiver(Seq<char>, CsScopeView),
}

/// The value of a fact.
pub open spec fn cs_fact_view(f: CsFact) -> CsFactView {
    match f {
        CsFact::Namespace(s) => CsFactView::Namespace(s@),
        CsFact::Declaration { qualified, partial } => CsFactView::Declaration(qualified@, partial),
        CsFact::Using { name, alias, scope, is_static, global } => CsFactView::Using(
            name@,
            match alias {
                Some(a) => Some(a@),
                None => None,
            },
            scope@,
            is_static,
            global,
        ),
        CsFact::Reference { name, scope, attribute } => CsFactView::Reference(name@, cs_scope_view(scope), attribute),
        CsFact::ValueName(s) => CsFactView::ValueName(s@),
        CsFact::Receiver { name, scope } => CsFactView::Receiver(name@, cs_scope_view(scope)),
    }
}

/// The values of a list of facts.
pub open spec fn cs_facts_view(s: Seq<CsFact>) -> Seq<CsFactView> {
    s.map_values(|f: CsFact| cs_fact_view(f))
}

/// `s` without any number of leading `@`.
pub open spec fn at_stripped(s: Seq<char>) -> Seq<char>
    decreases s.len(),
{
    if s.len() > 0 && s[0] == '@' {
        at_stripped(s.drop_first())
    } else {
        s
    }
}

/// The position of the first named child of kind `kind` from `k` on.
pub open spec fn kind_at(children: Seq<SyntaxView>, kind: Seq<char>, k: int) -> Option<int>
    decreases children.len() - k,
{
    if k < 0 || k >= children.len() {
        None
    } else if children[k].named && children[k].kind == kind {
        Some(k)
    } else {
        kind_at(children, kind, k + 1)
    }
}

/// The number of named nodes among `children`.
pub open spec fn named_count(children: Seq<SyntaxView>) -> nat
    decreases children.len(),
{
    if children.len() == 0 {
        0
    } else {
        named_count(children.drop_last()) + if children.last().named { 1nat } else { 0nat }
    }
}

/// The type name a name node spells: identifiers without `@`, a generic name
/// with its arity after a backquote, qualified names joined by `.`, and
/// `global::` names; anything else spells nothing.
pub open spec fn named_type(n: SyntaxView) -> Seq<char>
    decreases n,
{
    if n.kind == "identifier"@ {
        at_stripped(n.text)
    } else if n.kind == "generic_name"@ {
        let name = match kind_at(n.children, "identifier"@, 0) {
            Some(i) => if 0 <= i < n.children.len() { n.children[i].text } else { Seq::empty() },
            None => Seq::empty(),
        };
        let arity = match kind_at(n.children, "type_argument_list"@, 0) {
            Some(i) => if 0 <= i < n.children.len() { named_count(n.children[i].children) } else { 0 },
            None => 0,
        };
        name + seq!['`'] + decimal(arity)
    } else if n.kind == "qualified_name"@ || n.kind == "member_access_expression"@ {
        let head = match field_of(n.children, if n.kind == "qualified_name"@ { "qualifier"@ } else { "expression"@ }) {
            Some(i) => if 0 <= i < n.children.len() { named_type(n.children[i]) } else { Seq::empty() },
            None => Seq::empty(),
        };
        let tail = match field_of(n.children, "name"@) {
            Some(i) => if 0 <= i < n.children.len() { named_type(n.children[i]) } else { Seq::empty() },
            None => Seq::empty(),
        };
        cs_qualified(head, tail)
    } else if n.kind == "alias_qualified_name"@ {
        let alias = match field_of(n.children, "alias"@) {
            Some(i) => if 0 <= i < n.children.len() { n.children[i].text } else { Seq::empty() },
            None => Seq::empty(),
        };
        let name = match field_of(n.children, "name"@) {
            Some(i) => if 0 <= i < n.children.len() { named_type(n.children[i]) } else { Seq::empty() },
            None => Seq::empty(),
        };
        if alias == "global"@ {
            "global::"@ + name
        } else {
            cs_qualified(at_stripped(alias), name)
        }
    } else {
        Seq::empty()
    }
}

/// A type node whose parts are each a type of their own.
pub open spec fn wrapper_kind(k: Seq<char>) -> bool {
    k == "nullable_type"@ || k == "array_type"@ || k == "pointer_type"@ || k == "tuple_type"@ || k
        == "ref_type"@
}

/// A name node whose parts are searched for type arguments.
pub open spec fn name_kind(k: Seq<char>) -> bool {
    k == "qualified_name"@ || k == "generic_name"@ || k == "alias_qualified_name"@
}

/// The references a type node makes: its own name, then those of its type
/// arguments and parts.
pub open spec fn type_refs(n: SyntaxView, scope: CsScopeView, attribute: bool) -> Seq<CsFactView>
    decreases n, 1nat,
{
    (if named_type(n).len() > 0 {
        seq![CsFactView::Reference(named_type(n), scope, attribute)]
    } else {
        Seq::empty()
    }) + parts_refs(n, wrapper_kind(n.kind), scope)
}

/// The references below a node: type arguments and the parts of a wrapper
/// type first, then the name parts, last first.
pub open spec fn parts_refs(n: SyntaxView, wrapper: bool, scope: CsScopeView) -> Seq<CsFactView>
    decreases n, 0nat,
{
    immediate_refs(n.children, wrapper, scope) + deferred_refs(n.children, wrapper, scope)
}

/// The type arguments among `children`, and with `wrapper` every part.
pub open spec fn immediate_refs(children: Seq<SyntaxView>, wrapper: bool, scope: CsScopeView) -> Seq<CsFactView>
    decreases children, 0nat,
{
    if children.len() == 0 {
        Seq::empty()
    } else {
        let c = children.last();
        immediate_refs(children.drop_last(), wrapper, scope) + if !c.named {
            Seq::empty()
        } else if c.kind == "type_argument_list"@ {
            list_refs(c.children, scope, false)
        } else if wrapper {
            type_refs(c, scope, false)
        } else {
            Seq::empty()
        }
    }
}

/// The name parts among `children`, searched last first.
pub open spec fn deferred_refs(children: Seq<SyntaxView>, wrapper: bool, scope: CsScopeView) -> Seq<CsFactView>
    decreases children, 0nat,
{
    if children.len() == 0 {
        Seq::empty()
    } else {
        let c = children.last();
        (if c.named && c.kind != "type_argument_list"@ && !wrapper && name_kind(c.kind) {
            parts_refs(c, wrapper, scope)
        } else {
            Seq::empty()
        }) + deferred_refs(children.drop_last(), wrapper, scope)
    }
}

/// The references of each named node among `children`, in order.
pub open spec fn list_refs(children: Seq<SyntaxView>, scope: CsScopeView, attribute: bool) -> Seq<CsFactView>
    decreases children, 0nat,
{
    if children.len() == 0 {
        Seq::empty()
    } else {
        list_refs(children.drop_last(), scope, attribute) + if children.last().named {
            type_refs(children.last(), scope, attribute)
        } else {
            Seq::empty()
        }
    }
}

/// Removes every leading `@`.
fn strip_at(s: &str) -> (r: String)
    ensures
        r@ == at_stripped(s@),
{
    let cs = chars_of(s);
    let n = cs.len();
    let mut i: usize = 0;
    assert(s@.subrange(0, n as int) =~= s@);
    while i < n && cs[i] == '@'
        invariant
            n == cs@.len(),
            cs@ == s@,
            i <= n,
            at_stripped(s@) == at_stripped(s@.subrange(i as int, n as int)),
        decreases n - i,
    {
        proof {
            let t = s@.subrange(i as int, n as int);
            assert(t.drop_first() =~= s@.subrange(i + 1, n as int));
        }
        i += 1;
    }
    let r = string_of(&vec_slice(&cs, i, n));
    assert(r@ =~= s@.subrange(i as int, n as int));
    r
}

/// The position of the first named child of kind `kind`.
fn first_kind(node: &SyntaxNode, kind: &str) -> (r: Option<usize>)
    ensures
        match r {
            Some(i) => kind_at(node@.children, kind@, 0) == Some(i as int) && i < node.children@.len(),
            None => kind_at(node@.children, kind@, 0) is None,
        },
{
    proof {
        lemma_views_of(node.children@);
    }
    let mut k: usize = 0;
    while k < node.children.len() && !(node.children[k].named && node.children[k].is_kind(kind))
        invariant
            k <= node.children@.len(),
            node@.children == views_of(node.children@),
            views_of(node.children@).len() == node.children@.len(),
            forall|j: int| 0 <= j < node.children@.len() ==> #[trigger] views_of(node.children@)[j] == syntax_view(node.children@[j]),
            kind_at(node@.children, kind@, 0) == kind_at(node@.children, kind@, k as int),
        decreases node.children@.len() - k,
    {
        k += 1;
    }
    if k < node.children.len() {
        Some(k)
    } else {
        None
    }
}

/// The number of named children.
fn count_named(node: &SyntaxNode) -> (r: usize)
    ensures
        r == named_count(node@.children),
{
    proof {
        lemma_views_of(node.children@);
    }
    let mut n: usize = 0;
    let mut i: usize = 0;
    while i < node.children.len()
        invariant
            i <= node.children@.len(),
            n <= i,
            node@.children == views_of(node.children@),
            views_of(node.children@).len() == node.children@.len(),
            forall|j: int| 0 <= j < node.children@.len() ==> #[trigger] views_of(node.children@)[j] == syntax_view(node.children@[j]),
            n == named_count(node@.children.subrange(0, i as int)),
        decreases node.children@.len() - i,
    {
        proof {
            let t = node@.children.subrange(0, i + 1);
            assert(t.drop_last() =~= node@.children.subrange(0, i as int));
            assert(t.last() == node@.children[i as int]);
        }
        if node.children[i].named {
            n += 1;
        }
        i += 1;
    }
    assert(node@.children.subrange(0, node@.children.len() as int) =~= node@.children);
    n
}

/// The type name of the child filling `field`, empty without one.
fn field_type(node: &SyntaxNode, field: &str) -> (r: String)
    ensures
        r@ == match field_of(node@.children, field@) {
            Some(i) => if 0 <= i < node@.children.len() { named_type(node@.children[i]) } else { Seq::empty() },
            None => Seq::<char>::empty(),
        },
    decreases node, 0nat,
{
    proof {
        lemma_views_of(node.children@);
    }
    match node.field_child(field) {
        Some(i) => named_type_of(&node.children[i]),
        None => {
            let r = String::new();
            proof {
                reveal_strlit("");
            }
            r
        },
    }
}

/// The type name a name node spells.
pub fn named_type_of(node: &SyntaxNode) -> (r: String)
    ensures
        r@ == named_type(node@),
    decreases node, 1nat,
{
    proof {
        lemma_views_of(node.children@);
        reveal_strlit("");
    }
    if node.is_kind("identifier") {
        return strip_at(node.text.as_str());
    }
    if node.is_kind("generic_name") {
        let name: Vec<char> = match first_kind(node, "identifier") {
            Some(i) => chars_of(node.children[i].text.as_str()),
            None => Vec::new(),
        };
        let arity: usize = match first_kind(node, "type_argument_list") {
            Some(i) => count_named(&node.children[i]),
            None => 0,
        };
        let mut head = name;
        head.push('`');
        let r = string_of(&vec_concat(&head, &decimal_chars(arity)));
        return r;
    }
    if node.is_kind("qualified_name") {
        let head = field_type(node, "qualifier");
        let tail = field_type(node, "name");
        return qualify(head.as_str(), tail.as_str());
    }
    if node.is_kind("member_access_expression") {
        let head = field_type(node, "expression");
        let tail = field_type(node, "name");
        return qualify(head.as_str(), tail.as_str());
    }
    if node.is_kind("alias_qualified_name") {
        let alias = match node.field_child("alias") {
            Some(i) => node.children[i].text.clone(),
            None => String::new(),
        };
        let name = field_type(node, "name");
        if str_eq(alias.as_str(), "global") {
            let g = chars_of("global::");
            return string_of(&vec_concat(&g, &chars_of(name.as_str())));
        }
        return qualify(strip_at(alias.as_str()).as_str(), name.as_str());
    }
    String::new()
}

/// A copy of a scope.
fn copy_scope(s: &CsWalkScope) -> (r: CsWalkScope)
    ensures
        cs_scope_view(r) == cs_scope_view(*s),
{
    CsWalkScope {
        namespace: s.namespace.clone(),
        containers: crate::simulation::copy_texts(&s.containers),
        generics: crate::simulation::copy_texts(&s.generics),
    }
}

/// Appends a fact.
fn push_cs_fact(out: &mut Vec<CsFact>, f: CsFact)
    ensures
        cs_facts_view(final(out)@) == cs_facts_view(old(out)@).push(cs_fact_view(f)),
{
    let ghost v = cs_fact_view(f);
    out.push(f);
    assert(cs_facts_view(out@) =~= cs_facts_view(old(out)@).push(v));
}

/// Appends the references a type node makes.
pub fn push_type_refs(out: &mut Vec<CsFact>, node: &SyntaxNode, scope: &CsWalkScope, attribute: bool)
    ensures
        cs_facts_view(final(out)@) == cs_facts_view(old(out)@) + type_refs(node@, cs_scope_view(*scope), attribute),
    decreases node, 1nat,
{
    let ghost start = cs_facts_view(out@);
    let name = named_type_of(node);
    if name.as_str().unicode_len() > 0 {
        push_cs_fact(out, CsFact::Reference { name, scope: copy_scope(scope), attribute });
    } else {
        assert(cs_facts_view(out@) =~= start + Seq::empty());
    }
    let ghost mid = cs_facts_view(out@);
    let wrapper = node.is_kind("nullable_type") || node.is_kind("array_type") || node.is_kind("pointer_type")
        || node.is_kind("tuple_type") || node.is_kind("ref_type");
    push_parts_refs(out, node, wrapper, scope);
    assert(cs_facts_view(out@) =~= start + type_refs(node@, cs_scope_view(*scope), attribute));
}

/// Appends the references of each named child of `node`.
fn push_list_refs(out: &mut Vec<CsFact>, node: &SyntaxNode, scope: &CsWalkScope, attribute: bool)
    ensures
        cs_facts_view(final(out)@) == cs_facts_view(old(out)@) + list_refs(node@.children, cs_scope_view(*scope), attribute),
    decreases node, 0nat,
{
    proof {
        lemma_views_of(node.children@);
    }
    let ghost start = cs_facts_view(out@);
    let mut i: usize = 0;
    assert(cs_facts_view(out@) =~= start + list_refs(node@.children.subrange(0, 0), cs_scope_view(*scope), attribute));
    while i < node.children.len()
        invariant
            i <= node.children@.len(),
            node@.children == views_of(node.children@),
            views_of(node.children@).len() == node.children@.len(),
            forall|j: int| 0 <= j < node.children@.len() ==> #[trigger] views_of(node.children@)[j] == syntax_view(node.children@[j]),
            cs_facts_view(out@) == start + list_refs(node@.children.subrange(0, i as int), cs_scope_view(*scope), attribute),
        decreases node.children@.len() - i,
    {
        let ghost before = cs_facts_view(out@);
        if node.children[i].named {
            push_type_refs(out, &node.children[i], scope, attribute);
        } else {
            assert(cs_facts_view(out@) =~= before + Seq::empty());
        }
        proof {
            let t = node@.children.subrange(0, i + 1);
            assert(t.drop_last() =~= node@.children.subrange(0, i as int));
            assert(t.last() == node@.children[i as int]);
        }
        i += 1;
        assert(cs_facts_view(out@) =~= start + list_refs(node@.children.subrange(0, i as int), cs_scope_view(*scope), attribute));
    }
    assert(node@.children.subrange(0, node@.children.len() as int) =~= node@.children);
}

/// Appends the references below a node: type arguments and wrapper parts, then
/// name parts last first.
fn push_parts_refs(out: &mut Vec<CsFact>, node: &SyntaxNode, wrapper: bool, scope: &CsWalkScope)
    ensures
        cs_facts_view(final(out)@) == cs_facts_view(old(out)@) + parts_refs(node@, wrapper, cs_scope_view(*scope)),
    decreases node, 0nat,
{
    proof {
        lemma_views_of(node.children@);
    }
    let ghost sc = cs_scope_view(*scope);
    let ghost start = cs_facts_view(out@);
    let mut i: usize = 0;
    assert(cs_facts_view(out@) =~= start + immediate_refs(node@.children.subrange(0, 0), wrapper, sc));
    while i < node.children.len()
        invariant
            i <= node.children@.len(),
            sc == cs_scope_view(*scope),
            node@.children == views_of(node.children@),
            views_of(node.children@).len() == node.children@.len(),
            forall|j: int| 0 <= j < node.children@.len() ==> #[trigger] views_of(node.children@)[j] == syntax_view(node.children@[j]),
            cs_facts_view(out@) == start + immediate_refs(node@.children.subrange(0, i as int), wrapper, sc),
        decreases node.children@.len() - i,
    {
        let ghost before = cs_facts_view(out@);
        let c = &node.children[i];
        if c.named && c.is_kind("type_argument_list") {
            push_list_refs(out, c, scope, false);
        } else if c.named && wrapper {
            push_type_refs(out, c, scope, false);
        } else {
            assert(cs_facts_view(out@) =~= before + Seq::empty());
        }
        proof {
            let t = node@.children.subrange(0, i + 1);
            assert(t.drop_last() =~= node@.children.subrange(0, i as int));
            assert(t.last() == node@.children[i as int]);
        }
        i += 1;
        assert(cs_facts_view(out@) =~= start + immediate_refs(node@.children.subrange(0, i as int), wrapper, sc));
    }
    assert(node@.children.subrange(0, node@.children.len() as int) =~= node@.children);
    let ghost mid = cs_facts_view(out@);
    let mut k: usize = node.children.len();
    assert(cs_facts_view(out@) =~= mid + Seq::empty());
    while k > 0
        invariant
            k <= node.children@.len(),
            sc == cs_scope_view(*scope),
            node@.children == views_of(node.children@),
            views_of(node.children@).len() == node.children@.len(),
            forall|j: int| 0 <= j < node.children@.len() ==> #[trigger] views_of(node.children@)[j] == syntax_view(node.children@[j]),
            cs_facts_view(out@) + deferred_refs(node@.children.subrange(0, k as int), wrapper, sc) == mid + deferred_refs(node@.children, wrapper, sc),
        decreases k,
    {
        let ghost before = cs_facts_view(out@);
        k -= 1;
        proof {
            let t = node@.children.subrange(0, k + 1);
            assert(t.drop_last() =~= node@.children.subrange(0, k as int));
            assert(t.last() == node@.children[k as int]);
        }
        let c = &node.children[k];
        if c.named && !c.is_kind("type_argument_list") && !wrapper && (c.is_kind("qualified_name")
            || c.is_kind("generic_name") || c.is_kind("alias_qualified_name")) {
            push_parts_refs(out, c, wrapper, scope);
        } else {
            assert(cs_facts_view(out@) =~= before + Seq::empty());
        }
        assert(cs_facts_view(out@) + deferred_refs(node@.children.subrange(0, k as int), wrapper, sc) =~= before + deferred_refs(node@.children.subrange(0, k + 1), wrapper, sc));
    }
    assert(cs_facts_view(out@) =~= mid + deferred_refs(node@.children, wrapper, sc));
}

/// Whether some child is the token `token`, or a modifier that spells it.
pub open spec fn has_token(children: Seq<SyntaxView>, token: Seq<char>) -> bool {
    exists|i: int| 0 <= i < children.len() && (#[trigger] children[i].kind == token || (children[i].kind == "modifier"@ && children[i].text == token))
}

/// The position of the first named child from `k` on that is not at `skip`.
pub open spec fn other_from(children: Seq<SyntaxView>, skip: Option<int>, k: int) -> Option<int>
    decreases children.len() - k,
{
    if k < 0 || k >= children.len() {
        None
    } else if children[k].named && skip != Some(k) {
        Some(k)
    } else {
        other_from(children, skip, k + 1)
    }
}

/// The names of the type parameters among `children`: the text of each named
/// node's `name` child.
pub open spec fn parameter_names(children: Seq<SyntaxView>) -> Seq<Seq<char>>
    decreases children.len(),
{
    if children.len() == 0 {
        Seq::empty()
    } else {
        let c = children.last();
        parameter_names(children.drop_last()) + if c.named {
            match field_of(c.children, "name"@) {
                Some(i) => if 0 <= i < c.children.len() { seq![c.children[i].text] } else { Seq::empty() },
                None => Seq::empty(),
            }
        } else {
            Seq::empty()
        }
    }
}

/// A node kind that declares a type.
pub open spec fn type_declaration_kind(k: Seq<char>) -> bool {
    k == "class_declaration"@ || k == "struct_declaration"@ || k == "interface_declaration"@ || k
        == "record_declaration"@ || k == "enum_declaration"@ || k == "delegate_declaration"@
}

/// A node kind that names a value.
pub open spec fn value_kind(k: Seq<char>) -> bool {
    k == "variable_declarator"@ || k == "parameter"@ || k == "property_declaration"@ || k
        == "foreach_statement"@ || k == "catch_declaration"@
}

/// The references of the child filling `field`, none without one.
pub open spec fn field_refs(n: SyntaxView, field: Seq<char>, scope: CsScopeView, attribute: bool) -> Seq<CsFactView> {
    match field_of(n.children, field) {
        Some(i) => if 0 <= i < n.children.len() { type_refs(n.children[i], scope, attribute) } else { Seq::empty() },
        None => Seq::empty(),
    }
}

/// Whether a fact is a reference to `name`.
pub open spec fn refers_to(f: CsFactView, name: Seq<char>) -> bool {
    f matches CsFactView::Reference(n, _, _) && n == name
}

/// What a `using` directive says: the references in its target other than the
/// target itself, then the directive.
pub open spec fn using_facts(n: SyntaxView, scope: CsScopeView) -> Seq<CsFactView> {
    let alias = field_of(n.children, "name"@);
    match other_from(n.children, alias, 0) {
        Some(t) => if 0 <= t < n.children.len() {
            let target = n.children[t];
            let name = named_type(target);
            let alias_text = match alias {
                Some(a) => if 0 <= a < n.children.len() { Some(at_stripped(n.children[a].text)) } else { None },
                None => None,
            };
            type_refs(target, scope, false).filter(|f: CsFactView| !refers_to(f, name)) + seq![
                CsFactView::Using(name, alias_text, scope.namespace, has_token(n.children, "static"@), has_token(n.children, "global"@)),
            ]
        } else {
            Seq::empty()
        },
        None => Seq::empty(),
    }
}

/// The scope inside a node: its type parameters added, and a declared type's
/// name (with its arity) added to the enclosing types.
pub open spec fn inner_cs_scope(n: SyntaxView, scope: CsScopeView) -> CsScopeView {
    let params = kind_at(n.children, "type_parameter_list"@, 0);
    let generics = scope.generics + match params {
        Some(p) => if 0 <= p < n.children.len() { parameter_names(n.children[p].children) } else { Seq::empty() },
        None => Seq::empty(),
    };
    let containers = if type_declaration_kind(n.kind) {
        match field_of(n.children, "name"@) {
            Some(i) => if 0 <= i < n.children.len() {
                scope.containers.push(at_stripped(n.children[i].text) + match params {
                    Some(p) => if 0 <= p < n.children.len() {
                        seq!['`'] + decimal(named_count(n.children[p].children))
                    } else {
                        Seq::empty()
                    },
                    None => Seq::empty(),
                })
            } else {
                scope.containers
            },
            None => scope.containers,
        }
    } else {
        scope.containers
    };
    CsScopeView { namespace: scope.namespace, containers, generics }
}

/// What one ordinary node says, in the scope inside it.
pub open spec fn own_cs_facts(n: SyntaxView, inner: CsScopeView) -> Seq<CsFactView> {
    let declared = if type_declaration_kind(n.kind) && field_of(n.children, "name"@) is Some {
        seq![CsFactView::Declaration(cs_qualified(inner.namespace, join_with(inner.containers, '.')), has_token(n.children, "partial"@))]
    } else {
        Seq::empty()
    };
    let valued = if value_kind(n.kind) {
        match field_of(n.children, "name"@) {
            Some(i) => if 0 <= i < n.children.len() { seq![CsFactView::ValueName(at_stripped(n.children[i].text))] } else { Seq::empty() },
            None => Seq::empty(),
        }
    } else {
        Seq::empty()
    };
    let typed = field_refs(n, "type"@, inner, false) + field_refs(n, "returns"@, inner, false);
    let specific = if n.kind == "base_list"@ || n.kind == "type_argument_list"@ {
        list_refs(n.children, inner, false)
    } else if n.kind == "attribute"@ {
        field_refs(n, "name"@, inner, true)
    } else if n.kind == "member_access_expression"@ {
        match field_of(n.children, "expression"@) {
            Some(i) => if 0 <= i < n.children.len() && named_type(n.children[i]).len() > 0 {
                seq![CsFactView::Receiver(named_type(n.children[i]), inner)]
            } else {
                Seq::empty()
            },
            None => Seq::empty(),
        }
    } else {
        Seq::empty()
    };
    declared + valued + typed + specific
}

/// The facts of a C# tree in walk order.
pub open spec fn cs_facts(n: SyntaxView, scope: CsScopeView) -> Seq<CsFactView>
    decreases n,
{
    if n.kind == "file_scoped_namespace_declaration"@ {
        Seq::empty()
    } else if n.kind == "namespace_declaration"@ {
        let namespace = match field_of(n.children, "name"@) {
            Some(i) => if 0 <= i < n.children.len() { cs_qualified(scope.namespace, named_type(n.children[i])) } else { scope.namespace },
            None => scope.namespace,
        };
        let inner = CsScopeView { namespace, containers: scope.containers, generics: scope.generics };
        seq![CsFactView::Namespace(namespace)] + match field_of(n.children, "body"@) {
            Some(b) => if 0 <= b < n.children.len() { cs_facts(n.children[b], inner) } else { Seq::empty() },
            None => Seq::empty(),
        }
    } else if n.kind == "using_directive"@ {
        using_facts(n, scope)
    } else {
        let inner = inner_cs_scope(n, scope);
        own_cs_facts(n, inner) + cs_facts_list(n.children, inner)
    }
}

/// The facts of the named nodes among `children`, in order.
pub open spec fn cs_facts_list(children: Seq<SyntaxView>, scope: CsScopeView) -> Seq<CsFactView>
    decreases children,
{
    if children.len() == 0 {
        Seq::empty()
    } else {
        cs_facts_list(children.drop_last(), scope) + if children.last().named {
            cs_facts(children.last(), scope)
        } else {
            Seq::empty()
        }
    }
}

/// Whether some child is the token `token`, or a modifier that spells it.
fn token_of(node: &SyntaxNode, token: &str) -> (r: bool)
    ensures
        r == has_token(node@.children, token@),
{
    proof {
        lemma_views_of(node.children@);
    }
    let mut i: usize = 0;
    while i < node.children.len()
        invariant
            i <= node.children@.len(),
            node@.children == views_of(node.children@),
            views_of(node.children@).len() == node.children@.len(),
            forall|j: int| 0 <= j < node.children@.len() ==> #[trigger] views_of(node.children@)[j] == syntax_view(node.children@[j]),
            forall|j: int| 0 <= j < i ==> !(#[trigger] node@.children[j].kind == token@ || (node@.children[j].kind == "modifier"@ && node@.children[j].text == token@)),
        decreases node.children@.len() - i,
    {
        let c = &node.children[i];
        if c.is_kind(token) || (c.is_kind("modifier") && str_eq(c.text.as_str(), token)) {
            assert(node@.children[i as int].kind == token@ || (node@.children[i as int].kind == "modifier"@ && node@.children[i as int].text == token@));
            return true;
        }
        i += 1;
    }
    false
}

/// The names of the type parameters among the children of `node`.
fn parameter_names_of(node: &SyntaxNode) -> (r: Vec<String>)
    ensures
        texts(r@) == parameter_names(node@.children),
{
    proof {
        lemma_views_of(node.children@);
    }
    let mut out: Vec<String> = Vec::new();
    let mut i: usize = 0;
    assert(texts(out@) =~= parameter_names(node@.children.subrange(0, 0)));
    while i < node.children.len()
        invariant
            i <= node.children@.len(),
            node@.children == views_of(node.children@),
            views_of(node.children@).len() == node.children@.len(),
            forall|j: int| 0 <= j < node.children@.len() ==> #[trigger] views_of(node.children@)[j] == syntax_view(node.children@[j]),
            texts(out@) == parameter_names(node@.children.subrange(0, i as int)),
        decreases node.children@.len() - i,
    {
        let c = &node.children[i];
        proof {
            lemma_views_of(c.children@);
            let t = node@.children.subrange(0, i + 1);
            assert(t.drop_last() =~= node@.children.subrange(0, i as int));
            assert(t.last() == node@.children[i as int]);
        }
        let ghost before = texts(out@);
        if c.named {
            if let Some(n) = c.field_child("name") {
                out.push(c.children[n].text.clone());
                assert(texts(out@) =~= before + seq![c@.children[n as int].text]);
            } else {
                assert(texts(out@) =~= before + Seq::empty());
            }
        } else {
            assert(texts(out@) =~= before + Seq::empty());
        }
        i += 1;
    }
    assert(node@.children.subrange(0, node@.children.len() as int) =~= node@.children);
    out
}

/// Appends what a `using` directive says.
fn push_using(out: &mut Vec<CsFact>, node: &SyntaxNode, scope: &CsWalkScope)
    ensures
        cs_facts_view(final(out)@) == cs_facts_view(old(out)@) + using_facts(node@, cs_scope_view(*scope)),
{
    proof {
        lemma_views_of(node.children@);
    }
    let ghost start = cs_facts_view(out@);
    let alias = node.field_child("name");
    let ghost skip: Option<int> = match alias {
        Some(a) => Some(a as int),
        None => None,
    };
    assert(skip == field_of(node@.children, "name"@));
    let mut t: usize = 0;
    while t < node.children.len() && !(node.children[t].named && !(alias.is_some() && alias.unwrap() == t))
        invariant
            t <= node.children@.len(),
            node@.children == views_of(node.children@),
            views_of(node.children@).len() == node.children@.len(),
            forall|j: int| 0 <= j < node.children@.len() ==> #[trigger] views_of(node.children@)[j] == syntax_view(node.children@[j]),
            skip == match alias { Some(a) => Some(a as int), None => None::<int> },
            other_from(node@.children, skip, 0) == other_from(node@.children, skip, t as int),
        decreases node.children@.len() - t,
    {
        t += 1;
    }
    if t >= node.children.len() {
        assert(cs_facts_view(out@) =~= start + using_facts(node@, cs_scope_view(*scope)));
        return;
    }
    let target = &node.children[t];
    let name = named_type_of(target);
    let mut refs: Vec<CsFact> = Vec::new();
    assert(cs_facts_view(refs@) =~= Seq::empty());
    push_type_refs(&mut refs, target, scope, false);
    let ghost all = cs_facts_view(refs@);
    let ghost orig = refs@;
    let n = refs.len();
    let mut k: usize = 0;
    assert(all.subrange(0, 0).filter(|f: CsFactView| !refers_to(f, name@)) =~= Seq::<CsFactView>::empty()) by {
        reveal(Seq::filter);
    }
    assert(cs_facts_view(out@) =~= start + all.subrange(0, 0).filter(|f: CsFactView| !refers_to(f, name@)));
    assert(orig.subrange(0, n as int) =~= orig);
    while refs.len() > 0
        invariant
            k <= n,
            n == orig.len(),
            all == cs_facts_view(orig),
            refs@ == orig.subrange(k as int, n as int),
            cs_facts_view(out@) == start + all.subrange(0, k as int).filter(|f: CsFactView| !refers_to(f, name@)),
        decreases n - k,
    {
        let f = refs.remove(0);
        assert(f == orig[k as int]);
        assert(refs@ =~= orig.subrange(k + 1, n as int));
        let keep = match &f {
            CsFact::Reference { name: nm, .. } => !str_eq(nm.as_str(), name.as_str()),
            _ => true,
        };
        let ghost before = cs_facts_view(out@);
        let ghost fv = cs_fact_view(f);
        assert(fv == all[k as int]);
        assert(keep == !refers_to(fv, name@));
        if keep {
            push_cs_fact(out, f);
        }
        proof {
            let s1 = all.subrange(0, k + 1);
            assert(s1.drop_last() =~= all.subrange(0, k as int));
            assert(s1.last() == fv);
            reveal(Seq::filter);
            if keep {
                assert(cs_facts_view(out@) =~= start + s1.filter(|f: CsFactView| !refers_to(f, name@)));
            } else {
                assert(cs_facts_view(out@) =~= start + s1.filter(|f: CsFactView| !refers_to(f, name@)));
            }
        }
        k += 1;
    }
    assert(all.subrange(0, n as int) =~= all);
    let alias_text = match alias {
        Some(a) => Some(strip_at(node.children[a].text.as_str())),
        None => None,
    };
    let is_static = token_of(node, "static");
    let global = token_of(node, "global");
    push_cs_fact(out, CsFact::Using { name, alias: alias_text, scope: scope.namespace.clone(), is_static, global });
    assert(cs_facts_view(out@) =~= start + using_facts(node@, cs_scope_view(*scope)));
}

/// The scope inside a node.
fn inner_scope_of(node: &SyntaxNode, scope: &CsWalkScope) -> (r: CsWalkScope)
    ensures
        cs_scope_view(r) == inner_cs_scope(node@, cs_scope_view(*scope)),
{
    proof {
        lemma_views_of(node.children@);
    }
    let params = first_kind(node, "type_parameter_list");
    let mut generics = crate::simulation::copy_texts(&scope.generics);
    if let Some(p) = params {
        let names = parameter_names_of(&node.children[p]);
        crate::languages::rust_walk::append_texts(&mut generics, &names);
    } else {
        assert(texts(generics@) =~= texts(scope.generics@) + Seq::empty());
    }
    let mut containers = crate::simulation::copy_texts(&scope.containers);
    if node.is_kind("class_declaration") || node.is_kind("struct_declaration") || node.is_kind("interface_declaration")
        || node.is_kind("record_declaration") || node.is_kind("enum_declaration") || node.is_kind("delegate_declaration") {
        if let Some(n) = node.field_child("name") {
            let base = chars_of(strip_at(node.children[n].text.as_str()).as_str());
            let full = match params {
                Some(p) => {
                    let mut tick = vec!['`'];
                    let digits = decimal_chars(count_named(&node.children[p]));
                    let tail = vec_concat(&tick, &digits);
                    assert(tick@ =~= seq!['`']);
                    vec_concat(&base, &tail)
                },
                None => {
                    let empty: Vec<char> = Vec::new();
                    vec_concat(&base, &empty)
                },
            };
            let ghost before = containers@;
            containers.push(string_of(&full));
            assert(texts(containers@) =~= texts(before).push(full@));
        }
    }
    let r = CsWalkScope { namespace: scope.namespace.clone(), containers, generics };
    assert(cs_scope_view(r).containers == inner_cs_scope(node@, cs_scope_view(*scope)).containers);
    assert(cs_scope_view(r).generics == inner_cs_scope(node@, cs_scope_view(*scope)).generics);
    r
}

/// Appends the references of the child filling `field`.
fn push_field_refs(out: &mut Vec<CsFact>, node: &SyntaxNode, field: &str, scope: &CsWalkScope, attribute: bool)
    ensures
        cs_facts_view(final(out)@) == cs_facts_view(old(out)@) + field_refs(node@, field@, cs_scope_view(*scope), attribute),
{
    proof {
        lemma_views_of(node.children@);
    }
    match node.field_child(field) {
        Some(i) => push_type_refs(out, &node.children[i], scope, attribute),
        None => {
            assert(cs_facts_view(out@) =~= cs_facts_view(old(out)@) + Seq::empty());
        },
    }
}

/// Appends the declaration and value facts of a node.
fn push_declared_values(out: &mut Vec<CsFact>, node: &SyntaxNode, inner: &CsWalkScope)
    ensures
        cs_facts_view(final(out)@) == cs_facts_view(old(out)@) + (if type_declaration_kind(node@.kind) && field_of(node@.children, "name"@) is Some {
            seq![CsFactView::Declaration(cs_qualified(cs_scope_view(*inner).namespace, join_with(cs_scope_view(*inner).containers, '.')), has_token(node@.children, "partial"@))]
        } else {
            Seq::empty()
        }) + (if value_kind(node@.kind) {
            match field_of(node@.children, "name"@) {
                Some(i) => if 0 <= i < node@.children.len() { seq![CsFactView::ValueName(at_stripped(node@.children[i].text))] } else { Seq::empty() },
                None => Seq::empty(),
            }
        } else {
            Seq::empty()
        }),
{
    proof {
        lemma_views_of(node.children@);
    }
    let ghost start = cs_facts_view(out@);
    let name = node.field_child("name");
    if (node.is_kind("class_declaration") || node.is_kind("struct_declaration") || node.is_kind("interface_declaration")
        || node.is_kind("record_declaration") || node.is_kind("enum_declaration") || node.is_kind("delegate_declaration"))
        && name.is_some() {
        let path = crate::languages::java_walk::join_dots_of(&inner.containers);
        let q = qualify(inner.namespace.as_str(), path.as_str());
        let partial = token_of(node, "partial");
        push_cs_fact(out, CsFact::Declaration { qualified: q, partial });
    } else {
        assert(cs_facts_view(out@) =~= start + Seq::empty());
    }
    let ghost mid = cs_facts_view(out@);
    if node.is_kind("variable_declarator") || node.is_kind("parameter") || node.is_kind("property_declaration")
        || node.is_kind("foreach_statement") || node.is_kind("catch_declaration") {
        if let Some(n) = name {
            push_cs_fact(out, CsFact::ValueName(strip_at(node.children[n].text.as_str())));
            assert(cs_facts_view(out@) =~= mid + seq![CsFactView::ValueName(at_stripped(node@.children[n as int].text))]);
        } else {
            assert(cs_facts_view(out@) =~= mid + Seq::empty());
        }
    } else {
        assert(cs_facts_view(out@) =~= mid + Seq::empty());
    }
}

/// Appends the kind-specific facts of a node.
fn push_specific(out: &mut Vec<CsFact>, node: &SyntaxNode, inner: &CsWalkScope)
    ensures
        cs_facts_view(final(out)@) == cs_facts_view(old(out)@) + (if node@.kind == "base_list"@ || node@.kind == "type_argument_list"@ {
            list_refs(node@.children, cs_scope_view(*inner), false)
        } else if node@.kind == "attribute"@ {
            field_refs(node@, "name"@, cs_scope_view(*inner), true)
        } else if node@.kind == "member_access_expression"@ {
            match field_of(node@.children, "expression"@) {
                Some(i) => if 0 <= i < node@.children.len() && named_type(node@.children[i]).len() > 0 {
                    seq![CsFactView::Receiver(named_type(node@.children[i]), cs_scope_view(*inner))]
                } else {
                    Seq::empty()
                },
                None => Seq::empty(),
            }
        } else {
            Seq::empty()
        }),
{
    proof {
        lemma_views_of(node.children@);
    }
    if node.is_kind("base_list") || node.is_kind("type_argument_list") {
        push_list_refs(out, node, inner, false);
    } else if node.is_kind("attribute") {
        push_field_refs(out, node, "name", inner, true);
    } else if node.is_kind("member_access_expression") {
        if let Some(e) = node.field_child("expression") {
            let name = named_type_of(&node.children[e]);
            if name.as_str().unicode_len() > 0 {
                push_cs_fact(out, CsFact::Receiver { name, scope: copy_scope(inner) });
                return;
            }
        }
        assert(cs_facts_view(out@) =~= cs_facts_view(old(out)@) + Seq::empty());
    } else {
        assert(cs_facts_view(out@) =~= cs_facts_view(old(out)@) + Seq::empty());
    }
}

/// Appends what one ordinary node says.
fn push_own_cs(out: &mut Vec<CsFact>, node: &SyntaxNode, inner: &CsWalkScope)
    ensures
        cs_facts_view(final(out)@) == cs_facts_view(old(out)@) + own_cs_facts(node@, cs_scope_view(*inner)),
{
    let ghost start = cs_facts_view(out@);
    push_declared_values(out, node, inner);
    push_field_refs(out, node, "type", inner, false);
    push_field_refs(out, node, "returns", inner, false);
    push_specific(out, node, inner);
    assert(cs_facts_view(out@) =~= start + own_cs_facts(node@, cs_scope_view(*inner)));
}

/// What comes after a node's own facts in the walk.
pub enum CsNext {
    /// Nothing below the node.
    Stop,
    /// The child at this position, in this scope (a namespace's body).
    Body(usize, CsWalkScope),
    /// Every named child, in this scope.
    Children(CsWalkScope),
}

/// Appends what a node says itself, and tells what the walk visits below it.
fn push_cs_node(out: &mut Vec<CsFact>, node: &SyntaxNode, scope: &CsWalkScope) -> (r: CsNext)
    ensures
        match r {
            CsNext::Stop => cs_facts_view(final(out)@) == cs_facts_view(old(out)@) + cs_facts(node@, cs_scope_view(*scope)),
            CsNext::Body(b, inner) => b < node.children@.len() && cs_facts_view(final(out)@) + cs_facts(node@.children[b as int], cs_scope_view(inner))
                == cs_facts_view(old(out)@) + cs_facts(node@, cs_scope_view(*scope)),
            CsNext::Children(inner) => cs_facts_view(final(out)@) == cs_facts_view(old(out)@) + own_cs_facts(node@, cs_scope_view(inner))
                && cs_facts(node@, cs_scope_view(*scope)) == own_cs_facts(node@, cs_scope_view(inner)) + cs_facts_list(node@.children, cs_scope_view(inner)),
        },
{
    proof {
        lemma_views_of(node.children@);
    }
    let ghost start = cs_facts_view(out@);
    if node.is_kind("file_scoped_namespace_declaration") {
        assert(cs_facts_view(out@) =~= start + Seq::empty());
        return CsNext::Stop;
    }
    if node.is_kind("namespace_declaration") {
        let namespace = match node.field_child("name") {
            Some(i) => qualify(scope.namespace.as_str(), named_type_of(&node.children[i]).as_str()),
            None => scope.namespace.clone(),
        };
        let inner = CsWalkScope {
            namespace: namespace.clone(),
            containers: crate::simulation::copy_texts(&scope.containers),
            generics: crate::simulation::copy_texts(&scope.generics),
        };
        push_cs_fact(out, CsFact::Namespace(namespace));
        let ghost mid = cs_facts_view(out@);
        match node.field_child("body") {
            Some(b) => {
                assert(cs_facts_view(out@) + cs_facts(node@.children[b as int], cs_scope_view(inner)) =~= start + cs_facts(node@, cs_scope_view(*scope)));
                return CsNext::Body(b, inner);
            },
            None => {
                assert(cs_facts_view(out@) =~= start + cs_facts(node@, cs_scope_view(*scope)));
                return CsNext::Stop;
            },
        }
    }
    if node.is_kind("using_directive") {
        push_using(out, node, scope);
        return CsNext::Stop;
    }
    let inner = inner_scope_of(node, scope);
    push_own_cs(out, node, &inner);
    CsNext::Children(inner)
}

/// The facts of the trees on a stack, each in its scope, the top one first.
pub open spec fn stack_cs_facts(st: Seq<(SyntaxView, CsScopeView)>) -> Seq<CsFactView>
    decreases st.len(),
{
    if st.len() == 0 {
        Seq::empty()
    } else {
        cs_facts(st.last().0, st.last().1) + stack_cs_facts(st.drop_last())
    }
}

/// The facts of two lists of trees, one after the other.
pub proof fn lemma_cs_concat(a: Seq<SyntaxView>, b: Seq<SyntaxView>, scope: CsScopeView)
    ensures
        cs_facts_list(a + b, scope) == cs_facts_list(a, scope) + cs_facts_list(b, scope),
    decreases b.len(),
{
    if b.len() == 0 {
        assert(a + b =~= a);
        assert(cs_facts_list(a, scope) + Seq::empty() =~= cs_facts_list(a, scope));
    } else {
        lemma_cs_concat(a, b.drop_last(), scope);
        assert((a + b).drop_last() =~= a + b.drop_last());
        assert(cs_facts_list(a + b, scope) =~= cs_facts_list(a, scope) + cs_facts_list(b, scope));
    }
}

/// The values of a stack of nodes with scopes.
pub open spec fn cs_scoped_view(st: Seq<(&SyntaxNode, CsWalkScope)>) -> Seq<(SyntaxView, CsScopeView)> {
    st.map_values(|p: (&SyntaxNode, CsWalkScope)| (syntax_view(*p.0), cs_scope_view(p.1)))
}

/// The trees of a stack of nodes with scopes.
pub open spec fn cs_scoped_trees(st: Seq<(&SyntaxNode, CsWalkScope)>) -> Seq<SyntaxView> {
    st.map_values(|p: (&SyntaxNode, CsWalkScope)| syntax_view(*p.0))
}

/// A non-empty list of trees has at least the size of any one of them.
proof fn lemma_forest_holds(f: Seq<SyntaxView>, i: int)
    requires
        0 <= i < f.len(),
    ensures
        forest_size(f) >= tree_size(f[i]),
    decreases f.len(),
{
    if i < f.len() - 1 {
        lemma_forest_holds(f.drop_last(), i);
        assert(f.drop_last()[i] == f[i]);
    }
}

/// Appends the facts of a C# tree in walk order, keeping the nodes still to
/// visit on a stack rather than recursing.
pub fn push_cs_facts(out: &mut Vec<CsFact>, root: &SyntaxNode, scope: &CsWalkScope)
    ensures
        cs_facts_view(final(out)@) == cs_facts_view(old(out)@) + cs_facts(root@, cs_scope_view(*scope)),
{
    let mut stack: Vec<(&SyntaxNode, CsWalkScope)> = Vec::new();
    stack.push((root, copy_scope(scope)));
    proof {
        let v = (root@, cs_scope_view(*scope));
        assert(cs_scoped_view(stack@) =~= seq![v]);
        assert(seq![v].drop_last() =~= Seq::<(SyntaxView, CsScopeView)>::empty());
        assert(seq![v].last() == v);
        assert(stack_cs_facts(Seq::<(SyntaxView, CsScopeView)>::empty()) =~= Seq::empty());
        assert(cs_facts(root@, cs_scope_view(*scope)) + Seq::empty() =~= cs_facts(root@, cs_scope_view(*scope)));
    }
    while stack.len() > 0
        invariant
            cs_facts_view(out@) + stack_cs_facts(cs_scoped_view(stack@)) == cs_facts_view(old(out)@) + cs_facts(root@, cs_scope_view(*scope)),
        decreases forest_size(cs_scoped_trees(stack@)),
    {
        let ghost before = stack@;
        let ghost start = cs_facts_view(out@);
        let (node, here) = stack.pop().unwrap();
        let ghost rest = stack@;
        proof {
            lemma_views_of(node.children@);
            assert(before.drop_last() =~= rest);
            assert(cs_scoped_view(before).drop_last() =~= cs_scoped_view(rest));
            assert(cs_scoped_view(before).last() == (node@, cs_scope_view(here)));
            assert(cs_scoped_trees(before).drop_last() =~= cs_scoped_trees(rest));
            assert(cs_scoped_trees(before).last() == node@);
            assert(forest_size(cs_scoped_trees(before)) == forest_size(cs_scoped_trees(rest)) + tree_size(node@));
            assert(stack_cs_facts(cs_scoped_view(before)) == cs_facts(node@, cs_scope_view(here)) + stack_cs_facts(cs_scoped_view(rest)));
        }
        match push_cs_node(out, node, &here) {
            CsNext::Stop => {},
            CsNext::Body(b, inner) => {
                let ghost st = stack@;
                stack.push((&node.children[b], inner));
                proof {
                    let c = node@.children[b as int];
                    assert(cs_scoped_view(stack@).drop_last() =~= cs_scoped_view(st));
                    assert(cs_scoped_view(stack@).last() == (c, cs_scope_view(inner)));
                    assert(cs_scoped_trees(stack@) =~= cs_scoped_trees(st).push(c));
                    assert(cs_scoped_trees(stack@).drop_last() =~= cs_scoped_trees(st));
                    lemma_forest_holds(node@.children, b as int);
                    let a1 = cs_facts_view(out@);
                    let b1 = cs_facts(c, cs_scope_view(inner));
                    let c1 = stack_cs_facts(cs_scoped_view(rest));
                    assert((a1 + b1) + c1 =~= a1 + (b1 + c1));
                    assert((start + cs_facts(node@, cs_scope_view(here))) + c1 =~= start + (cs_facts(node@, cs_scope_view(here)) + c1));
                }
            },
            CsNext::Children(inner) => {
                let ghost sv = cs_scope_view(inner);
                let ghost kids = node@.children;
                let mut k: usize = node.children.len();
                assert(kids.subrange(k as int, kids.len() as int) =~= Seq::<SyntaxView>::empty());
                while k > 0
                    invariant
                        k <= node.children@.len(),
                        kids == node@.children,
                        kids == views_of(node.children@),
                        kids.len() == node.children@.len(),
                        sv == cs_scope_view(inner),
                        forall|j: int| 0 <= j < node.children@.len() ==> #[trigger] views_of(node.children@)[j] == syntax_view(node.children@[j]),
                        stack_cs_facts(cs_scoped_view(stack@)) == cs_facts_list(kids.subrange(k as int, kids.len() as int), sv) + stack_cs_facts(cs_scoped_view(rest)),
                        forest_size(cs_scoped_trees(stack@)) <= forest_size(cs_scoped_trees(rest)) + forest_size(kids.subrange(k as int, kids.len() as int)),
                    decreases k,
                {
                    k -= 1;
                    let ghost st = stack@;
                    let ghost c = kids[k as int];
                    let ghost tail = kids.subrange(k + 1, kids.len() as int);
                    proof {
                        assert(kids.subrange(k as int, kids.len() as int) =~= seq![c] + tail);
                        lemma_cs_concat(seq![c], tail, sv);
                        assert(seq![c].drop_last() =~= Seq::<SyntaxView>::empty());
                        assert(seq![c].last() == c);
                        assert(cs_facts_list(Seq::<SyntaxView>::empty(), sv) =~= Seq::empty());
                        crate::syntax::lemma_forest_concat(seq![c], tail);
                        assert(forest_size(Seq::<SyntaxView>::empty()) == 0);
                        assert(forest_size(seq![c]) == tree_size(c));
                    }
                    if node.children[k].named {
                        let copy = copy_scope(&inner);
                        stack.push((&node.children[k], copy));
                        proof {
                            assert(cs_scoped_view(stack@) =~= cs_scoped_view(st).push((c, sv)));
                            assert(cs_scoped_view(stack@).drop_last() =~= cs_scoped_view(st));
                            assert(cs_scoped_trees(stack@) =~= cs_scoped_trees(st).push(c));
                            assert(cs_scoped_trees(stack@).drop_last() =~= cs_scoped_trees(st));
                            assert(cs_facts_list(seq![c], sv) =~= cs_facts(c, sv));
                        }
                    } else {
                        assert(cs_facts_list(seq![c], sv) =~= Seq::<CsFactView>::empty());
                    }
                }
                proof {
                    assert(kids.subrange(0, kids.len() as int) =~= kids);
                }
            },
        }
        assert(cs_facts_view(out@) + stack_cs_facts(cs_scoped_view(stack@)) =~= start + stack_cs_facts(cs_scoped_view(before)));
    }
    assert(cs_scoped_view(stack@) =~= Seq::<(SyntaxView, CsScopeView)>::empty());
}

/// The namespace a file-scoped namespace declaration among the root's named
/// children names, or none.
pub open spec fn file_namespace(root: SyntaxView) -> Seq<char> {
    match kind_at(root.children, "file_scoped_namespace_declaration"@, 0) {
        Some(i) => if 0 <= i < root.children.len() {
            let d = root.children[i];
            match field_of(d.children, "name"@) {
                Some(n) => if 0 <= n < d.children.len() { named_type(d.children[n]) } else { Seq::empty() },
                None => Seq::empty(),
            }
        } else {
            Seq::empty()
        },
        None => Seq::empty(),
    }
}

/// The facts of a C# syntax tree: the file's namespace, then the walk from the root in it.
pub fn csharp_file_facts(tree: &SyntaxNode) -> (r: Vec<CsFact>)
    ensures
        cs_facts_view(r@) == seq![CsFactView::Namespace(file_namespace(tree@))] + cs_facts(
            tree@,
            (CsScopeView { namespace: file_namespace(tree@), containers: Seq::empty(), generics: Seq::empty() }),
        ),
{
    proof {
        lemma_views_of(tree.children@);
        reveal_strlit("");
    }
    let namespace = match first_kind(tree, "file_scoped_namespace_declaration") {
        Some(i) => {
            let d = &tree.children[i];
            proof {
                lemma_views_of(d.children@);
            }
            match d.field_child("name") {
                Some(n) => named_type_of(&d.children[n]),
                None => String::new(),
            }
        },
        None => String::new(),
    };
    let scope = CsWalkScope { namespace: namespace.clone(), containers: Vec::new(), generics: Vec::new() };
    assert(cs_scope_view(scope) == (CsScopeView { namespace: file_namespace(tree@), containers: Seq::empty(), generics: Seq::empty() })) by {
        assert(texts(scope.containers@) =~= Seq::empty());
        assert(texts(scope.generics@) =~= Seq::empty());
    }
    let mut out: Vec<CsFact> = Vec::new();
    assert(cs_facts_view(out@) =~= Seq::empty());
    push_cs_fact(&mut out, CsFact::Namespace(namespace));
    push_cs_facts(&mut out, tree, &scope);
    out
}

/// Whether a receiver names a type rather than a value of the file: its first
/// segment is none of the file's value names.
pub fn receiver_kept(name: &str, values: &Vec<String>) -> (r: bool)
    ensures
        r == !texts(values@).contains(first_segment(name@)),
{
    let first = crate::languages::java_walk::first_segment_text(name);
    let mut i: usize = 0;
    while i < values.len()
        invariant
            i <= values@.len(),
            first@ == first_segment(name@),
            forall|j: int| 0 <= j < i ==> values@[j]@ != first@,
        decreases values@.len() - i,
    {
        if str_eq(values[i].as_str(), first.as_str()) {
            assert(texts(values@)[i as int] == first@);
            return false;
        }
        i += 1;
    }
    assert(!texts(values@).contains(first@));
    true
}

/// The syntax tree of a C# source, which the parser always gives.
pub fn parse_csharp_source(source: &str) -> (r: Result<SyntaxNode, &'static str>)
    ensures
        r matches Ok(t) ==> t@ == csharp_syntax(source@),
        r is Ok,
{
    match parse_csharp(source) {
        Some(t) => Ok(t),
        None => Err("C# syntax tree could not be parsed."),
    }
}

} // verus!
