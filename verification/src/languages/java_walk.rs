//! The walk over one Java syntax tree: its package, imports, declared types,
//! and the type names it refers to.
use vstd::prelude::*;
use crate::analysis::{is_white, white_space};
use crate::languages::java::{import_views, qualified, qualify, JavaImport};
use crate::order::texts;
use crate::syntax::{
    forest_size, tree_size,
    field_of, java_syntax, lemma_views_of, parse_java, syntax_view, views_of, SyntaxNode,
    SyntaxView,
};
use crate::text_util::{chars_of, join_with, push_char, str_eq, string_of, vec_join, views};

verus! {

/// One fact found in a Java file.
#[derive(Debug, PartialEq, Eq)]
pub enum JavaFact {
    /// A type declared in the file: its qualified name and simple name, for
    /// types not declared inside a method, constructor, lambda or block.
    Declaration { qualified: String, simple: String },
    /// The simple name of any type declared in the file.
    LocalType(String),
    /// The name of a variable or parameter.
    ValueName(String),
    /// A type name the file refers to.
    Reference(String),
    /// The receiver of a call, field access or method reference.
    Receiver(String),
}

/// The mathematical value of a [`JavaFact`].
pub enum JavaFactView {
    Declaration(Seq<char>, Seq<char>),
    LocalType(Seq<char>),
    ValueName(Seq<char>),
    Reference(Seq<char>),
    Receiver(Seq<char>),
}

/// The value of a fact.
pub open spec fn java_fact_view(f: JavaFact) -> JavaFactView {
    match f {
        JavaFact::Declaration { qualified, simple } => JavaFactView::Declaration(qualified@, simple@),
        JavaFact::LocalType(s) => JavaFactView::LocalType(s@),
        JavaFact::ValueName(s) => JavaFactView::ValueName(s@),
        JavaFact::Reference(s) => JavaFactView::Reference(s@),
        JavaFact::Receiver(s) => JavaFactView::Receiver(s@),
    }
}

/// The values of a list of facts.
pub open spec fn java_facts_view(s: Seq<JavaFact>) -> Seq<JavaFactView> {
    s.map_values(|f: JavaFact| java_fact_view(f))
}

/// The identifiers below a node, in order; an identifier is not entered.
pub open spec fn idents(n: SyntaxView) -> Seq<Seq<char>>
    decreases n,
{
    if n.kind == "identifier"@ {
        seq![n.text]
    } else {
        idents_list(n.children)
    }
}

/// The identifiers below the named nodes among `children`, in order.
pub open spec fn idents_list(children: Seq<SyntaxView>) -> Seq<Seq<char>>
    decreases children,
{
    if children.len() == 0 {
        Seq::empty()
    } else {
        idents_list(children.drop_last()) + if children.last().named {
            idents(children.last())
        } else {
            Seq::empty()
        }
    }
}

/// The dotted name the identifiers below a node spell.
pub open spec fn dotted(n: SyntaxView) -> Seq<char> {
    join_with(idents(n), '.')
}

/// A type's text without its type arguments and white space, with the depth of
/// open `<` after it.
pub open spec fn bare_type_state(s: Seq<char>) -> (Seq<char>, nat)
    decreases s.len(),
{
    if s.len() == 0 {
        (Seq::empty(), 0)
    } else {
        let (out, depth) = bare_type_state(s.drop_last());
        let c = s.last();
        if c == '<' {
            (out, depth + 1)
        } else if c == '>' {
            (out, if depth > 0 { (depth - 1) as nat } else { 0 })
        } else if depth == 0 && !white_space(c) {
            (out.push(c), depth)
        } else {
            (out, depth)
        }
    }
}

/// A type's text without its type arguments and white space.
pub open spec fn bare_type(s: Seq<char>) -> Seq<char> {
    bare_type_state(s).0
}

/// Everything before the first `.`, or all of `s`.
pub open spec fn first_segment(s: Seq<char>) -> Seq<char>
    decreases s.len(),
{
    if s.len() == 0 {
        s
    } else if s[0] == '.' {
        Seq::empty()
    } else {
        seq![s[0]] + first_segment(s.drop_first())
    }
}

/// A node kind that declares a type.
pub open spec fn declaration_kind(k: Seq<char>) -> bool {
    k == "class_declaration"@ || k == "interface_declaration"@ || k == "enum_declaration"@ || k
        == "record_declaration"@ || k == "annotation_type_declaration"@
}

/// A node kind below which declarations are local.
pub open spec fn local_scope_kind(k: Seq<char>) -> bool {
    k == "method_declaration"@ || k == "constructor_declaration"@ || k == "lambda_expression"@ || k
        == "block"@
}

/// A node kind that names a value.
pub open spec fn value_kind(k: Seq<char>) -> bool {
    k == "variable_declarator"@ || k == "formal_parameter"@ || k == "spread_parameter"@ || k
        == "catch_formal_parameter"@
}

/// The name a type parameter declares: its first named type identifier.
pub open spec fn parameter_name(p: SyntaxView) -> Seq<Seq<char>>
    decreases p.children.len(),
{
    first_type_identifier(p.children)
}

/// The text of the first named type identifier among `children`.
pub open spec fn first_type_identifier(children: Seq<SyntaxView>) -> Seq<Seq<char>>
    decreases children.len(),
{
    if children.len() == 0 {
        Seq::empty()
    } else if children[0].named && children[0].kind == "type_identifier"@ {
        seq![children[0].text]
    } else {
        first_type_identifier(children.drop_first())
    }
}

/// The names of the type parameters among `children` (named `type_parameter` nodes).
pub open spec fn parameter_names(children: Seq<SyntaxView>) -> Seq<Seq<char>>
    decreases children.len(),
{
    if children.len() == 0 {
        Seq::empty()
    } else {
        parameter_names(children.drop_last()) + if children.last().named && children.last().kind
            == "type_parameter"@ {
            parameter_name(children.last())
        } else {
            Seq::empty()
        }
    }
}

/// The type parameter names a node declares in its `type_parameters` children.
pub open spec fn declared_generics(children: Seq<SyntaxView>) -> Seq<Seq<char>>
    decreases children.len(),
{
    if children.len() == 0 {
        Seq::empty()
    } else {
        declared_generics(children.drop_last()) + if children.last().named && children.last().kind
            == "type_parameters"@ {
            parameter_names(children.last().children)
        } else {
            Seq::empty()
        }
    }
}

/// Where the walk stands: the names of the enclosing type declarations, whether
/// it is inside a method, constructor, lambda or block, the type parameters in
/// scope, and the kind of the parent node.
pub struct JavaScope {
    pub outer: Seq<Seq<char>>,
    pub local: bool,
    pub generics: Seq<Seq<char>>,
    pub parent: Seq<char>,
}

/// The child of `n` that fills `field`, if any.
pub open spec fn child_at(n: SyntaxView, field: Seq<char>) -> Option<SyntaxView> {
    match field_of(n.children, field) {
        Some(i) => if 0 <= i < n.children.len() {
            Some(n.children[i])
        } else {
            None
        },
        None => None,
    }
}

/// The type a node refers to or the receiver it uses, if any.
pub open spec fn referenced_facts(n: SyntaxView, scope: JavaScope, generics: Seq<Seq<char>>) -> Seq<JavaFactView> {
    if n.kind == "scoped_type_identifier"@ {
        if !generics.contains(first_segment(bare_type(n.text))) {
            seq![JavaFactView::Reference(bare_type(n.text))]
        } else {
            Seq::empty()
        }
    } else if n.kind == "type_identifier"@ {
        if scope.parent != "scoped_type_identifier"@ && !generics.contains(first_segment(n.text)) {
            seq![JavaFactView::Reference(n.text)]
        } else {
            Seq::empty()
        }
    } else if n.kind == "annotation"@ || n.kind == "marker_annotation"@ {
        match child_at(n, "name"@) {
            Some(name) => seq![JavaFactView::Reference(dotted(name))],
            None => Seq::empty(),
        }
    } else if n.kind == "method_invocation"@ || n.kind == "field_access"@ || n.kind == "method_reference"@ {
        match child_at(n, "object"@) {
            Some(object) => if (object.kind == "identifier"@ || object.kind == "field_access"@)
                && !generics.contains(first_segment(dotted(object))) {
                seq![JavaFactView::Receiver(dotted(object))]
            } else {
                Seq::empty()
            },
            None => Seq::empty(),
        }
    } else {
        Seq::empty()
    }
}

/// What one node says, with `generics` the type parameters in scope at it.
pub open spec fn node_facts(n: SyntaxView, scope: JavaScope, package: Seq<char>, generics: Seq<Seq<char>>) -> Seq<JavaFactView> {
    let declared = if declaration_kind(n.kind) {
        match child_at(n, "name"@) {
            Some(name) => seq![JavaFactView::LocalType(name.text)] + if !scope.local {
                seq![JavaFactView::Declaration(qualified(package, join_with(scope.outer.push(name.text), '.')), name.text)]
            } else {
                Seq::empty()
            },
            None => Seq::empty(),
        }
    } else {
        Seq::empty()
    };
    let valued = if value_kind(n.kind) {
        match child_at(n, "name"@) {
            Some(name) => seq![JavaFactView::ValueName(name.text)],
            None => Seq::empty(),
        }
    } else {
        Seq::empty()
    };
    let referenced = if n.kind == "scoped_type_identifier"@ {
        if !generics.contains(first_segment(bare_type(n.text))) {
            seq![JavaFactView::Reference(bare_type(n.text))]
        } else {
            Seq::empty()
        }
    } else if n.kind == "type_identifier"@ {
        if scope.parent != "scoped_type_identifier"@ && !generics.contains(first_segment(n.text)) {
            seq![JavaFactView::Reference(n.text)]
        } else {
            Seq::empty()
        }
    } else if n.kind == "annotation"@ || n.kind == "marker_annotation"@ {
        match child_at(n, "name"@) {
            Some(name) => seq![JavaFactView::Reference(dotted(name))],
            None => Seq::empty(),
        }
    } else if n.kind == "method_invocation"@ || n.kind == "field_access"@ || n.kind == "method_reference"@ {
        match child_at(n, "object"@) {
            Some(object) => if (object.kind == "identifier"@ || object.kind == "field_access"@)
                && !generics.contains(first_segment(dotted(object))) {
                seq![JavaFactView::Receiver(dotted(object))]
            } else {
                Seq::empty()
            },
            None => Seq::empty(),
        }
    } else {
        Seq::empty()
    };
    declared + valued + referenced
}

/// The scope of the children of `n`.
pub open spec fn inner_scope(n: SyntaxView, scope: JavaScope, generics: Seq<Seq<char>>) -> JavaScope {
    JavaScope {
        outer: if declaration_kind(n.kind) {
            match child_at(n, "name"@) {
                Some(name) => scope.outer.push(name.text),
                None => scope.outer,
            }
        } else {
            scope.outer
        },
        local: scope.local || local_scope_kind(n.kind),
        generics,
        parent: n.kind,
    }
}

/// The facts of a tree, node before children, package and import declarations skipped.
pub open spec fn java_facts(n: SyntaxView, scope: JavaScope, package: Seq<char>) -> Seq<JavaFactView>
    decreases n,
{
    if n.kind == "package_declaration"@ || n.kind == "import_declaration"@ {
        Seq::empty()
    } else {
        let generics = scope.generics + declared_generics(n.children);
        node_facts(n, scope, package, generics) + java_facts_list(n.children, inner_scope(n, scope, generics), package)
    }
}

/// The facts of the named nodes among `children`, in order.
pub open spec fn java_facts_list(children: Seq<SyntaxView>, scope: JavaScope, package: Seq<char>) -> Seq<JavaFactView>
    decreases children,
{
    if children.len() == 0 {
        Seq::empty()
    } else {
        java_facts_list(children.drop_last(), scope, package) + if children.last().named {
            java_facts(children.last(), scope, package)
        } else {
            Seq::empty()
        }
    }
}

/// Where an executing walk stands.
pub struct JavaWalkScope {
    pub outer: Vec<String>,
    pub local: bool,
    pub generics: Vec<String>,
    pub parent: String,
}

/// The value of a walk scope.
pub open spec fn scope_view(s: JavaWalkScope) -> JavaScope {
    JavaScope { outer: texts(s.outer@), local: s.local, generics: texts(s.generics@), parent: s.parent@ }
}

/// The identifiers below a node.
fn identifiers(node: &SyntaxNode) -> (r: Vec<String>)
    ensures
        texts(r@) == idents(node@),
    decreases node,
{
    proof {
        lemma_views_of(node.children@);
    }
    let mut out: Vec<String> = Vec::new();
    if node.is_kind("identifier") {
        out.push(node.text.clone());
        assert(texts(out@) =~= seq![node@.text]);
        return out;
    }
    let mut i: usize = 0;
    assert(texts(out@) =~= idents_list(node@.children.subrange(0, 0)));
    while i < node.children.len()
        invariant
            i <= node.children@.len(),
            node@.kind != "identifier"@,
            node@.children == views_of(node.children@),
            views_of(node.children@).len() == node.children@.len(),
            forall|j: int| 0 <= j < node.children@.len() ==> #[trigger] views_of(node.children@)[j] == syntax_view(node.children@[j]),
            texts(out@) == idents_list(node@.children.subrange(0, i as int)),
        decreases node.children@.len() - i,
    {
        let ghost before = texts(out@);
        if node.children[i].named {
            let more = identifiers(&node.children[i]);
            crate::languages::rust_walk::append_texts(&mut out, &more);
        } else {
            assert(texts(out@) =~= before + Seq::empty());
        }
        proof {
            let s = node@.children.subrange(0, i + 1);
            assert(s.drop_last() =~= node@.children.subrange(0, i as int));
            assert(s.last() == node@.children[i as int]);
        }
        i += 1;
    }
    assert(node@.children.subrange(0, node@.children.len() as int) =~= node@.children);
    out
}

/// The parts joined by `.`.
pub(crate) fn join_dots_of(parts: &Vec<String>) -> (r: String)
    ensures
        r@ == join_with(texts(parts@), '.'),
{
    join_dots(parts)
}

/// Everything before the first `.` of a text.
pub(crate) fn first_segment_text(s: &str) -> (r: String)
    ensures
        r@ == first_segment(s@),
{
    first_segment_of(s)
}

/// The parts joined by `.`.
fn join_dots(parts: &Vec<String>) -> (r: String)
    ensures
        r@ == join_with(texts(parts@), '.'),
{
    let mut cs: Vec<Vec<char>> = Vec::new();
    let mut i: usize = 0;
    while i < parts.len()
        invariant
            i <= parts@.len(),
            views(cs@) == texts(parts@.subrange(0, i as int)),
        decreases parts@.len() - i,
    {
        let ghost before = cs@;
        let x = chars_of(parts[i].as_str());
        cs.push(x);
        assert(cs@ == before.push(x));
        assert(views(cs@) =~= views(before).push(parts@[i as int]@));
        i += 1;
        assert(views(cs@) =~= texts(parts@.subrange(0, i as int)));
    }
    assert(parts@.subrange(0, parts@.len() as int) =~= parts@);
    string_of(&vec_join(&cs, '.'))
}

/// The dotted name the identifiers below a node spell.
fn dotted_of(node: &SyntaxNode) -> (r: String)
    ensures
        r@ == dotted(node@),
{
    join_dots(&identifiers(node))
}

/// A type's text without its type arguments and white space.
fn bare_type_of(text: &str) -> (r: String)
    ensures
        r@ == bare_type(text@),
{
    let cs = chars_of(text);
    let mut out = String::new();
    let mut depth: usize = 0;
    let mut i: usize = 0;
    assert(text@.subrange(0, 0) =~= Seq::<char>::empty());
    while i < cs.len()
        invariant
            i <= cs@.len(),
            cs@ == text@,
            depth <= i,
            (out@, depth as nat) == bare_type_state(text@.subrange(0, i as int)),
        decreases cs@.len() - i,
    {
        let c = cs[i];
        proof {
            let s = text@.subrange(0, i + 1);
            assert(s.drop_last() =~= text@.subrange(0, i as int));
            assert(s.last() == c);
        }
        if c == '<' {
            depth = depth + 1;
        } else if c == '>' {
            if depth > 0 {
                depth = depth - 1;
            }
        } else if depth == 0 && !is_white(c) {
            push_char(&mut out, c);
        }
        i += 1;
    }
    assert(text@.subrange(0, text@.len() as int) =~= text@);
    out
}

/// Everything before the first `.`.
fn first_segment_of(s: &str) -> (r: String)
    ensures
        r@ == first_segment(s@),
{
    let cs = chars_of(s);
    let mut i: usize = 0;
    assert(s@.subrange(0, 0) + first_segment(s@.subrange(0, s@.len() as int)) =~= first_segment(s@)) by {
        assert(s@.subrange(0, s@.len() as int) =~= s@);
    }
    while i < cs.len() && cs[i] != '.'
        invariant
            i <= cs@.len(),
            cs@ == s@,
            first_segment(s@) == s@.subrange(0, i as int) + first_segment(s@.subrange(i as int, s@.len() as int)),
        decreases cs@.len() - i,
    {
        proof {
            let t = s@.subrange(i as int, s@.len() as int);
            assert(t.drop_first() =~= s@.subrange(i + 1, s@.len() as int));
            assert(s@.subrange(0, i + 1) =~= s@.subrange(0, i as int) + seq![t[0]]);
        }
        i += 1;
    }
    proof {
        let t = s@.subrange(i as int, s@.len() as int);
        assert(first_segment(t) =~= Seq::<char>::empty());
    }
    let r = string_of(&crate::text_util::vec_slice(&cs, 0, i));
    assert(r@ =~= first_segment(s@));
    r
}

/// Whether `v` holds `s`.
fn holds(v: &Vec<String>, s: &str) -> (r: bool)
    ensures
        r == texts(v@).contains(s@),
{
    let mut i: usize = 0;
    while i < v.len()
        invariant
            i <= v@.len(),
            forall|j: int| 0 <= j < i ==> v@[j]@ != s@,
        decreases v@.len() - i,
    {
        if str_eq(v[i].as_str(), s) {
            assert(texts(v@)[i as int] == s@);
            return true;
        }
        i += 1;
    }
    assert(!texts(v@).contains(s@));
    false
}

/// The type parameter names declared in the `type_parameters` children of a node.
fn generics_of(node: &SyntaxNode) -> (r: Vec<String>)
    ensures
        texts(r@) == declared_generics(node@.children),
{
    proof {
        lemma_views_of(node.children@);
    }
    let mut out: Vec<String> = Vec::new();
    let mut i: usize = 0;
    assert(texts(out@) =~= declared_generics(node@.children.subrange(0, 0)));
    while i < node.children.len()
        invariant
            i <= node.children@.len(),
            node@.children == views_of(node.children@),
            views_of(node.children@).len() == node.children@.len(),
            forall|j: int| 0 <= j < node.children@.len() ==> #[trigger] views_of(node.children@)[j] == syntax_view(node.children@[j]),
            texts(out@) == declared_generics(node@.children.subrange(0, i as int)),
        decreases node.children@.len() - i,
    {
        let c = &node.children[i];
        let ghost before = texts(out@);
        if c.named && c.is_kind("type_parameters") {
            proof {
                lemma_views_of(c.children@);
            }
            let mut k: usize = 0;
            assert(texts(out@) =~= before + parameter_names(c@.children.subrange(0, 0)));
            while k < c.children.len()
                invariant
                    k <= c.children@.len(),
                    c@.children == views_of(c.children@),
                    views_of(c.children@).len() == c.children@.len(),
                    forall|j: int| 0 <= j < c.children@.len() ==> #[trigger] views_of(c.children@)[j] == syntax_view(c.children@[j]),
                    texts(out@) == before + parameter_names(c@.children.subrange(0, k as int)),
                decreases c.children@.len() - k,
            {
                let p = &c.children[k];
                let ghost mid = texts(out@);
                if p.named && p.is_kind("type_parameter") {
                    proof {
                        lemma_views_of(p.children@);
                    }
                    let mut m: usize = 0;
                    assert(p@.children.subrange(0, p@.children.len() as int) =~= p@.children);
                    while m < p.children.len() && !(p.children[m].named && p.children[m].is_kind("type_identifier"))
                        invariant
                            m <= p.children@.len(),
                            p@.children == views_of(p.children@),
                            views_of(p.children@).len() == p.children@.len(),
                            forall|j: int| 0 <= j < p.children@.len() ==> #[trigger] views_of(p.children@)[j] == syntax_view(p.children@[j]),
                            parameter_name(p@) == first_type_identifier(p@.children.subrange(m as int, p@.children.len() as int)),
                        decreases p.children@.len() - m,
                    {
                        proof {
                            let t = p@.children.subrange(m as int, p@.children.len() as int);
                            assert(t.drop_first() =~= p@.children.subrange(m + 1, p@.children.len() as int));
                        }
                        m += 1;
                    }
                    if m < p.children.len() {
                        proof {
                            let t = p@.children.subrange(m as int, p@.children.len() as int);
                            assert(t[0] == p@.children[m as int]);
                        }
                        out.push(p.children[m].text.clone());
                        assert(texts(out@) =~= mid + parameter_name(p@));
                    } else {
                        assert(texts(out@) =~= mid + parameter_name(p@));
                    }
                } else {
                    assert(texts(out@) =~= mid + Seq::empty());
                }
                proof {
                    let t = c@.children.subrange(0, k + 1);
                    assert(t.drop_last() =~= c@.children.subrange(0, k as int));
                    assert(t.last() == c@.children[k as int]);
                }
                k += 1;
            }
            assert(c@.children.subrange(0, c@.children.len() as int) =~= c@.children);
        } else {
            assert(texts(out@) =~= before + Seq::empty());
        }
        proof {
            let t = node@.children.subrange(0, i + 1);
            assert(t.drop_last() =~= node@.children.subrange(0, i as int));
            assert(t.last() == node@.children[i as int]);
        }
        i += 1;
    }
    assert(node@.children.subrange(0, node@.children.len() as int) =~= node@.children);
    out
}

/// Appends a fact.
fn push_java_fact(out: &mut Vec<JavaFact>, f: JavaFact)
    ensures
        java_facts_view(final(out)@) == java_facts_view(old(out)@).push(java_fact_view(f)),
{
    let ghost v = java_fact_view(f);
    out.push(f);
    assert(java_facts_view(out@) =~= java_facts_view(old(out)@).push(v));
}

/// Appends what a declaration or value node declares.
fn push_declared(out: &mut Vec<JavaFact>, node: &SyntaxNode, scope: &JavaWalkScope, package: &str)
    ensures
        java_facts_view(final(out)@) == java_facts_view(old(out)@) + (if declaration_kind(node@.kind) {
            match child_at(node@, "name"@) {
                Some(name) => seq![JavaFactView::LocalType(name.text)] + if !scope_view(*scope).local {
                    seq![JavaFactView::Declaration(qualified(package@, join_with(scope_view(*scope).outer.push(name.text), '.')), name.text)]
                } else {
                    Seq::empty()
                },
                None => Seq::empty(),
            }
        } else {
            Seq::empty()
        }) + (if value_kind(node@.kind) {
            match child_at(node@, "name"@) {
                Some(name) => seq![JavaFactView::ValueName(name.text)],
                None => Seq::empty(),
            }
        } else {
            Seq::empty()
        }),
{
    proof {
        lemma_views_of(node.children@);
    }
    let ghost start = java_facts_view(out@);
    if node.is_kind("class_declaration") || node.is_kind("interface_declaration") || node.is_kind("enum_declaration")
        || node.is_kind("record_declaration") || node.is_kind("annotation_type_declaration") {
        if let Some(n) = node.field_child("name") {
            let simple = &node.children[n].text;
            push_java_fact(out, JavaFact::LocalType(simple.clone()));
            if !scope.local {
                let mut path = crate::simulation::copy_texts(&scope.outer);
                path.push(simple.clone());
                assert(texts(path@) =~= texts(scope.outer@).push(simple@));
                let q = qualify(package, join_dots(&path).as_str());
                push_java_fact(out, JavaFact::Declaration { qualified: q, simple: simple.clone() });
            }
        }
    }
    let ghost mid = java_facts_view(out@);
    assert(mid =~= start + (if declaration_kind(node@.kind) {
            match child_at(node@, "name"@) {
                Some(name) => seq![JavaFactView::LocalType(name.text)] + if !scope_view(*scope).local {
                    seq![JavaFactView::Declaration(qualified(package@, join_with(scope_view(*scope).outer.push(name.text), '.')), name.text)]
                } else {
                    Seq::empty()
                },
                None => Seq::empty(),
            }
        } else {
            Seq::empty()
        }));
    if node.is_kind("variable_declarator") || node.is_kind("formal_parameter") || node.is_kind("spread_parameter")
        || node.is_kind("catch_formal_parameter") {
        if let Some(n) = node.field_child("name") {
            push_java_fact(out, JavaFact::ValueName(node.children[n].text.clone()));
        }
    }
    assert(java_facts_view(out@) =~= mid + (if value_kind(node@.kind) {
            match child_at(node@, "name"@) {
                Some(name) => seq![JavaFactView::ValueName(name.text)],
                None => Seq::empty(),
            }
        } else {
            Seq::empty()
        }));
}

/// Appends the type a node refers to or the receiver it uses.
fn push_referenced(out: &mut Vec<JavaFact>, node: &SyntaxNode, scope: &JavaWalkScope, generics: &Vec<String>)
    ensures
        java_facts_view(final(out)@) == java_facts_view(old(out)@) + referenced_facts(node@, scope_view(*scope), texts(generics@)),
{
    proof {
        lemma_views_of(node.children@);
    }
    let ghost start = java_facts_view(out@);
    if node.is_kind("scoped_type_identifier") {
        let name = bare_type_of(node.text.as_str());
        if !holds(generics, first_segment_of(name.as_str()).as_str()) {
            push_java_fact(out, JavaFact::Reference(name));
        }
    } else if node.is_kind("type_identifier") {
        if !str_eq(scope.parent.as_str(), "scoped_type_identifier") && !holds(generics, first_segment_of(node.text.as_str()).as_str()) {
            push_java_fact(out, JavaFact::Reference(node.text.clone()));
        }
    } else if node.is_kind("annotation") || node.is_kind("marker_annotation") {
        if let Some(n) = node.field_child("name") {
            push_java_fact(out, JavaFact::Reference(dotted_of(&node.children[n])));
        }
    } else if node.is_kind("method_invocation") || node.is_kind("field_access") || node.is_kind("method_reference") {
        if let Some(o) = node.field_child("object") {
            let object = &node.children[o];
            if object.is_kind("identifier") || object.is_kind("field_access") {
                let name = dotted_of(object);
                if !holds(generics, first_segment_of(name.as_str()).as_str()) {
                    push_java_fact(out, JavaFact::Receiver(name));
                }
            }
        }
    }
    assert(java_facts_view(out@) =~= start + referenced_facts(node@, scope_view(*scope), texts(generics@)));
}

/// A copy of a walk scope.
fn copy_scope(s: &JavaWalkScope) -> (r: JavaWalkScope)
    ensures
        scope_view(r) == scope_view(*s),
{
    JavaWalkScope {
        outer: crate::simulation::copy_texts(&s.outer),
        local: s.local,
        generics: crate::simulation::copy_texts(&s.generics),
        parent: s.parent.clone(),
    }
}

/// The type parameters in scope at a node.
pub open spec fn generics_at(n: SyntaxView, scope: JavaScope) -> Seq<Seq<char>> {
    scope.generics + declared_generics(n.children)
}

/// Appends what a node says, and gives the scope of its children; none for a
/// package or import declaration, which is not entered.
fn push_java_node(out: &mut Vec<JavaFact>, node: &SyntaxNode, scope: &JavaWalkScope, package: &str) -> (r: Option<JavaWalkScope>)
    ensures
        r is None <==> (node@.kind == "package_declaration"@ || node@.kind == "import_declaration"@),
        r is None ==> java_facts_view(final(out)@) == java_facts_view(old(out)@),
        r matches Some(inner) ==> java_facts_view(final(out)@) == java_facts_view(old(out)@) + node_facts(
            node@,
            scope_view(*scope),
            package@,
            generics_at(node@, scope_view(*scope)),
        ) && scope_view(inner) == inner_scope(node@, scope_view(*scope), generics_at(node@, scope_view(*scope))),
{
    proof {
        lemma_views_of(node.children@);
    }
    if node.is_kind("package_declaration") || node.is_kind("import_declaration") {
        return None;
    }
    let mut generics = crate::simulation::copy_texts(&scope.generics);
    let own = generics_of(node);
    crate::languages::rust_walk::append_texts(&mut generics, &own);
    let ghost g = texts(generics@);
    assert(g == texts(scope.generics@) + declared_generics(node@.children));
    let ghost start = java_facts_view(out@);
    push_declared(out, node, scope, package);
    push_referenced(out, node, scope, &generics);
    assert(java_facts_view(out@) =~= start + node_facts(node@, scope_view(*scope), package@, g));
    let mut outer = crate::simulation::copy_texts(&scope.outer);
    if node.is_kind("class_declaration") || node.is_kind("interface_declaration") || node.is_kind("enum_declaration")
        || node.is_kind("record_declaration") || node.is_kind("annotation_type_declaration") {
        if let Some(n) = node.field_child("name") {
            let ghost before = outer@;
            outer.push(node.children[n].text.clone());
            assert(texts(outer@) =~= texts(before).push(node@.children[n as int].text));
        }
    }
    let ghost expected = inner_scope(node@, scope_view(*scope), g);
    assert(texts(outer@) == expected.outer);
    let local = scope.local || node.is_kind("method_declaration") || node.is_kind("constructor_declaration")
        || node.is_kind("lambda_expression") || node.is_kind("block");
    let inner = JavaWalkScope { outer, local, generics, parent: node.kind.clone() };
    assert(scope_view(inner) == expected);
    Some(inner)
}

/// The facts of the trees on a stack, each in its scope, the top one first.
pub open spec fn stack_java_facts(st: Seq<(SyntaxView, JavaScope)>, package: Seq<char>) -> Seq<JavaFactView>
    decreases st.len(),
{
    if st.len() == 0 {
        Seq::empty()
    } else {
        java_facts(st.last().0, st.last().1, package) + stack_java_facts(st.drop_last(), package)
    }
}

/// The facts of two lists of trees, one after the other.
pub proof fn lemma_java_concat(a: Seq<SyntaxView>, b: Seq<SyntaxView>, scope: JavaScope, package: Seq<char>)
    ensures
        java_facts_list(a + b, scope, package) == java_facts_list(a, scope, package) + java_facts_list(b, scope, package),
    decreases b.len(),
{
    if b.len() == 0 {
        assert(a + b =~= a);
        assert(java_facts_list(a, scope, package) + Seq::empty() =~= java_facts_list(a, scope, package));
    } else {
        lemma_java_concat(a, b.drop_last(), scope, package);
        assert((a + b).drop_last() =~= a + b.drop_last());
        assert(java_facts_list(a + b, scope, package) =~= java_facts_list(a, scope, package) + java_facts_list(b, scope, package));
    }
}

/// The values of a stack of nodes with scopes.
pub open spec fn scoped_view(st: Seq<(&SyntaxNode, JavaWalkScope)>) -> Seq<(SyntaxView, JavaScope)> {
    st.map_values(|p: (&SyntaxNode, JavaWalkScope)| (syntax_view(*p.0), scope_view(p.1)))
}

/// The trees of a stack of nodes with scopes.
pub open spec fn scoped_trees(st: Seq<(&SyntaxNode, JavaWalkScope)>) -> Seq<SyntaxView> {
    st.map_values(|p: (&SyntaxNode, JavaWalkScope)| syntax_view(*p.0))
}

/// Appends the facts of a tree, node before children, keeping the nodes still
/// to visit on a stack rather than recursing.
pub fn push_java_facts(out: &mut Vec<JavaFact>, root: &SyntaxNode, scope: &JavaWalkScope, package: &str)
    ensures
        java_facts_view(final(out)@) == java_facts_view(old(out)@) + java_facts(root@, scope_view(*scope), package@),
{
    let mut stack: Vec<(&SyntaxNode, JavaWalkScope)> = Vec::new();
    let first = copy_scope(scope);
    stack.push((root, first));
    proof {
        let v = (root@, scope_view(*scope));
        assert(scoped_view(stack@) =~= seq![v]);
        assert(seq![v].drop_last() =~= Seq::<(SyntaxView, JavaScope)>::empty());
        assert(seq![v].last() == v);
        assert(stack_java_facts(Seq::<(SyntaxView, JavaScope)>::empty(), package@) =~= Seq::empty());
        assert(java_facts(root@, scope_view(*scope), package@) + Seq::empty() =~= java_facts(root@, scope_view(*scope), package@));
    }
    while stack.len() > 0
        invariant
            java_facts_view(out@) + stack_java_facts(scoped_view(stack@), package@) == java_facts_view(old(out)@) + java_facts(root@, scope_view(*scope), package@),
        decreases forest_size(scoped_trees(stack@)),
    {
        let ghost before = stack@;
        let ghost start = java_facts_view(out@);
        let (node, here) = stack.pop().unwrap();
        let ghost rest = stack@;
        proof {
            lemma_views_of(node.children@);
            assert(before.drop_last() =~= rest);
            assert(scoped_view(before).drop_last() =~= scoped_view(rest));
            assert(scoped_view(before).last() == (node@, scope_view(here)));
            assert(scoped_trees(before).drop_last() =~= scoped_trees(rest));
            assert(scoped_trees(before).last() == node@);
            assert(forest_size(scoped_trees(before)) == forest_size(scoped_trees(rest)) + tree_size(node@));
            assert(stack_java_facts(scoped_view(before), package@) == java_facts(node@, scope_view(here), package@) + stack_java_facts(scoped_view(rest), package@));
        }
        match push_java_node(out, node, &here, package) {
            None => {
                assert(java_facts(node@, scope_view(here), package@) =~= Seq::<JavaFactView>::empty());
            },
            Some(inner) => {
                let ghost sv = scope_view(inner);
                let ghost kids = node@.children;
                let mut k: usize = node.children.len();
                assert(kids.subrange(k as int, kids.len() as int) =~= Seq::<SyntaxView>::empty());
                while k > 0
                    invariant
                        k <= node.children@.len(),
                        kids == node@.children,
                        kids == views_of(node.children@),
                        kids.len() == node.children@.len(),
                        sv == scope_view(inner),
                        forall|j: int| 0 <= j < node.children@.len() ==> #[trigger] views_of(node.children@)[j] == syntax_view(node.children@[j]),
                        stack_java_facts(scoped_view(stack@), package@) == java_facts_list(kids.subrange(k as int, kids.len() as int), sv, package@) + stack_java_facts(scoped_view(rest), package@),
                        forest_size(scoped_trees(stack@)) <= forest_size(scoped_trees(rest)) + forest_size(kids.subrange(k as int, kids.len() as int)),
                    decreases k,
                {
                    k -= 1;
                    let ghost st = stack@;
                    let ghost c = kids[k as int];
                    let ghost tail = kids.subrange(k + 1, kids.len() as int);
                    proof {
                        assert(kids.subrange(k as int, kids.len() as int) =~= seq![c] + tail);
                        lemma_java_concat(seq![c], tail, sv, package@);
                        assert(seq![c].drop_last() =~= Seq::<SyntaxView>::empty());
                        assert(seq![c].last() == c);
                        assert(java_facts_list(Seq::<SyntaxView>::empty(), sv, package@) =~= Seq::empty());
                        crate::syntax::lemma_forest_concat(seq![c], tail);
                        assert(forest_size(Seq::<SyntaxView>::empty()) == 0);
                        assert(forest_size(seq![c]) == tree_size(c));
                    }
                    if node.children[k].named {
                        let copy = copy_scope(&inner);
                        stack.push((&node.children[k], copy));
                        proof {
                            assert(scoped_view(stack@) =~= scoped_view(st).push((c, sv)));
                            assert(scoped_view(stack@).drop_last() =~= scoped_view(st));
                            assert(scoped_trees(stack@) =~= scoped_trees(st).push(c));
                            assert(scoped_trees(stack@).drop_last() =~= scoped_trees(st));
                            assert(java_facts_list(seq![c], sv, package@) =~= java_facts(c, sv, package@));
                        }
                    } else {
                        assert(java_facts_list(seq![c], sv, package@) =~= Seq::<JavaFactView>::empty());
                    }
                }
                proof {
                    assert(kids.subrange(0, kids.len() as int) =~= kids);
                }
            },
        }
        assert(java_facts_view(out@) + stack_java_facts(scoped_view(stack@), package@) =~= start + stack_java_facts(scoped_view(before), package@));
    }
    assert(scoped_view(stack@) =~= Seq::<(SyntaxView, JavaScope)>::empty());
}

/// Whether some child (named ones only when `named_only`) is of kind `kind`.
pub open spec fn has_child_kind(children: Seq<SyntaxView>, kind: Seq<char>, named_only: bool) -> bool {
    exists|i: int| 0 <= i < children.len() && #[trigger] children[i].kind == kind && (!named_only || children[i].named)
}

/// The position of the first named identifier or scoped identifier from `k` on.
pub open spec fn name_from(children: Seq<SyntaxView>, k: int) -> Option<int>
    decreases children.len() - k,
{
    if k < 0 || k >= children.len() {
        None
    } else if children[k].named && (children[k].kind == "identifier"@ || children[k].kind == "scoped_identifier"@) {
        Some(k)
    } else {
        name_from(children, k + 1)
    }
}

/// The package and imports the top-level declarations among `children` give;
/// a later package declaration replaces an earlier one.
pub open spec fn header(children: Seq<SyntaxView>) -> (Seq<char>, Seq<(Seq<char>, bool, bool)>)
    decreases children.len(),
{
    if children.len() == 0 {
        (Seq::empty(), Seq::empty())
    } else {
        let (package, imports) = header(children.drop_last());
        let c = children.last();
        if !c.named {
            (package, imports)
        } else if c.kind == "package_declaration"@ {
            match name_from(c.children, 0) {
                Some(i) => if 0 <= i < c.children.len() {
                    (dotted(c.children[i]), imports)
                } else {
                    (package, imports)
                },
                None => (package, imports),
            }
        } else if c.kind == "import_declaration"@ {
            (package, imports.push((dotted(c), has_child_kind(c.children, "asterisk"@, true), has_child_kind(c.children, "static"@, false))))
        } else {
            (package, imports)
        }
    }
}

/// Whether some child (named ones only when `named_only`) is of kind `kind`.
fn child_kind(node: &SyntaxNode, kind: &str, named_only: bool) -> (r: bool)
    ensures
        r == has_child_kind(node@.children, kind@, named_only),
{
    proof {
        lemma_views_of(node.children@);
    }
    let mut i: usize = 0;
    while i < node.children.len()
        invariant
            i <= node.children@.len(),
            node@.children == views_of(node.children@),
            views_of(node.children@).len() == node.children@.len(),
            forall|j: int| 0 <= j < node.children@.len() ==> #[trigger] views_of(node.children@)[j] == syntax_view(node.children@[j]),
            forall|j: int| 0 <= j < i ==> !(#[trigger] node@.children[j].kind == kind@ && (!named_only || node@.children[j].named)),
        decreases node.children@.len() - i,
    {
        if node.children[i].is_kind(kind) && (!named_only || node.children[i].named) {
            assert(node@.children[i as int].kind == kind@ && (!named_only || node@.children[i as int].named));
            return true;
        }
        i += 1;
    }
    false
}

/// What a Java file says: its package, its imports, and its facts in walk order.
pub struct JavaFileFacts {
    pub package: String,
    pub imports: Vec<JavaImport>,
    pub facts: Vec<JavaFact>,
}

/// The package, imports and facts of a Java syntax tree.
pub fn java_file_facts(tree: &SyntaxNode) -> (r: JavaFileFacts)
    ensures
        (r.package@, import_views(r.imports@)) == header(tree@.children),
        java_facts_view(r.facts@) == java_facts(
            tree@,
            (JavaScope { outer: Seq::empty(), local: false, generics: Seq::empty(), parent: Seq::empty() }),
            r.package@,
        ),
{
    proof {
        lemma_views_of(tree.children@);
    }
    let mut package = String::new();
    let mut imports: Vec<JavaImport> = Vec::new();
    let mut i: usize = 0;
    proof {
        reveal_strlit("");
    }
    assert(package@ =~= Seq::<char>::empty());
    assert(import_views(imports@) =~= Seq::empty());
    while i < tree.children.len()
        invariant
            i <= tree.children@.len(),
            tree@.children == views_of(tree.children@),
            views_of(tree.children@).len() == tree.children@.len(),
            forall|j: int| 0 <= j < tree.children@.len() ==> #[trigger] views_of(tree.children@)[j] == syntax_view(tree.children@[j]),
            (package@, import_views(imports@)) == header(tree@.children.subrange(0, i as int)),
        decreases tree.children@.len() - i,
    {
        let c = &tree.children[i];
        proof {
            let t = tree@.children.subrange(0, i + 1);
            assert(t.drop_last() =~= tree@.children.subrange(0, i as int));
            assert(t.last() == tree@.children[i as int]);
            lemma_views_of(c.children@);
        }
        if c.named && c.is_kind("package_declaration") {
            let mut k: usize = 0;
            while k < c.children.len() && !(c.children[k].named && (c.children[k].is_kind("identifier") || c.children[k].is_kind("scoped_identifier")))
                invariant
                    k <= c.children@.len(),
                    c@.children == views_of(c.children@),
                    views_of(c.children@).len() == c.children@.len(),
                    forall|j: int| 0 <= j < c.children@.len() ==> #[trigger] views_of(c.children@)[j] == syntax_view(c.children@[j]),
                    name_from(c@.children, 0) == name_from(c@.children, k as int),
                decreases c.children@.len() - k,
            {
                k += 1;
            }
            if k < c.children.len() {
                package = dotted_of(&c.children[k]);
            }
        } else if c.named && c.is_kind("import_declaration") {
            let ghost before = imports@;
            let import = JavaImport {
                name: dotted_of(c),
                wildcard: child_kind(c, "asterisk", true),
                is_static: child_kind(c, "static", false),
            };
            imports.push(import);
            assert(import_views(imports@) =~= import_views(before).push(import@));
        }
        i += 1;
    }
    assert(tree@.children.subrange(0, tree@.children.len() as int) =~= tree@.children);
    let scope = JavaWalkScope { outer: Vec::new(), local: false, generics: Vec::new(), parent: String::new() };
    assert(scope_view(scope) == (JavaScope { outer: Seq::empty(), local: false, generics: Seq::empty(), parent: Seq::empty() })) by {
        assert(texts(scope.outer@) =~= Seq::empty());
        assert(texts(scope.generics@) =~= Seq::empty());
        assert(scope.parent@ =~= Seq::<char>::empty());
    }
    let mut facts: Vec<JavaFact> = Vec::new();
    assert(java_facts_view(facts@) =~= Seq::empty());
    push_java_facts(&mut facts, tree, &scope, package.as_str());
    assert(java_facts_view(facts@) =~= java_facts(tree@, scope_view(scope), package@));
    JavaFileFacts { package, imports, facts }
}

/// The receivers whose first segment names no value of the file.
pub open spec fn kept_receivers(receivers: Seq<Seq<char>>, values: Seq<Seq<char>>) -> Seq<Seq<char>> {
    receivers.filter(|r: Seq<char>| !values.contains(first_segment(r)))
}

/// Keeps the receivers whose first segment names no value of the file: a
/// value's method call is no dependency on a type.
pub fn type_receivers(receivers: &Vec<String>, values: &Vec<String>) -> (r: Vec<String>)
    ensures
        texts(r@) == kept_receivers(texts(receivers@), texts(values@)),
{
    let mut out: Vec<String> = Vec::new();
    let mut i: usize = 0;
    assert(texts(receivers@).subrange(0, 0) =~= Seq::<Seq<char>>::empty());
    assert(texts(out@) =~= kept_receivers(texts(receivers@).subrange(0, 0), texts(values@)));
    while i < receivers.len()
        invariant
            i <= receivers@.len(),
            texts(out@) == kept_receivers(texts(receivers@).subrange(0, i as int), texts(values@)),
        decreases receivers@.len() - i,
    {
        let keep = !holds(values, first_segment_of(receivers[i].as_str()).as_str());
        let ghost before = texts(out@);
        if keep {
            out.push(receivers[i].clone());
        }
        proof {
            let t = texts(receivers@).subrange(0, i + 1);
            assert(t.drop_last() =~= texts(receivers@).subrange(0, i as int));
            reveal(Seq::filter);
            if keep {
                assert(texts(out@) =~= before.push(receivers@[i as int]@));
            } else {
                assert(texts(out@) =~= before);
            }
        }
        i += 1;
    }
    assert(texts(receivers@).subrange(0, receivers@.len() as int) =~= texts(receivers@));
    out
}

/// The syntax tree of a Java source, which the parser always gives.
pub fn parse_java_source(source: &str) -> (r: Result<SyntaxNode, &'static str>)
    ensures
        r matches Ok(t) ==> t@ == java_syntax(source@),
        r is Ok,
{
    match parse_java(source) {
        Some(t) => Ok(t),
        None => Err("Java 语法树解析失败。"),
    }
}

} // verus!
