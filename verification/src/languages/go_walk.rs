//! The walk over one Go syntax tree: its package, its imports, the names it
//! declares at package level, the names it shadows, and the names it refers to.
use vstd::prelude::*;
use crate::languages::go::{go_unquoted, unquote};
use crate::syntax::{
    forest_size, tree_size,
    field_of, go_syntax, lemma_views_of, parse_go, syntax_view, views_of, SyntaxNode, SyntaxView,
};
use crate::text_util::{after_last, chars_of, string_of, vec_after_last};

verus! {

/// One fact found in a Go file.
#[derive(Debug, PartialEq, Eq)]
pub enum GoFact {
    /// The file's package name.
    Package(String),
    /// An import path, or its raw text when it does not decode.
    Import(Result<String, String>),
    /// A package-level declaration.
    Declaration(String),
    /// A name declared locally or brought in by an import.
    Shadow(String),
    /// An identifier that may name a package-level symbol.
    Reference(String),
}

/// The mathematical value of a [`GoFact`].
pub enum GoFactView {
    Package(Seq<char>),
    Import(Result<Seq<char>, Seq<char>>),
    Declaration(Seq<char>),
    Shadow(Seq<char>),
    Reference(Seq<char>),
}

/// The value of a fact.
pub open spec fn fact_view(f: GoFact) -> GoFactView {
    match f {
        GoFact::Package(s) => GoFactView::Package(s@),
        GoFact::Import(Ok(s)) => GoFactView::Import(Ok(s@)),
        GoFact::Import(Err(s)) => GoFactView::Import(Err(s@)),
        GoFact::Declaration(s) => GoFactView::Declaration(s@),
        GoFact::Shadow(s) => GoFactView::Shadow(s@),
        GoFact::Reference(s) => GoFactView::Reference(s@),
    }
}

/// The values of a list of facts.
pub open spec fn facts_view(s: Seq<GoFact>) -> Seq<GoFactView> {
    s.map_values(|f: GoFact| fact_view(f))
}

/// The position of the first named child of kind `kind` from `k` on.
pub open spec fn kind_from(children: Seq<SyntaxView>, kind: Seq<char>, k: int) -> Option<int>
    decreases children.len() - k,
{
    if k < 0 || k >= children.len() {
        None
    } else if children[k].named && children[k].kind == kind {
        Some(k)
    } else {
        kind_from(children, kind, k + 1)
    }
}

/// A node kind that declares names in its `name` fields.
pub open spec fn declaring_kind(k: Seq<char>) -> bool {
    k == "function_declaration"@ || k == "type_spec"@ || k == "type_alias"@ || k == "var_spec"@ || k
        == "const_spec"@
}

/// A node kind that declares parameters in its `name` fields.
pub open spec fn parameter_kind(k: Seq<char>) -> bool {
    k == "parameter_declaration"@ || k == "variadic_parameter_declaration"@ || k
        == "type_parameter_declaration"@
}

/// A node kind below which declarations are local.
pub open spec fn local_kind(k: Seq<char>) -> bool {
    k == "function_declaration"@ || k == "method_declaration"@ || k == "func_literal"@ || k
        == "block"@
}

/// The children that fill the field `name`, named ones only when `named_only`,
/// each as a declaration, or as a shadow when `shadow`.
pub open spec fn name_facts(children: Seq<SyntaxView>, named_only: bool, shadow: bool) -> Seq<GoFactView>
    decreases children.len(),
{
    if children.len() == 0 {
        Seq::empty()
    } else {
        let c = children.last();
        name_facts(children.drop_last(), named_only, shadow) + if c.field == Some("name"@) && (
        !named_only || c.named) {
            if shadow {
                seq![GoFactView::Shadow(c.text)]
            } else {
                seq![GoFactView::Declaration(c.text)]
            }
        } else {
            Seq::empty()
        }
    }
}

/// The named identifiers among `children`, each as a shadow.
pub open spec fn identifier_shadows(children: Seq<SyntaxView>) -> Seq<GoFactView>
    decreases children.len(),
{
    if children.len() == 0 {
        Seq::empty()
    } else {
        let c = children.last();
        identifier_shadows(children.drop_last()) + if c.named && c.kind == "identifier"@ {
            seq![GoFactView::Shadow(c.text)]
        } else {
            Seq::empty()
        }
    }
}

/// What an `import_spec` node says: a shadow for the last segment of an
/// unnamed decoded path, the import, and a shadow for its explicit name.
pub open spec fn import_facts(n: SyntaxView) -> Seq<GoFactView> {
    let named = match field_of(n.children, "name"@) {
        Some(i) => if 0 <= i < n.children.len() {
            seq![GoFactView::Shadow(n.children[i].text)]
        } else {
            Seq::empty()
        },
        None => Seq::empty(),
    };
    let path = match field_of(n.children, "path"@) {
        Some(i) => if 0 <= i < n.children.len() {
            let raw = n.children[i].text;
            match go_unquoted(raw) {
                Some(d) => (if field_of(n.children, "name"@) is None {
                    seq![GoFactView::Shadow(after_last(d, '/'))]
                } else {
                    Seq::empty()
                }) + seq![GoFactView::Import(Ok(d))],
                None => seq![GoFactView::Import(Err(raw))],
            }
        } else {
            Seq::empty()
        },
        None => Seq::empty(),
    };
    path + named
}

/// The names a declaring node declares, or shadows when local.
pub open spec fn declared_facts(n: SyntaxView, local: bool) -> Seq<GoFactView> {
    if declaring_kind(n.kind) {
        name_facts(n.children, true, local)
    } else {
        Seq::empty()
    }
}

/// The parameters a parameter node shadows.
pub open spec fn parameter_facts(n: SyntaxView) -> Seq<GoFactView> {
    if parameter_kind(n.kind) {
        name_facts(n.children, false, true)
    } else {
        Seq::empty()
    }
}

/// The identifiers a short variable declaration or range clause shadows.
pub open spec fn assigned_facts(n: SyntaxView) -> Seq<GoFactView> {
    if n.kind == "short_var_declaration"@ || n.kind == "range_clause"@ {
        match field_of(n.children, "left"@) {
            Some(i) => if 0 <= i < n.children.len() {
                identifier_shadows(n.children[i].children)
            } else {
                Seq::empty()
            },
            None => Seq::empty(),
        }
    } else {
        Seq::empty()
    }
}

/// An identifier that is not the name of its parent refers to something.
pub open spec fn referenced_facts(n: SyntaxView) -> Seq<GoFactView> {
    if (n.kind == "identifier"@ || n.kind == "type_identifier"@) && n.field != Some("name"@) {
        seq![GoFactView::Reference(n.text)]
    } else {
        Seq::empty()
    }
}

/// What one node says before its children are read.
pub open spec fn own_facts(n: SyntaxView, local: bool) -> Seq<GoFactView> {
    declared_facts(n, local) + parameter_facts(n) + assigned_facts(n) + referenced_facts(n)
}

/// Whether the walk stops below a node: comments and string literals.
pub open spec fn opaque_kind(k: Seq<char>) -> bool {
    k == "comment"@ || k == "interpreted_string_literal"@ || k == "raw_string_literal"@
}

/// The facts of a Go tree, in walk order; `local` once inside a function or block.
pub open spec fn go_facts(n: SyntaxView, local: bool) -> Seq<GoFactView>
    decreases n,
{
    if n.kind == "package_clause"@ {
        match kind_from(n.children, "package_identifier"@, 0) {
            Some(i) => if 0 <= i < n.children.len() {
                seq![GoFactView::Package(n.children[i].text)]
            } else {
                Seq::empty()
            },
            None => Seq::empty(),
        }
    } else if n.kind == "import_spec"@ {
        import_facts(n)
    } else if opaque_kind(n.kind) {
        own_facts(n, local)
    } else {
        own_facts(n, local) + go_facts_list(n.children, local || local_kind(n.kind))
    }
}

/// The facts of the named nodes among `children`, in order.
pub open spec fn go_facts_list(children: Seq<SyntaxView>, local: bool) -> Seq<GoFactView>
    decreases children,
{
    if children.len() == 0 {
        Seq::empty()
    } else {
        go_facts_list(children.drop_last(), local) + if children.last().named {
            go_facts(children.last(), local)
        } else {
            Seq::empty()
        }
    }
}

/// Appends a fact.
fn push_fact(out: &mut Vec<GoFact>, f: GoFact)
    ensures
        facts_view(final(out)@) == facts_view(old(out)@).push(fact_view(f)),
{
    let ghost v = fact_view(f);
    out.push(f);
    assert(facts_view(out@) =~= facts_view(old(out)@).push(v));
}

/// Appends the facts of the `name` children.
fn push_names(out: &mut Vec<GoFact>, node: &SyntaxNode, named_only: bool, shadow: bool)
    ensures
        facts_view(final(out)@) == facts_view(old(out)@) + name_facts(node@.children, named_only, shadow),
{
    proof {
        lemma_views_of(node.children@);
    }
    let mut i: usize = 0;
    assert(facts_view(out@) =~= facts_view(old(out)@) + name_facts(node@.children.subrange(0, 0), named_only, shadow));
    while i < node.children.len()
        invariant
            i <= node.children@.len(),
            node@.children == views_of(node.children@),
            views_of(node.children@).len() == node.children@.len(),
            forall|j: int| 0 <= j < node.children@.len() ==> #[trigger] views_of(node.children@)[j] == syntax_view(node.children@[j]),
            facts_view(out@) == facts_view(old(out)@) + name_facts(node@.children.subrange(0, i as int), named_only, shadow),
        decreases node.children@.len() - i,
    {
        let c = &node.children[i];
        let ghost before = facts_view(out@);
        let is_name = match &c.field {
            Some(f) => crate::text_util::str_eq(f.as_str(), "name"),
            None => false,
        };
        if is_name && (!named_only || c.named) {
            if shadow {
                push_fact(out, GoFact::Shadow(c.text.clone()));
            } else {
                push_fact(out, GoFact::Declaration(c.text.clone()));
            }
        }
        proof {
            let s = node@.children.subrange(0, i + 1);
            assert(s.drop_last() =~= node@.children.subrange(0, i as int));
            assert(s.last() == node@.children[i as int]);
        }
        i += 1;
        assert(facts_view(out@) =~= facts_view(old(out)@) + name_facts(node@.children.subrange(0, i as int), named_only, shadow));
    }
    assert(node@.children.subrange(0, node@.children.len() as int) =~= node@.children);
}

/// Appends a shadow for each named identifier among the children.
fn push_identifier_shadows(out: &mut Vec<GoFact>, node: &SyntaxNode)
    ensures
        facts_view(final(out)@) == facts_view(old(out)@) + identifier_shadows(node@.children),
{
    proof {
        lemma_views_of(node.children@);
    }
    let mut i: usize = 0;
    assert(facts_view(out@) =~= facts_view(old(out)@) + identifier_shadows(node@.children.subrange(0, 0)));
    while i < node.children.len()
        invariant
            i <= node.children@.len(),
            node@.children == views_of(node.children@),
            views_of(node.children@).len() == node.children@.len(),
            forall|j: int| 0 <= j < node.children@.len() ==> #[trigger] views_of(node.children@)[j] == syntax_view(node.children@[j]),
            facts_view(out@) == facts_view(old(out)@) + identifier_shadows(node@.children.subrange(0, i as int)),
        decreases node.children@.len() - i,
    {
        let c = &node.children[i];
        if c.named && c.is_kind("identifier") {
            push_fact(out, GoFact::Shadow(c.text.clone()));
        }
        proof {
            let s = node@.children.subrange(0, i + 1);
            assert(s.drop_last() =~= node@.children.subrange(0, i as int));
            assert(s.last() == node@.children[i as int]);
        }
        i += 1;
        assert(facts_view(out@) =~= facts_view(old(out)@) + identifier_shadows(node@.children.subrange(0, i as int)));
    }
    assert(node@.children.subrange(0, node@.children.len() as int) =~= node@.children);
}

/// Appends what an `import_spec` node says.
fn push_import(out: &mut Vec<GoFact>, node: &SyntaxNode)
    ensures
        facts_view(final(out)@) == facts_view(old(out)@) + import_facts(node@),
{
    proof {
        lemma_views_of(node.children@);
    }
    let name = node.field_child("name");
    let ghost start = facts_view(out@);
    if let Some(p) = node.field_child("path") {
        let raw = &node.children[p].text;
        match unquote(raw.as_str()) {
            Some(d) => {
                if name.is_none() {
                    let last = string_of(&vec_after_last(&chars_of(d.as_str()), '/'));
                    push_fact(out, GoFact::Shadow(last));
                }
                push_fact(out, GoFact::Import(Ok(d)));
            },
            None => {
                push_fact(out, GoFact::Import(Err(raw.clone())));
            },
        }
    }
    let ghost mid = facts_view(out@);
    if let Some(n) = name {
        push_fact(out, GoFact::Shadow(node.children[n].text.clone()));
    }
    assert(facts_view(out@) =~= facts_view(old(out)@) + import_facts(node@));
}

/// Appends what one node says before its children are read.
fn push_declared(out: &mut Vec<GoFact>, node: &SyntaxNode, local: bool)
    ensures
        facts_view(final(out)@) == facts_view(old(out)@) + declared_facts(node@, local),
{
    if node.is_kind("function_declaration") || node.is_kind("type_spec") || node.is_kind("type_alias")
        || node.is_kind("var_spec") || node.is_kind("const_spec") {
        push_names(out, node, true, local);
    } else {
        assert(facts_view(out@) =~= facts_view(old(out)@) + Seq::empty());
    }
}

/// Appends the parameters a parameter node shadows.
fn push_parameters(out: &mut Vec<GoFact>, node: &SyntaxNode)
    ensures
        facts_view(final(out)@) == facts_view(old(out)@) + parameter_facts(node@),
{
    if node.is_kind("parameter_declaration") || node.is_kind("variadic_parameter_declaration")
        || node.is_kind("type_parameter_declaration") {
        push_names(out, node, false, true);
    } else {
        assert(facts_view(out@) =~= facts_view(old(out)@) + Seq::empty());
    }
}

/// Appends the identifiers a short variable declaration or range clause shadows.
fn push_assigned(out: &mut Vec<GoFact>, node: &SyntaxNode)
    ensures
        facts_view(final(out)@) == facts_view(old(out)@) + assigned_facts(node@),
{
    proof {
        lemma_views_of(node.children@);
    }
    if node.is_kind("short_var_declaration") || node.is_kind("range_clause") {
        if let Some(l) = node.field_child("left") {
            push_identifier_shadows(out, &node.children[l]);
            return;
        }
    }
    assert(facts_view(out@) =~= facts_view(old(out)@) + Seq::empty());
}

/// Appends a reference for an identifier that is not its parent's name.
fn push_referenced(out: &mut Vec<GoFact>, node: &SyntaxNode)
    ensures
        facts_view(final(out)@) == facts_view(old(out)@) + referenced_facts(node@),
{
    if node.is_kind("identifier") || node.is_kind("type_identifier") {
        let is_name = match &node.field {
            Some(f) => crate::text_util::str_eq(f.as_str(), "name"),
            None => false,
        };
        if !is_name {
            push_fact(out, GoFact::Reference(node.text.clone()));
            assert(facts_view(out@) =~= facts_view(old(out)@) + referenced_facts(node@));
            return;
        }
    }
    assert(facts_view(out@) =~= facts_view(old(out)@) + Seq::empty());
}

/// Appends what one node says before its children are read.
fn push_own_facts(out: &mut Vec<GoFact>, node: &SyntaxNode, local: bool)
    ensures
        facts_view(final(out)@) == facts_view(old(out)@) + own_facts(node@, local),
{
    let ghost start = facts_view(out@);
    push_declared(out, node, local);
    push_parameters(out, node);
    push_assigned(out, node);
    push_referenced(out, node);
    assert(facts_view(out@) =~= start + own_facts(node@, local));
}

/// Whether the walk enters the children of a node.
pub open spec fn descends(n: SyntaxView) -> bool {
    n.kind != "package_clause"@ && n.kind != "import_spec"@ && !opaque_kind(n.kind)
}

/// What a node says before its children are read.
pub open spec fn node_facts(n: SyntaxView, local: bool) -> Seq<GoFactView> {
    if n.kind == "package_clause"@ || n.kind == "import_spec"@ || opaque_kind(n.kind) {
        go_facts(n, local)
    } else {
        own_facts(n, local)
    }
}

/// Appends what a node says before its children are read, and tells whether
/// the walk enters its children.
fn push_node_facts(out: &mut Vec<GoFact>, node: &SyntaxNode, local: bool) -> (r: bool)
    ensures
        facts_view(final(out)@) == facts_view(old(out)@) + node_facts(node@, local),
        r == descends(node@),
{
    proof {
        lemma_views_of(node.children@);
    }
    if node.is_kind("package_clause") {
        let mut k: usize = 0;
        while k < node.children.len() && !(node.children[k].named && node.children[k].is_kind("package_identifier"))
            invariant
                k <= node.children@.len(),
                node@.children == views_of(node.children@),
                views_of(node.children@).len() == node.children@.len(),
                forall|j: int| 0 <= j < node.children@.len() ==> #[trigger] views_of(node.children@)[j] == syntax_view(node.children@[j]),
                kind_from(node@.children, "package_identifier"@, 0) == kind_from(node@.children, "package_identifier"@, k as int),
            decreases node.children@.len() - k,
        {
            k += 1;
        }
        if k < node.children.len() {
            push_fact(out, GoFact::Package(node.children[k].text.clone()));
        } else {
            assert(facts_view(out@) =~= facts_view(old(out)@) + Seq::empty());
        }
        return false;
    }
    if node.is_kind("import_spec") {
        push_import(out, node);
        return false;
    }
    if node.is_kind("comment") || node.is_kind("interpreted_string_literal") || node.is_kind("raw_string_literal") {
        push_own_facts(out, node, local);
        return false;
    }
    push_own_facts(out, node, local);
    true
}

/// The facts of the trees on a stack, each with its `local` flag, the top one first.
pub open spec fn stack_facts(st: Seq<(SyntaxView, bool)>) -> Seq<GoFactView>
    decreases st.len(),
{
    if st.len() == 0 {
        Seq::empty()
    } else {
        go_facts(st.last().0, st.last().1) + stack_facts(st.drop_last())
    }
}

/// The facts of two lists of trees, one after the other.
pub proof fn lemma_facts_concat(a: Seq<SyntaxView>, b: Seq<SyntaxView>, local: bool)
    ensures
        go_facts_list(a + b, local) == go_facts_list(a, local) + go_facts_list(b, local),
    decreases b.len(),
{
    if b.len() == 0 {
        assert(a + b =~= a);
        assert(go_facts_list(a, local) + Seq::empty() =~= go_facts_list(a, local));
    } else {
        lemma_facts_concat(a, b.drop_last(), local);
        assert((a + b).drop_last() =~= a + b.drop_last());
        assert(go_facts_list(a + b, local) =~= go_facts_list(a, local) + go_facts_list(b, local));
    }
}

/// The values of a stack of nodes with flags.
pub open spec fn flagged_view(st: Seq<(&SyntaxNode, bool)>) -> Seq<(SyntaxView, bool)> {
    st.map_values(|p: (&SyntaxNode, bool)| (syntax_view(*p.0), p.1))
}

/// The trees of a stack of nodes with flags.
pub open spec fn flagged_trees(st: Seq<(&SyntaxNode, bool)>) -> Seq<SyntaxView> {
    st.map_values(|p: (&SyntaxNode, bool)| syntax_view(*p.0))
}

/// Appends the facts of a Go tree in walk order, keeping the nodes still to
/// visit on a stack rather than recursing.
pub fn push_go_facts(out: &mut Vec<GoFact>, root: &SyntaxNode, local: bool)
    ensures
        facts_view(final(out)@) == facts_view(old(out)@) + go_facts(root@, local),
{
    let mut stack: Vec<(&SyntaxNode, bool)> = Vec::new();
    stack.push((root, local));
    proof {
        assert(flagged_view(stack@) =~= seq![(root@, local)]);
        assert(seq![(root@, local)].drop_last() =~= Seq::<(SyntaxView, bool)>::empty());
        assert(seq![(root@, local)].last() == (root@, local));
        assert(stack_facts(Seq::<(SyntaxView, bool)>::empty()) =~= Seq::empty());
        assert(go_facts(root@, local) + Seq::empty() =~= go_facts(root@, local));
        assert(stack_facts(flagged_view(stack@)) =~= go_facts(root@, local));
    }
    while stack.len() > 0
        invariant
            facts_view(out@) + stack_facts(flagged_view(stack@)) == facts_view(old(out)@) + go_facts(root@, local),
        decreases forest_size(flagged_trees(stack@)),
    {
        let ghost before = stack@;
        let ghost start = facts_view(out@);
        let (node, flag) = stack.pop().unwrap();
        let ghost rest = stack@;
        proof {
            lemma_views_of(node.children@);
            assert(before.drop_last() =~= rest);
            assert(flagged_view(before).drop_last() =~= flagged_view(rest));
            assert(flagged_view(before).last() == (node@, flag));
            assert(flagged_trees(before).drop_last() =~= flagged_trees(rest));
            assert(flagged_trees(before).last() == node@);
            assert(forest_size(flagged_trees(before)) == forest_size(flagged_trees(rest)) + tree_size(node@));
            assert(stack_facts(flagged_view(before)) == go_facts(node@, flag) + stack_facts(flagged_view(rest)));
        }
        let enter = push_node_facts(out, node, flag);
        let ghost mid = facts_view(out@);
        if enter {
            let inner = flag || node.is_kind("function_declaration") || node.is_kind("method_declaration")
                || node.is_kind("func_literal") || node.is_kind("block");
            let ghost kids = node@.children;
            let mut k: usize = node.children.len();
            assert(kids.subrange(k as int, kids.len() as int) =~= Seq::<SyntaxView>::empty());
            while k > 0
                invariant
                    k <= node.children@.len(),
                    kids == node@.children,
                    kids == views_of(node.children@),
                    kids.len() == node.children@.len(),
                    forall|j: int| 0 <= j < node.children@.len() ==> #[trigger] views_of(node.children@)[j] == syntax_view(node.children@[j]),
                    stack_facts(flagged_view(stack@)) == go_facts_list(kids.subrange(k as int, kids.len() as int), inner) + stack_facts(flagged_view(rest)),
                    forest_size(flagged_trees(stack@)) <= forest_size(flagged_trees(rest)) + forest_size(kids.subrange(k as int, kids.len() as int)),
                decreases k,
            {
                k -= 1;
                let ghost st = stack@;
                let ghost c = kids[k as int];
                let ghost tail = kids.subrange(k + 1, kids.len() as int);
                proof {
                    assert(kids.subrange(k as int, kids.len() as int) =~= seq![c] + tail);
                    lemma_facts_concat(seq![c], tail, inner);
                    assert(seq![c].drop_last() =~= Seq::<SyntaxView>::empty());
                    assert(seq![c].last() == c);
                    assert(go_facts_list(Seq::<SyntaxView>::empty(), inner) =~= Seq::empty());
                    crate::syntax::lemma_forest_concat(seq![c], tail);
                    assert(forest_size(Seq::<SyntaxView>::empty()) == 0);
                    assert(forest_size(seq![c]) == tree_size(c));
                }
                if node.children[k].named {
                    stack.push((&node.children[k], inner));
                    proof {
                        assert(flagged_view(stack@) =~= flagged_view(st).push((c, inner)));
                        assert(flagged_view(stack@).drop_last() =~= flagged_view(st));
                        assert(flagged_trees(stack@) =~= flagged_trees(st).push(c));
                        assert(flagged_trees(stack@).drop_last() =~= flagged_trees(st));
                        assert(go_facts_list(seq![c], inner) =~= go_facts(c, inner));
                    }
                } else {
                    assert(go_facts_list(seq![c], inner) =~= Seq::<GoFactView>::empty());
                }
            }
            proof {
                assert(kids.subrange(0, kids.len() as int) =~= kids);
                assert(go_facts(node@, flag) == node_facts(node@, flag) + go_facts_list(kids, inner));
            }
        } else {
            assert(go_facts(node@, flag) == node_facts(node@, flag));
        }
        assert(facts_view(out@) + stack_facts(flagged_view(stack@)) =~= start + stack_facts(flagged_view(before)));
    }
    assert(flagged_view(stack@) =~= Seq::<(SyntaxView, bool)>::empty());
}

/// The facts of a Go syntax tree, read from its root outside any function.
pub fn go_tree_facts(tree: &SyntaxNode) -> (r: Vec<GoFact>)
    ensures
        facts_view(r@) == go_facts(tree@, false),
{
    let mut out: Vec<GoFact> = Vec::new();
    assert(facts_view(out@) =~= Seq::empty());
    push_go_facts(&mut out, tree, false);
    assert(facts_view(out@) =~= go_facts(tree@, false));
    out
}

/// The syntax tree of a Go source, which the parser always gives.
pub fn parse_go_source(source: &str) -> (r: Result<SyntaxNode, &'static str>)
    ensures
        r matches Ok(t) ==> t@ == go_syntax(source@),
        r is Ok,
{
    match parse_go(source) {
        Some(t) => Ok(t),
        None => Err("Go parser returned no syntax tree"),
    }
}

} // verus!
