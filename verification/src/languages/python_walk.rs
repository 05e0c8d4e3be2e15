//! The walk over one Python syntax tree for its import statements.
use vstd::prelude::*;
use crate::analysis::{is_white, white_space};
use crate::syntax::{
    forest_size, refs_view, tree_size,
    field_of, lemma_views_of, parse_python, python_syntax, syntax_view, views_of, SyntaxNode,
    SyntaxView,
};
use crate::text_util::{chars_of, push_char, string_of};

verus! {

/// One import statement found in a Python file.
#[derive(Debug, PartialEq, Eq)]
pub enum PythonSite {
    /// `import name`: one site for each non-empty dotted name.
    Import { name: String },
    /// `from module import names`, with whether it imports `*`, and where the statement starts.
    From { module: String, names: Vec<String>, wildcard: bool, start: usize },
    /// `from __future__ import ...`.
    Future,
}

/// The mathematical value of a [`PythonSite`].
pub enum PythonSiteView {
    Import(Seq<char>),
    From(Seq<char>, Seq<Seq<char>>, bool, int),
    Future,
}

/// The value of a site.
pub open spec fn python_site_view(s: PythonSite) -> PythonSiteView {
    match s {
        PythonSite::Import { name } => PythonSiteView::Import(name@),
        PythonSite::From { module, names, wildcard, start } => PythonSiteView::From(
            module@,
            crate::order::texts(names@),
            wildcard,
            start as int,
        ),
        PythonSite::Future => PythonSiteView::Future,
    }
}

/// The values of a list of sites.
pub open spec fn python_sites_view(s: Seq<PythonSite>) -> Seq<PythonSiteView> {
    s.map_values(|x: PythonSite| python_site_view(x))
}

/// `s` without white space.
pub open spec fn compact(s: Seq<char>) -> Seq<char>
    decreases s.len(),
{
    if s.len() == 0 {
        Seq::empty()
    } else if white_space(s.last()) {
        compact(s.drop_last())
    } else {
        compact(s.drop_last()).push(s.last())
    }
}

/// The text without white space.
pub fn compact_text(text: &str) -> (r: String)
    ensures
        r@ == compact(text@),
{
    let cs = chars_of(text);
    let mut r = String::new();
    let mut i: usize = 0;
    assert(text@.subrange(0, 0) =~= Seq::<char>::empty());
    while i < cs.len()
        invariant
            i <= cs@.len(),
            cs@ == text@,
            r@ == compact(text@.subrange(0, i as int)),
        decreases cs@.len() - i,
    {
        let c = cs[i];
        if !is_white(c) {
            push_char(&mut r, c);
        }
        proof {
            let s = text@.subrange(0, i + 1);
            assert(s.drop_last() =~= text@.subrange(0, i as int));
            assert(s.last() == c);
        }
        i += 1;
    }
    assert(text@.subrange(0, text@.len() as int) =~= text@);
    r
}

/// The dotted name an imported-name node gives: its `name` child's, or its own
/// text, without white space.
pub open spec fn import_name(n: SyntaxView) -> Seq<char> {
    match field_of(n.children, "name"@) {
        Some(i) => if 0 <= i < n.children.len() {
            compact(n.children[i].text)
        } else {
            compact(n.text)
        },
        None => compact(n.text),
    }
}

/// The names of the children that fill the field `name`, in order.
pub open spec fn imported_names(children: Seq<SyntaxView>) -> Seq<Seq<char>>
    decreases children.len(),
{
    if children.len() == 0 {
        Seq::empty()
    } else {
        imported_names(children.drop_last()) + if children.last().field == Some("name"@) {
            seq![import_name(children.last())]
        } else {
            Seq::empty()
        }
    }
}

/// One `import` site for each non-empty name.
pub open spec fn import_sites(names: Seq<Seq<char>>) -> Seq<PythonSiteView>
    decreases names.len(),
{
    if names.len() == 0 {
        Seq::empty()
    } else {
        import_sites(names.drop_last()) + if names.last().len() > 0 {
            seq![PythonSiteView::Import(names.last())]
        } else {
            Seq::empty()
        }
    }
}

/// Whether some named child is a `*` import.
pub open spec fn has_wildcard(children: Seq<SyntaxView>) -> bool {
    exists|i: int| 0 <= i < children.len() && #[trigger] children[i].named && children[i].kind == "wildcard_import"@
}

/// The import sites of a tree. Statements are not entered; other nodes are
/// entered from their last named child to their first.
pub open spec fn python_sites(n: SyntaxView) -> Seq<PythonSiteView>
    decreases n,
{
    if n.kind == "import_statement"@ {
        import_sites(imported_names(n.children))
    } else if n.kind == "import_from_statement"@ {
        match field_of(n.children, "module_name"@) {
            Some(i) => if 0 <= i < n.children.len() {
                seq![PythonSiteView::From(compact(n.children[i].text), imported_names(n.children), has_wildcard(n.children), n.start)]
            } else {
                Seq::empty()
            },
            None => Seq::empty(),
        }
    } else if n.kind == "future_import_statement"@ {
        seq![PythonSiteView::Future]
    } else {
        python_sites_rev(n.children)
    }
}

/// The sites of the named nodes among `children`, last first.
pub open spec fn python_sites_rev(children: Seq<SyntaxView>) -> Seq<PythonSiteView>
    decreases children,
{
    if children.len() == 0 {
        Seq::empty()
    } else {
        (if children.last().named {
            python_sites(children.last())
        } else {
            Seq::empty()
        }) + python_sites_rev(children.drop_last())
    }
}

/// The name an imported-name node gives.
fn import_name_of(node: &SyntaxNode) -> (r: String)
    ensures
        r@ == import_name(node@),
{
    proof {
        lemma_views_of(node.children@);
    }
    match node.field_child("name") {
        Some(i) => compact_text(node.children[i].text.as_str()),
        None => compact_text(node.text.as_str()),
    }
}

/// The names of the children that fill the field `name`.
fn names_of(node: &SyntaxNode) -> (r: Vec<String>)
    ensures
        crate::order::texts(r@) == imported_names(node@.children),
{
    proof {
        lemma_views_of(node.children@);
    }
    let mut out: Vec<String> = Vec::new();
    let mut i: usize = 0;
    assert(crate::order::texts(out@) =~= imported_names(node@.children.subrange(0, 0)));
    while i < node.children.len()
        invariant
            i <= node.children@.len(),
            node@.children == views_of(node.children@),
            views_of(node.children@).len() == node.children@.len(),
            forall|j: int| 0 <= j < node.children@.len() ==> #[trigger] views_of(node.children@)[j] == syntax_view(node.children@[j]),
            crate::order::texts(out@) == imported_names(node@.children.subrange(0, i as int)),
        decreases node.children@.len() - i,
    {
        let c = &node.children[i];
        let is_name = match &c.field {
            Some(f) => crate::text_util::str_eq(f.as_str(), "name"),
            None => false,
        };
        if is_name {
            out.push(import_name_of(c));
        }
        proof {
            let s = node@.children.subrange(0, i + 1);
            assert(s.drop_last() =~= node@.children.subrange(0, i as int));
            assert(s.last() == node@.children[i as int]);
        }
        i += 1;
        assert(crate::order::texts(out@) =~= imported_names(node@.children.subrange(0, i as int)));
    }
    assert(node@.children.subrange(0, node@.children.len() as int) =~= node@.children);
    out
}

/// Appends one `import` site for each non-empty name.
fn push_import_sites(out: &mut Vec<PythonSite>, names: Vec<String>)
    ensures
        python_sites_view(final(out)@) == python_sites_view(old(out)@) + import_sites(crate::order::texts(names@)),
{
    let mut i: usize = 0;
    assert(python_sites_view(out@) =~= python_sites_view(old(out)@) + import_sites(crate::order::texts(names@.subrange(0, 0))));
    while i < names.len()
        invariant
            i <= names@.len(),
            python_sites_view(out@) == python_sites_view(old(out)@) + import_sites(crate::order::texts(names@.subrange(0, i as int))),
        decreases names@.len() - i,
    {
        let ghost before = python_sites_view(out@);
        if names[i].as_str().unicode_len() > 0 {
            out.push(PythonSite::Import { name: names[i].clone() });
            assert(python_sites_view(out@) =~= before + seq![PythonSiteView::Import(names@[i as int]@)]);
        } else {
            assert(python_sites_view(out@) =~= before + Seq::empty());
        }
        proof {
            let t = crate::order::texts(names@.subrange(0, i + 1));
            assert(t.drop_last() =~= crate::order::texts(names@.subrange(0, i as int)));
            assert(t.last() == names@[i as int]@);
        }
        i += 1;
        assert(python_sites_view(out@) =~= python_sites_view(old(out)@) + import_sites(crate::order::texts(names@.subrange(0, i as int))));
    }
    assert(names@.subrange(0, names@.len() as int) =~= names@);
}

/// A statement kind whose imports are read without entering it.
pub open spec fn import_statement_kind(k: Seq<char>) -> bool {
    k == "import_statement"@ || k == "import_from_statement"@ || k == "future_import_statement"@
}

/// Appends the sites of an import statement.
fn push_statement_sites(out: &mut Vec<PythonSite>, node: &SyntaxNode)
    requires
        import_statement_kind(node@.kind),
    ensures
        python_sites_view(final(out)@) == python_sites_view(old(out)@) + python_sites(node@),
{
    proof {
        lemma_views_of(node.children@);
    }
    if node.is_kind("import_statement") {
        push_import_sites(out, names_of(node));
        return;
    }
    if node.is_kind("import_from_statement") {
        if let Some(m) = node.field_child("module_name") {
            let mut wildcard = false;
            let mut k: usize = 0;
            while k < node.children.len()
                invariant
                    k <= node.children@.len(),
                    node@.children == views_of(node.children@),
                    views_of(node.children@).len() == node.children@.len(),
                    forall|j: int| 0 <= j < node.children@.len() ==> #[trigger] views_of(node.children@)[j] == syntax_view(node.children@[j]),
                    wildcard == exists|j: int| 0 <= j < k && #[trigger] node@.children[j].named && node@.children[j].kind == "wildcard_import"@,
                decreases node.children@.len() - k,
            {
                let hit = node.children[k].named && node.children[k].is_kind("wildcard_import");
                proof {
                    assert(hit == (node@.children[k as int].named && node@.children[k as int].kind == "wildcard_import"@));
                }
                if hit {
                    wildcard = true;
                }
                k += 1;
            }
            let site = PythonSite::From {
                module: compact_text(node.children[m].text.as_str()),
                names: names_of(node),
                wildcard,
                start: node.start,
            };
            let ghost v = python_site_view(site);
            out.push(site);
            assert(python_sites_view(out@) =~= python_sites_view(old(out)@) + seq![v]);
        } else {
            assert(python_sites_view(out@) =~= python_sites_view(old(out)@) + Seq::empty());
        }
        return;
    }
    out.push(PythonSite::Future);
    assert(python_sites_view(out@) =~= python_sites_view(old(out)@) + seq![PythonSiteView::Future]);
}

/// The sites of the trees on a stack, the top one first.
pub open spec fn stack_python_sites(st: Seq<SyntaxView>) -> Seq<PythonSiteView>
    decreases st.len(),
{
    if st.len() == 0 {
        Seq::empty()
    } else {
        python_sites(st.last()) + stack_python_sites(st.drop_last())
    }
}

/// Appends the import sites of a tree, keeping the nodes still to visit on a
/// stack rather than recursing.
pub fn push_python_sites(out: &mut Vec<PythonSite>, root: &SyntaxNode)
    ensures
        python_sites_view(final(out)@) == python_sites_view(old(out)@) + python_sites(root@),
{
    let mut stack: Vec<&SyntaxNode> = Vec::new();
    stack.push(root);
    proof {
        assert(refs_view(stack@) =~= seq![root@]);
        assert(seq![root@].drop_last() =~= Seq::<SyntaxView>::empty());
        assert(seq![root@].last() == root@);
        assert(stack_python_sites(Seq::<SyntaxView>::empty()) =~= Seq::empty());
        assert(python_sites(root@) + Seq::empty() =~= python_sites(root@));
        assert(stack_python_sites(refs_view(stack@)) =~= python_sites(root@));
    }
    while stack.len() > 0
        invariant
            python_sites_view(out@) + stack_python_sites(refs_view(stack@)) == python_sites_view(old(out)@) + python_sites(root@),
        decreases forest_size(refs_view(stack@)),
    {
        let ghost before = stack@;
        let ghost start = python_sites_view(out@);
        let node = stack.pop().unwrap();
        let ghost rest = stack@;
        proof {
            lemma_views_of(node.children@);
            assert(before.drop_last() =~= rest);
            assert(refs_view(before).drop_last() =~= refs_view(rest));
            assert(refs_view(before).last() == node@);
        }
        if node.is_kind("import_statement") || node.is_kind("import_from_statement") || node.is_kind("future_import_statement") {
            push_statement_sites(out, node);
            proof {
                assert(refs_view(stack@) == refs_view(rest));
                assert(forest_size(refs_view(before)) == forest_size(refs_view(rest)) + tree_size(node@));
            }
        } else {
            let ghost kids = node@.children;
            let mut i: usize = 0;
            assert(kids.subrange(0, 0) =~= Seq::<SyntaxView>::empty());
            while i < node.children.len()
                invariant
                    i <= node.children@.len(),
                    kids == node@.children,
                    kids == views_of(node.children@),
                    kids.len() == node.children@.len(),
                    forall|j: int| 0 <= j < node.children@.len() ==> #[trigger] views_of(node.children@)[j] == syntax_view(node.children@[j]),
                    stack_python_sites(refs_view(stack@)) == python_sites_rev(kids.subrange(0, i as int)) + stack_python_sites(refs_view(rest)),
                    forest_size(refs_view(stack@)) <= forest_size(refs_view(rest)) + forest_size(kids.subrange(0, i as int)),
                decreases node.children@.len() - i,
            {
                let ghost st = stack@;
                let ghost sub = kids.subrange(0, i + 1);
                proof {
                    assert(sub.drop_last() =~= kids.subrange(0, i as int));
                    assert(sub.last() == kids[i as int]);
                }
                if node.children[i].named {
                    stack.push(&node.children[i]);
                    proof {
                        assert(refs_view(stack@) =~= refs_view(st).push(kids[i as int]));
                        assert(refs_view(stack@).drop_last() =~= refs_view(st));
                    }
                } else {
                    assert(python_sites_rev(sub) =~= python_sites_rev(kids.subrange(0, i as int)));
                }
                i += 1;
            }
            proof {
                assert(kids.subrange(0, kids.len() as int) =~= kids);
                assert(forest_size(refs_view(before)) == forest_size(refs_view(rest)) + tree_size(node@));
            }
        }
        assert(python_sites_view(out@) + stack_python_sites(refs_view(stack@)) =~= start + stack_python_sites(refs_view(before)));
    }
    assert(refs_view(stack@) =~= Seq::<SyntaxView>::empty());
}

/// The import sites of a Python syntax tree.
pub fn python_import_sites(tree: &SyntaxNode) -> (r: Vec<PythonSite>)
    ensures
        python_sites_view(r@) == python_sites(tree@),
{
    let mut out: Vec<PythonSite> = Vec::new();
    assert(python_sites_view(out@) =~= Seq::empty());
    push_python_sites(&mut out, tree);
    assert(python_sites_view(out@) =~= python_sites(tree@));
    out
}

/// The syntax tree of a Python source, which the parser always gives.
pub fn parse_python_source(source: &str) -> (r: Result<SyntaxNode, &'static str>)
    ensures
        r matches Ok(t) ==> t@ == python_syntax(source@),
        r is Ok,
{
    match parse_python(source) {
        Some(t) => Ok(t),
        None => Err("Python 解析未完成。"),
    }
}

/// Whether `char::is_alphanumeric` holds of `c`.
pub uninterp spec fn alphanumeric(c: char) -> bool;

/// Calls `char::is_alphanumeric`; claims that the result is the value named
/// `alphanumeric` of the character.
#[verifier::external_body]
fn is_alphanumeric(c: char) -> (r: bool)
    ensures
        r == alphanumeric(c),
{
    c.is_alphanumeric()
}

/// One fact about the names a Python module defines.
#[derive(Debug, PartialEq, Eq)]
pub enum BindingFact {
    /// A name bound at a byte offset.
    Bind { name: String, position: usize },
    /// A module-level `__getattr__` makes any attribute possible.
    Dynamic,
    /// An assignment to `__all__` at a byte offset, with its literal names when
    /// it is a plain list or tuple of identifier strings.
    All { position: usize, names: Option<Vec<String>> },
}

/// The mathematical value of a [`BindingFact`].
pub enum BindingFactView {
    Bind(Seq<char>, int),
    Dynamic,
    All(int, Option<Seq<Seq<char>>>),
}

/// The value of a fact.
pub open spec fn binding_view(f: BindingFact) -> BindingFactView {
    match f {
        BindingFact::Bind { name, position } => BindingFactView::Bind(name@, position as int),
        BindingFact::Dynamic => BindingFactView::Dynamic,
        BindingFact::All { position, names } => BindingFactView::All(position as int, match names {
            Some(v) => Some(crate::order::texts(v@)),
            None => None,
        }),
    }
}

/// The values of a list of facts.
pub open spec fn bindings_view(s: Seq<BindingFact>) -> Seq<BindingFactView> {
    s.map_values(|f: BindingFact| binding_view(f))
}

/// The text inside matching double or single quotes.
pub open spec fn quoted_inner(raw: Seq<char>) -> Option<Seq<char>> {
    if raw.len() >= 2 && raw[0] == '"' && raw.last() == '"' {
        Some(raw.subrange(1, raw.len() - 1))
    } else if raw.len() >= 2 && raw[0] == '\'' && raw.last() == '\'' {
        Some(raw.subrange(1, raw.len() - 1))
    } else {
        None
    }
}

/// A non-empty name of underscores and alphanumeric characters.
pub open spec fn plain_name(s: Seq<char>) -> bool {
    s.len() > 0 && forall|i: int| 0 <= i < s.len() ==> (#[trigger] s[i] == '_' || alphanumeric(s[i]))
}

/// The names of the named non-comment nodes among `children`, when each is a
/// string literal holding a plain name.
pub open spec fn literal_list(children: Seq<SyntaxView>) -> Option<Seq<Seq<char>>>
    decreases children.len(),
{
    if children.len() == 0 {
        Some(Seq::empty())
    } else {
        let c = children.last();
        match literal_list(children.drop_last()) {
            None => None,
            Some(names) => if !c.named || c.kind == "comment"@ {
                Some(names)
            } else if c.kind != "string"@ {
                None
            } else {
                match quoted_inner(c.text) {
                    Some(inner) => if plain_name(inner) { Some(names.push(inner)) } else { None },
                    None => None,
                }
            },
        }
    }
}

/// The literal names of a list or tuple node, if it is one of plain name strings.
pub open spec fn literal_names(n: SyntaxView) -> Option<Seq<Seq<char>>> {
    if n.kind == "list"@ || n.kind == "tuple"@ {
        literal_list(n.children)
    } else {
        None
    }
}

/// The names a target pattern binds, in order.
pub open spec fn pattern_binds(n: SyntaxView) -> Seq<BindingFactView>
    decreases n,
{
    if n.kind == "identifier"@ {
        seq![BindingFactView::Bind(compact(n.text), n.start)]
    } else if n.kind == "pattern_list"@ || n.kind == "tuple_pattern"@ || n.kind == "list_pattern"@ || n.kind
        == "list_splat_pattern"@ {
        pattern_binds_list(n.children)
    } else {
        Seq::empty()
    }
}

/// The names the named nodes among `children` bind, in order.
pub open spec fn pattern_binds_list(children: Seq<SyntaxView>) -> Seq<BindingFactView>
    decreases children,
{
    if children.len() == 0 {
        Seq::empty()
    } else {
        pattern_binds_list(children.drop_last()) + if children.last().named {
            pattern_binds(children.last())
        } else {
            Seq::empty()
        }
    }
}

/// The name an imported-name node binds: its alias, else the first segment of its name.
pub open spec fn import_binding(n: SyntaxView) -> Seq<char> {
    match field_of(n.children, "alias"@) {
        Some(i) => if 0 <= i < n.children.len() { compact(n.children[i].text) } else { Seq::empty() },
        None => crate::languages::java_walk::first_segment(import_name(n)),
    }
}

/// The names the `name` children of an import bind, non-empty ones only.
pub open spec fn import_binds(children: Seq<SyntaxView>) -> Seq<BindingFactView>
    decreases children.len(),
{
    if children.len() == 0 {
        Seq::empty()
    } else {
        let c = children.last();
        import_binds(children.drop_last()) + if c.field == Some("name"@) && import_binding(c).len() > 0 {
            seq![BindingFactView::Bind(import_binding(c), c.start)]
        } else {
            Seq::empty()
        }
    }
}

/// The child filling `field`, if any.
pub open spec fn field_child_of(n: SyntaxView, field: Seq<char>) -> Option<SyntaxView> {
    match field_of(n.children, field) {
        Some(i) => if 0 <= i < n.children.len() { Some(n.children[i]) } else { None },
        None => None,
    }
}

/// The binding facts of a module tree. Function and class bodies, lambdas and
/// imports are not entered; a chained assignment's right side is read next;
/// other nodes are entered from their last named child to their first.
pub open spec fn binding_facts(n: SyntaxView, stub: bool) -> Seq<BindingFactView>
    decreases n,
{
    if n.kind == "function_definition"@ || n.kind == "class_definition"@ {
        match field_child_of(n, "name"@) {
            Some(name) => (if compact(name.text) == "__getattr__"@ { seq![BindingFactView::Dynamic] } else { Seq::empty() })
                + seq![BindingFactView::Bind(compact(name.text), n.start)],
            None => Seq::empty(),
        }
    } else if n.kind == "lambda"@ {
        Seq::empty()
    } else if n.kind == "assignment"@ || n.kind == "augmented_assignment"@ {
        if !stub && field_child_of(n, "right"@) is None {
            Seq::empty()
        } else {
            let left = match field_of(n.children, "left"@) {
                Some(i) => if 0 <= i < n.children.len() {
                    let l = n.children[i];
                    pattern_binds(l) + if l.kind == "identifier"@ && compact(l.text) == "__all__"@ {
                        seq![BindingFactView::All(n.start, if n.kind == "assignment"@ {
                            match field_child_of(n, "right"@) {
                                Some(r) => literal_names(r),
                                None => None,
                            }
                        } else {
                            None
                        })]
                    } else {
                        Seq::empty()
                    }
                } else {
                    Seq::empty()
                },
                None => Seq::empty(),
            };
            left + match field_of(n.children, "right"@) {
                Some(i) => if 0 <= i < n.children.len() && n.children[i].kind == "assignment"@ {
                    binding_facts(n.children[i], stub)
                } else {
                    Seq::empty()
                },
                None => Seq::empty(),
            }
        }
    } else if n.kind == "import_statement"@ || n.kind == "import_from_statement"@ || n.kind == "future_import_statement"@ {
        import_binds(n.children)
    } else {
        binding_facts_rev(n.children, stub)
    }
}

/// The binding facts of the named nodes among `children`, last first.
pub open spec fn binding_facts_rev(children: Seq<SyntaxView>, stub: bool) -> Seq<BindingFactView>
    decreases children,
{
    if children.len() == 0 {
        Seq::empty()
    } else {
        (if children.last().named { binding_facts(children.last(), stub) } else { Seq::empty() })
            + binding_facts_rev(children.drop_last(), stub)
    }
}

/// Whether an `__all__` assignment at `position` replaces the one recorded at
/// `current`: only a later one does.
pub fn all_replaces(current: Option<usize>, position: usize) -> (r: bool)
    ensures
        r == match current {
            Some(p) => p < position,
            None => true,
        },
{
    match current {
        Some(p) => p < position,
        None => true,
    }
}

/// Appends a fact.
fn push_binding(out: &mut Vec<BindingFact>, f: BindingFact)
    ensures
        bindings_view(final(out)@) == bindings_view(old(out)@).push(binding_view(f)),
{
    let ghost v = binding_view(f);
    out.push(f);
    assert(bindings_view(out@) =~= bindings_view(old(out)@).push(v));
}

/// The text inside matching quotes.
fn quoted_inner_of(raw: &Vec<char>) -> (r: Option<Vec<char>>)
    ensures
        match r {
            Some(v) => quoted_inner(raw@) == Some(v@),
            None => quoted_inner(raw@) is None,
        },
{
    let n = raw.len();
    if n >= 2 && ((raw[0] == '"' && raw[n - 1] == '"') || (raw[0] == '\'' && raw[n - 1] == '\'')) {
        Some(crate::text_util::vec_slice(raw, 1, n - 1))
    } else {
        None
    }
}

/// Whether a text is a non-empty name of underscores and alphanumeric characters.
fn is_plain_name(s: &Vec<char>) -> (r: bool)
    ensures
        r == plain_name(s@),
{
    if s.len() == 0 {
        return false;
    }
    let mut i: usize = 0;
    while i < s.len()
        invariant
            i <= s@.len(),
            forall|j: int| 0 <= j < i ==> (#[trigger] s@[j] == '_' || alphanumeric(s@[j])),
        decreases s@.len() - i,
    {
        if !(s[i] == '_' || is_alphanumeric(s[i])) {
            return false;
        }
        i += 1;
    }
    true
}

/// The literal names of a list or tuple node.
fn literal_names_of(node: &SyntaxNode) -> (r: Option<Vec<String>>)
    ensures
        match r {
            Some(v) => literal_names(node@) == Some(crate::order::texts(v@)),
            None => literal_names(node@) is None,
        },
{
    proof {
        lemma_views_of(node.children@);
    }
    if !(node.is_kind("list") || node.is_kind("tuple")) {
        return None;
    }
    let mut out: Vec<String> = Vec::new();
    let mut i: usize = 0;
    assert(node@.children.subrange(0, 0) =~= Seq::<SyntaxView>::empty());
    assert(crate::order::texts(out@) =~= Seq::<Seq<char>>::empty());
    while i < node.children.len()
        invariant
            i <= node.children@.len(),
            node@.children == views_of(node.children@),
            views_of(node.children@).len() == node.children@.len(),
            forall|j: int| 0 <= j < node.children@.len() ==> #[trigger] views_of(node.children@)[j] == syntax_view(node.children@[j]),
            literal_list(node@.children.subrange(0, i as int)) == Some(crate::order::texts(out@)),
        decreases node.children@.len() - i,
    {
        let c = &node.children[i];
        proof {
            let t = node@.children.subrange(0, i + 1);
            assert(t.drop_last() =~= node@.children.subrange(0, i as int));
            assert(t.last() == node@.children[i as int]);
        }
        if c.named && !c.is_kind("comment") {
            if !c.is_kind("string") {
                proof {
                    lemma_literal_stays_none(node@.children, i as int + 1);
                }
                return None;
            }
            match quoted_inner_of(&chars_of(c.text.as_str())) {
                Some(inner) => {
                    if !is_plain_name(&inner) {
                        proof {
                            lemma_literal_stays_none(node@.children, i as int + 1);
                        }
                        return None;
                    }
                    let ghost before = out@;
                    out.push(string_of(&inner));
                    assert(crate::order::texts(out@) =~= crate::order::texts(before).push(inner@));
                },
                None => {
                    proof {
                        lemma_literal_stays_none(node@.children, i as int + 1);
                    }
                    return None;
                },
            }
        }
        i += 1;
    }
    assert(node@.children.subrange(0, node@.children.len() as int) =~= node@.children);
    Some(out)
}

/// Once a prefix is refused, every longer prefix is refused.
proof fn lemma_literal_stays_none(children: Seq<SyntaxView>, k: int)
    requires
        0 <= k <= children.len(),
        literal_list(children.subrange(0, k)) is None,
    ensures
        literal_list(children) is None,
    decreases children.len() - k,
{
    if k < children.len() {
        let t = children.subrange(0, k + 1);
        assert(t.drop_last() =~= children.subrange(0, k));
        lemma_literal_stays_none(children, k + 1);
    } else {
        assert(children.subrange(0, k) =~= children);
    }
}

/// Appends the names a target pattern binds.
fn push_pattern_binds(out: &mut Vec<BindingFact>, node: &SyntaxNode)
    ensures
        bindings_view(final(out)@) == bindings_view(old(out)@) + pattern_binds(node@),
    decreases node,
{
    proof {
        lemma_views_of(node.children@);
    }
    if node.is_kind("identifier") {
        push_binding(out, BindingFact::Bind { name: compact_text(node.text.as_str()), position: node.start });
        return;
    }
    if !(node.is_kind("pattern_list") || node.is_kind("tuple_pattern") || node.is_kind("list_pattern")
        || node.is_kind("list_splat_pattern")) {
        assert(bindings_view(out@) =~= bindings_view(old(out)@) + Seq::empty());
        return;
    }
    let ghost start = bindings_view(out@);
    let mut i: usize = 0;
    assert(bindings_view(out@) =~= start + pattern_binds_list(node@.children.subrange(0, 0)));
    while i < node.children.len()
        invariant
            i <= node.children@.len(),
            node@.children == views_of(node.children@),
            views_of(node.children@).len() == node.children@.len(),
            forall|j: int| 0 <= j < node.children@.len() ==> #[trigger] views_of(node.children@)[j] == syntax_view(node.children@[j]),
            bindings_view(out@) == start + pattern_binds_list(node@.children.subrange(0, i as int)),
        decreases node.children@.len() - i,
    {
        let ghost before = bindings_view(out@);
        if node.children[i].named {
            push_pattern_binds(out, &node.children[i]);
        } else {
            assert(bindings_view(out@) =~= before + Seq::empty());
        }
        proof {
            let t = node@.children.subrange(0, i + 1);
            assert(t.drop_last() =~= node@.children.subrange(0, i as int));
            assert(t.last() == node@.children[i as int]);
        }
        i += 1;
        assert(bindings_view(out@) =~= start + pattern_binds_list(node@.children.subrange(0, i as int)));
    }
    assert(node@.children.subrange(0, node@.children.len() as int) =~= node@.children);
}

/// Appends the names the `name` children of an import bind.
fn push_import_binds(out: &mut Vec<BindingFact>, node: &SyntaxNode)
    ensures
        bindings_view(final(out)@) == bindings_view(old(out)@) + import_binds(node@.children),
{
    proof {
        lemma_views_of(node.children@);
    }
    let ghost start = bindings_view(out@);
    let mut i: usize = 0;
    assert(bindings_view(out@) =~= start + import_binds(node@.children.subrange(0, 0)));
    while i < node.children.len()
        invariant
            i <= node.children@.len(),
            node@.children == views_of(node.children@),
            views_of(node.children@).len() == node.children@.len(),
            forall|j: int| 0 <= j < node.children@.len() ==> #[trigger] views_of(node.children@)[j] == syntax_view(node.children@[j]),
            bindings_view(out@) == start + import_binds(node@.children.subrange(0, i as int)),
        decreases node.children@.len() - i,
    {
        let c = &node.children[i];
        proof {
            lemma_views_of(c.children@);
            let t = node@.children.subrange(0, i + 1);
            assert(t.drop_last() =~= node@.children.subrange(0, i as int));
            assert(t.last() == node@.children[i as int]);
        }
        let ghost before = bindings_view(out@);
        let is_name = match &c.field {
            Some(f) => crate::text_util::str_eq(f.as_str(), "name"),
            None => false,
        };
        if is_name {
            let binding = match c.field_child("alias") {
                Some(a) => compact_text(c.children[a].text.as_str()),
                None => crate::languages::java_walk::first_segment_text(import_name_of(c).as_str()),
            };
            if binding.as_str().unicode_len() > 0 {
                push_binding(out, BindingFact::Bind { name: binding, position: c.start });
            } else {
                assert(bindings_view(out@) =~= before + Seq::empty());
            }
        } else {
            assert(bindings_view(out@) =~= before + Seq::empty());
        }
        i += 1;
        assert(bindings_view(out@) =~= start + import_binds(node@.children.subrange(0, i as int)));
    }
    assert(node@.children.subrange(0, node@.children.len() as int) =~= node@.children);
}

/// Appends what an assignment binds itself, and gives the chained assignment
/// on its right side, whose facts come next.
fn push_assignment_own(out: &mut Vec<BindingFact>, node: &SyntaxNode, stub: bool) -> (r: Option<usize>)
    requires
        node@.kind == "assignment"@ || node@.kind == "augmented_assignment"@,
    ensures
        r matches Some(i) ==> i < node.children@.len(),
        bindings_view(final(out)@) + match r {
            Some(i) => binding_facts(node@.children[i as int], stub),
            None => Seq::empty(),
        } == bindings_view(old(out)@) + binding_facts(node@, stub),
{
    proof {
        lemma_views_of(node.children@);
        reveal_strlit("assignment");
        reveal_strlit("augmented_assignment");
        reveal_strlit("function_definition");
        reveal_strlit("class_definition");
        reveal_strlit("lambda");
        assert(node@.kind.len() == 10 || node@.kind.len() == 20);
        assert("function_definition"@.len() == 19);
        assert("class_definition"@.len() == 16);
        assert("lambda"@.len() == 6);
    }
    let ghost start = bindings_view(out@);
    let right = node.field_child("right");
    if !stub && right.is_none() {
        assert(bindings_view(out@) + Seq::empty() =~= start + Seq::empty());
        return None;
    }
    match node.field_child("left") {
        Some(l) => {
            let left = &node.children[l];
            push_pattern_binds(out, left);
            let ghost mid = bindings_view(out@);
            if left.is_kind("identifier") && crate::text_util::str_eq(compact_text(left.text.as_str()).as_str(), "__all__") {
                let names = if node.is_kind("assignment") {
                    match right {
                        Some(r) => literal_names_of(&node.children[r]),
                        None => None,
                    }
                } else {
                    None
                };
                push_binding(out, BindingFact::All { position: node.start, names });
            } else {
                assert(bindings_view(out@) =~= mid + Seq::empty());
            }
        },
        None => {
            assert(bindings_view(out@) =~= start + Seq::empty());
        },
    }
    let ghost after_left = bindings_view(out@);
    match right {
        Some(r) => {
            if node.children[r].is_kind("assignment") {
                assert(after_left + binding_facts(node@.children[r as int], stub) =~= start + binding_facts(node@, stub));
                return Some(r);
            }
        },
        None => {},
    }
    assert(bindings_view(out@) + Seq::empty() =~= start + binding_facts(node@, stub));
    None
}

/// A node kind whose binding facts involve no nodes below it but its own parts.
pub open spec fn closed_binding_kind(k: Seq<char>) -> bool {
    k == "function_definition"@ || k == "class_definition"@ || k == "lambda"@ || k == "import_statement"@
        || k == "import_from_statement"@ || k == "future_import_statement"@
}

/// Appends the binding facts of a definition, lambda or import.
fn push_closed_bindings(out: &mut Vec<BindingFact>, node: &SyntaxNode, stub: bool)
    requires
        closed_binding_kind(node@.kind),
        node@.kind != "assignment"@,
        node@.kind != "augmented_assignment"@,
    ensures
        bindings_view(final(out)@) == bindings_view(old(out)@) + binding_facts(node@, stub),
{
    proof {
        lemma_views_of(node.children@);
    }
    let ghost start = bindings_view(out@);
    if node.is_kind("function_definition") || node.is_kind("class_definition") {
        match node.field_child("name") {
            Some(n) => {
                let name = compact_text(node.children[n].text.as_str());
                if crate::text_util::str_eq(name.as_str(), "__getattr__") {
                    push_binding(out, BindingFact::Dynamic);
                }
                push_binding(out, BindingFact::Bind { name, position: node.start });
                assert(bindings_view(out@) =~= start + binding_facts(node@, stub));
            },
            None => {
                assert(bindings_view(out@) =~= start + Seq::empty());
            },
        }
        return;
    }
    if node.is_kind("lambda") {
        assert(bindings_view(out@) =~= start + Seq::empty());
        return;
    }
    push_import_binds(out, node);
}

/// The binding facts of the trees on a stack, the top one first.
pub open spec fn stack_bindings(st: Seq<SyntaxView>, stub: bool) -> Seq<BindingFactView>
    decreases st.len(),
{
    if st.len() == 0 {
        Seq::empty()
    } else {
        binding_facts(st.last(), stub) + stack_bindings(st.drop_last(), stub)
    }
}

/// Appends the binding facts of a module tree, keeping the nodes still to
/// visit on a stack rather than recursing.
pub fn push_binding_facts(out: &mut Vec<BindingFact>, root: &SyntaxNode, stub: bool)
    ensures
        bindings_view(final(out)@) == bindings_view(old(out)@) + binding_facts(root@, stub),
{
    let mut stack: Vec<&SyntaxNode> = Vec::new();
    stack.push(root);
    proof {
        assert(refs_view(stack@) =~= seq![root@]);
        assert(seq![root@].drop_last() =~= Seq::<SyntaxView>::empty());
        assert(seq![root@].last() == root@);
        assert(stack_bindings(Seq::<SyntaxView>::empty(), stub) =~= Seq::empty());
        assert(binding_facts(root@, stub) + Seq::empty() =~= binding_facts(root@, stub));
        assert(stack_bindings(refs_view(stack@), stub) =~= binding_facts(root@, stub));
    }
    while stack.len() > 0
        invariant
            bindings_view(out@) + stack_bindings(refs_view(stack@), stub) == bindings_view(old(out)@) + binding_facts(root@, stub),
        decreases forest_size(refs_view(stack@)),
    {
        let ghost before = stack@;
        let ghost start = bindings_view(out@);
        let node = stack.pop().unwrap();
        let ghost rest = stack@;
        proof {
            lemma_views_of(node.children@);
            assert(before.drop_last() =~= rest);
            assert(refs_view(before).drop_last() =~= refs_view(rest));
            assert(refs_view(before).last() == node@);
            assert(forest_size(refs_view(before)) == forest_size(refs_view(rest)) + tree_size(node@));
        }
        if node.is_kind("assignment") || node.is_kind("augmented_assignment") {
            match push_assignment_own(out, node, stub) {
                Some(r) => {
                    let ghost st = stack@;
                    stack.push(&node.children[r]);
                    proof {
                        assert(refs_view(stack@) =~= refs_view(st).push(node@.children[r as int]));
                        assert(refs_view(stack@).drop_last() =~= refs_view(st));
                        assert(st == rest);
                        assert(refs_view(stack@).last() == node@.children[r as int]);
                        assert(stack_bindings(refs_view(stack@), stub) == binding_facts(node@.children[r as int], stub) + stack_bindings(refs_view(rest), stub));
                        crate::syntax::lemma_forest_concat(node@.children.subrange(0, r as int), node@.children.subrange(r as int, node@.children.len() as int));
                        assert(node@.children =~= node@.children.subrange(0, r as int) + node@.children.subrange(r as int, node@.children.len() as int));
                        lemma_forest_at_least(node@.children.subrange(r as int, node@.children.len() as int));
                        assert(node@.children.subrange(r as int, node@.children.len() as int)[0] == node@.children[r as int]);
                        assert(stack_bindings(refs_view(before), stub) == binding_facts(node@, stub) + stack_bindings(refs_view(rest), stub));
                        let a = bindings_view(out@);
                        let b = binding_facts(node@.children[r as int], stub);
                        let c = stack_bindings(refs_view(rest), stub);
                        assert(a + b == start + binding_facts(node@, stub));
                        assert((a + b) + c =~= a + (b + c));
                        assert((start + binding_facts(node@, stub)) + c =~= start + (binding_facts(node@, stub) + c));
                    }
                },
                None => {
                    assert(bindings_view(out@) =~= start + binding_facts(node@, stub));
                    assert(stack@ == rest);
                },
            }
        } else if node.is_kind("function_definition") || node.is_kind("class_definition") || node.is_kind("lambda")
            || node.is_kind("import_statement") || node.is_kind("import_from_statement") || node.is_kind("future_import_statement") {
            push_closed_bindings(out, node, stub);
            assert(stack@ == rest);
        } else {
            let ghost kids = node@.children;
            let mut i: usize = 0;
            assert(kids.subrange(0, 0) =~= Seq::<SyntaxView>::empty());
            while i < node.children.len()
                invariant
                    i <= node.children@.len(),
                    kids == node@.children,
                    kids == views_of(node.children@),
                    kids.len() == node.children@.len(),
                    forall|j: int| 0 <= j < node.children@.len() ==> #[trigger] views_of(node.children@)[j] == syntax_view(node.children@[j]),
                    stack_bindings(refs_view(stack@), stub) == binding_facts_rev(kids.subrange(0, i as int), stub) + stack_bindings(refs_view(rest), stub),
                    forest_size(refs_view(stack@)) <= forest_size(refs_view(rest)) + forest_size(kids.subrange(0, i as int)),
                decreases node.children@.len() - i,
            {
                let ghost st = stack@;
                let ghost sub = kids.subrange(0, i + 1);
                proof {
                    assert(sub.drop_last() =~= kids.subrange(0, i as int));
                    assert(sub.last() == kids[i as int]);
                }
                if node.children[i].named {
                    stack.push(&node.children[i]);
                    proof {
                        assert(refs_view(stack@) =~= refs_view(st).push(kids[i as int]));
                        assert(refs_view(stack@).drop_last() =~= refs_view(st));
                    }
                } else {
                    assert(binding_facts_rev(sub, stub) =~= binding_facts_rev(kids.subrange(0, i as int), stub));
                }
                i += 1;
            }
            proof {
                assert(kids.subrange(0, kids.len() as int) =~= kids);
                assert(binding_facts(node@, stub) == binding_facts_rev(kids, stub));
                assert(stack_bindings(refs_view(before), stub) == binding_facts(node@, stub) + stack_bindings(refs_view(rest), stub));
                assert(bindings_view(out@) + stack_bindings(refs_view(stack@), stub) =~= start + stack_bindings(refs_view(before), stub));
            }
        }
        assert(stack_bindings(refs_view(before), stub) == binding_facts(node@, stub) + stack_bindings(refs_view(rest), stub));
        assert(bindings_view(out@) + stack_bindings(refs_view(stack@), stub) =~= start + stack_bindings(refs_view(before), stub));
    }
    assert(refs_view(stack@) =~= Seq::<SyntaxView>::empty());
}

/// A non-empty list of trees has at least the size of its first tree.
proof fn lemma_forest_at_least(f: Seq<SyntaxView>)
    requires
        f.len() > 0,
    ensures
        forest_size(f) >= tree_size(f[0]),
    decreases f.len(),
{
    if f.len() > 1 {
        lemma_forest_at_least(f.drop_last());
        assert(f.drop_last()[0] == f[0]);
    }
}

/// The binding facts of a Python module tree; `stub` for a `.pyi` file, where
/// an annotation alone binds a name.
pub fn module_bindings(tree: &SyntaxNode, stub: bool) -> (r: Vec<BindingFact>)
    ensures
        bindings_view(r@) == binding_facts(tree@, stub),
{
    let mut out: Vec<BindingFact> = Vec::new();
    assert(bindings_view(out@) =~= Seq::empty());
    push_binding_facts(&mut out, tree, stub);
    assert(bindings_view(out@) =~= binding_facts(tree@, stub));
    out
}

/// What `from package import *` brings, by the package initializer's `__all__`.
#[derive(Debug, PartialEq, Eq)]
pub enum StarImport {
    /// Nothing is known to be imported.
    Nothing,
    /// The names `__all__` lists literally, each imported as a member.
    Members(Vec<String>),
    /// `__all__` is not a literal list of names: the import is reported unresolved.
    Dynamic,
}

/// What a star import of a package brings: nothing unless the base is a
/// package with an initializer that assigns `__all__`, and nothing when that
/// assignment comes at or after the import in the importing initializer itself.
pub open spec fn star_import_of(
    importer: Seq<char>,
    statement_start: int,
    is_package: bool,
    initializer: Option<Seq<char>>,
    all_position: Option<int>,
    all: Option<Seq<Seq<char>>>,
) -> Option<Option<Seq<Seq<char>>>> {
    if !is_package {
        None
    } else {
        match initializer {
            None => None,
            Some(init) => match all_position {
                None => None,
                Some(position) => if init == importer && position >= statement_start {
                    None
                } else {
                    Some(all)
                },
            },
        }
    }
}

/// The value of a star import: none for `Nothing`, the names, or `Some(None)` when dynamic.
pub open spec fn star_view(s: StarImport) -> Option<Option<Seq<Seq<char>>>> {
    match s {
        StarImport::Nothing => None,
        StarImport::Members(v) => Some(Some(crate::order::texts(v@))),
        StarImport::Dynamic => Some(None),
    }
}

/// Decides what `from package import *` at `statement_start` in `importer`
/// brings, given whether the base is a package, its initializer, and where and
/// how that initializer assigns `__all__`.
pub fn star_import(
    importer: &str,
    statement_start: usize,
    is_package: bool,
    initializer: Option<&str>,
    all_position: Option<usize>,
    all: Option<&Vec<String>>,
) -> (r: StarImport)
    ensures
        star_view(r) == star_import_of(
            importer@,
            statement_start as int,
            is_package,
            match initializer { Some(i) => Some(i@), None => None },
            match all_position { Some(p) => Some(p as int), None => None },
            match all { Some(v) => Some(crate::order::texts(v@)), None => None },
        ),
{
    if !is_package {
        return StarImport::Nothing;
    }
    let init = match initializer {
        Some(i) => i,
        None => {
            return StarImport::Nothing;
        },
    };
    let position = match all_position {
        Some(p) => p,
        None => {
            return StarImport::Nothing;
        },
    };
    if crate::text_util::str_eq(init, importer) && position >= statement_start {
        return StarImport::Nothing;
    }
    match all {
        Some(names) => StarImport::Members(crate::simulation::copy_texts(names)),
        None => StarImport::Dynamic,
    }
}

} // verus!
