//! Syntax trees held as plain values: each node's kind, the field it fills in its
//! parent, its text, and its children in source order.
use vstd::prelude::*;
use crate::text_util::str_eq;

verus! {

/// A node of a concrete syntax tree.
#[derive(Debug)]
pub struct SyntaxNode {
    pub kind: String,
    pub field: Option<String>,
    pub text: String,
    pub named: bool,
    pub has_error: bool,
    /// The byte offset in the source where the node starts.
    pub start: usize,
    pub children: Vec<SyntaxNode>,
}

/// The mathematical value of a [`SyntaxNode`].
pub struct SyntaxView {
    pub kind: Seq<char>,
    pub field: Option<Seq<char>>,
    pub text: Seq<char>,
    pub named: bool,
    pub has_error: bool,
    pub start: int,
    pub children: Seq<SyntaxView>,
}

/// The values of a list of nodes.
pub open spec fn views_of(nodes: Seq<SyntaxNode>) -> Seq<SyntaxView>
    decreases nodes,
{
    if nodes.len() == 0 {
        Seq::empty()
    } else {
        views_of(nodes.drop_last()).push(syntax_view(nodes.last()))
    }
}

/// The value of a node.
pub open spec fn syntax_view(n: SyntaxNode) -> SyntaxView
    decreases n,
{
    SyntaxView {
        kind: n.kind@,
        field: match n.field {
            Some(f) => Some(f@),
            None => None,
        },
        text: n.text@,
        named: n.named,
        has_error: n.has_error,
        start: n.start as int,
        children: views_of(n.children@),
    }
}

impl View for SyntaxNode {
    type V = SyntaxView;

    open spec fn view(&self) -> SyntaxView {
        syntax_view(*self)
    }
}

/// The syntax tree that the tree-sitter Rust grammar gives for `source`.
pub uninterp spec fn rust_syntax(source: Seq<char>) -> SyntaxView;

#[verifier::external_type_specification]
#[verifier::external_body]
pub struct ExTreeNode<'a>(tree_sitter::Node<'a>);

/// Copies one tree-sitter node into plain values: kind, the field it fills,
/// text, whether it is named or holds an error, its start offset in bytes, and
/// the given children. Nothing is claimed of the copy.
#[verifier::external_body]
fn plain_node(node: tree_sitter::Node<'_>, field: Option<&str>, children: Vec<SyntaxNode>, source: &str) -> SyntaxNode {
    let text = node.utf8_text(source.as_bytes()).unwrap_or("").to_string();
    let (kind, field) = (node.kind().to_string(), field.map(String::from));
    let (named, has_error, start) = (node.is_named(), node.has_error(), node.start_byte());
    SyntaxNode { kind, field, text, named, has_error, start, children }
}

/// Copies a tree-sitter tree into plain values, stepping through it with a
/// `TreeCursor` (`goto_first_child`, `goto_next_sibling`, `goto_parent`,
/// `field_name`) and keeping the nodes still open on a stack of its own, so that
/// neither a deep nor a wide tree costs more than one visit per node. Nothing is
/// claimed of the copy.
#[verifier::external_body]
fn copy_tree(root: tree_sitter::Node<'_>, source: &str) -> Option<SyntaxNode> {
    let (mut cursor, mut open) = (root.walk(), vec![(root, None, Vec::new())]);
    loop {
        if cursor.goto_first_child() { open.push((cursor.node(), cursor.field_name(), Vec::new())); continue; }
        loop {
            let (node, field, children) = open.pop()?;
            let made = plain_node(node, field, children, source);
            let Some(up) = open.last_mut() else { return Some(made) };
            up.2.push(made);
            if cursor.goto_next_sibling() { open.push((cursor.node(), cursor.field_name(), Vec::new())); break; }
            cursor.goto_parent();
        }
    }
}

/// Calls `tree_sitter::Parser::parse` with the Rust grammar on `source`;
/// claims that a tree comes back and that it is the one named `rust_syntax` of the
/// source. The grammar's ABI version lies within the range that
/// `Parser::set_language` accepts, and `parse` gives no tree only to a parser
/// without a language.
#[verifier::external_body]
pub(crate) fn parse_rust(source: &str) -> (r: Option<SyntaxNode>)
    ensures
        r is Some,
        r matches Some(t) ==> t@ == rust_syntax(source@),
{
    let mut parser = tree_sitter::Parser::new();
    parser.set_language(&tree_sitter_rust::LANGUAGE.into()).ok()?;
    let tree = parser.parse(source, None)?;
    copy_tree(tree.root_node(), source)
}

/// The syntax tree that the tree-sitter JavaScript grammar gives for `source`.
pub uninterp spec fn javascript_syntax(source: Seq<char>) -> SyntaxView;

/// Calls `tree_sitter::Parser::parse` with the JavaScript grammar on `source`;
/// claims that a tree comes back and that it is the one named `javascript_syntax` of the
/// source. The grammar's ABI version lies within the range that
/// `Parser::set_language` accepts, and `parse` gives no tree only to a parser
/// without a language.
#[verifier::external_body]
pub(crate) fn parse_javascript(source: &str) -> (r: Option<SyntaxNode>)
    ensures
        r is Some,
        r matches Some(t) ==> t@ == javascript_syntax(source@),
{
    let mut parser = tree_sitter::Parser::new();
    parser.set_language(&tree_sitter_javascript::LANGUAGE.into()).ok()?;
    let tree = parser.parse(source, None)?;
    copy_tree(tree.root_node(), source)
}

/// The syntax tree that the tree-sitter TypeScript grammar gives for `source`.
pub uninterp spec fn typescript_syntax(source: Seq<char>) -> SyntaxView;

/// Calls `tree_sitter::Parser::parse` with the TypeScript grammar on `source`;
/// claims that a tree comes back and that it is the one named `typescript_syntax` of the
/// source. The grammar's ABI version lies within the range that
/// `Parser::set_language` accepts, and `parse` gives no tree only to a parser
/// without a language.
#[verifier::external_body]
pub(crate) fn parse_typescript(source: &str) -> (r: Option<SyntaxNode>)
    ensures
        r is Some,
        r matches Some(t) ==> t@ == typescript_syntax(source@),
{
    let mut parser = tree_sitter::Parser::new();
    parser.set_language(&tree_sitter_typescript::LANGUAGE_TYPESCRIPT.into()).ok()?;
    let tree = parser.parse(source, None)?;
    copy_tree(tree.root_node(), source)
}

/// The syntax tree that the tree-sitter TSX grammar gives for `source`.
pub uninterp spec fn tsx_syntax(source: Seq<char>) -> SyntaxView;

/// Calls `tree_sitter::Parser::parse` with the TSX grammar on `source`;
/// claims that a tree comes back and that it is the one named `tsx_syntax` of the
/// source. The grammar's ABI version lies within the range that
/// `Parser::set_language` accepts, and `parse` gives no tree only to a parser
/// without a language.
#[verifier::external_body]
pub(crate) fn parse_tsx(source: &str) -> (r: Option<SyntaxNode>)
    ensures
        r is Some,
        r matches Some(t) ==> t@ == tsx_syntax(source@),
{
    let mut parser = tree_sitter::Parser::new();
    parser.set_language(&tree_sitter_typescript::LANGUAGE_TSX.into()).ok()?;
    let tree = parser.parse(source, None)?;
    copy_tree(tree.root_node(), source)
}

/// The syntax tree that the tree-sitter Go grammar gives for `source`.
pub uninterp spec fn go_syntax(source: Seq<char>) -> SyntaxView;

/// Calls `tree_sitter::Parser::parse` with the Go grammar on `source`;
/// claims that a tree comes back and that it is the one named `go_syntax` of the
/// source. The grammar's ABI version lies within the range that
/// `Parser::set_language` accepts, and `parse` gives no tree only to a parser
/// without a language.
#[verifier::external_body]
pub(crate) fn parse_go(source: &str) -> (r: Option<SyntaxNode>)
    ensures
        r is Some,
        r matches Some(t) ==> t@ == go_syntax(source@),
{
    let mut parser = tree_sitter::Parser::new();
    parser.set_language(&tree_sitter_go::LANGUAGE.into()).ok()?;
    let tree = parser.parse(source, None)?;
    copy_tree(tree.root_node(), source)
}

/// The syntax tree that the tree-sitter C grammar gives for `source`.
pub uninterp spec fn c_syntax(source: Seq<char>) -> SyntaxView;

/// Calls `tree_sitter::Parser::parse` with the C grammar on `source`;
/// claims that a tree comes back and that it is the one named `c_syntax` of the
/// source. The grammar's ABI version lies within the range that
/// `Parser::set_language` accepts, and `parse` gives no tree only to a parser
/// without a language.
#[verifier::external_body]
pub(crate) fn parse_c(source: &str) -> (r: Option<SyntaxNode>)
    ensures
        r is Some,
        r matches Some(t) ==> t@ == c_syntax(source@),
{
    let mut parser = tree_sitter::Parser::new();
    parser.set_language(&tree_sitter_c::LANGUAGE.into()).ok()?;
    let tree = parser.parse(source, None)?;
    copy_tree(tree.root_node(), source)
}

/// The syntax tree that the tree-sitter C++ grammar gives for `source`.
pub uninterp spec fn cpp_syntax(source: Seq<char>) -> SyntaxView;

/// Calls `tree_sitter::Parser::parse` with the C++ grammar on `source`;
/// claims that a tree comes back and that it is the one named `cpp_syntax` of the
/// source. The grammar's ABI version lies within the range that
/// `Parser::set_language` accepts, and `parse` gives no tree only to a parser
/// without a language.
#[verifier::external_body]
pub(crate) fn parse_cpp(source: &str) -> (r: Option<SyntaxNode>)
    ensures
        r is Some,
        r matches Some(t) ==> t@ == cpp_syntax(source@),
{
    let mut parser = tree_sitter::Parser::new();
    parser.set_language(&tree_sitter_cpp::LANGUAGE.into()).ok()?;
    let tree = parser.parse(source, None)?;
    copy_tree(tree.root_node(), source)
}

/// The syntax tree that the tree-sitter Python grammar gives for `source`.
pub uninterp spec fn python_syntax(source: Seq<char>) -> SyntaxView;

/// Calls `tree_sitter::Parser::parse` with the Python grammar on `source`;
/// claims that a tree comes back and that it is the one named `python_syntax` of the
/// source. The grammar's ABI version lies within the range that
/// `Parser::set_language` accepts, and `parse` gives no tree only to a parser
/// without a language.
#[verifier::external_body]
pub(crate) fn parse_python(source: &str) -> (r: Option<SyntaxNode>)
    ensures
        r is Some,
        r matches Some(t) ==> t@ == python_syntax(source@),
{
    let mut parser = tree_sitter::Parser::new();
    parser.set_language(&tree_sitter_python::LANGUAGE.into()).ok()?;
    let tree = parser.parse(source, None)?;
    copy_tree(tree.root_node(), source)
}

/// The syntax tree that the tree-sitter Java grammar gives for `source`.
pub uninterp spec fn java_syntax(source: Seq<char>) -> SyntaxView;

/// Calls `tree_sitter::Parser::parse` with the Java grammar on `source`;
/// claims that a tree comes back and that it is the one named `java_syntax` of the
/// source. The grammar's ABI version lies within the range that
/// `Parser::set_language` accepts, and `parse` gives no tree only to a parser
/// without a language.
#[verifier::external_body]
pub(crate) fn parse_java(source: &str) -> (r: Option<SyntaxNode>)
    ensures
        r is Some,
        r matches Some(t) ==> t@ == java_syntax(source@),
{
    let mut parser = tree_sitter::Parser::new();
    parser.set_language(&tree_sitter_java::LANGUAGE.into()).ok()?;
    let tree = parser.parse(source, None)?;
    copy_tree(tree.root_node(), source)
}

/// The syntax tree that the tree-sitter C# grammar gives for `source`.
pub uninterp spec fn csharp_syntax(source: Seq<char>) -> SyntaxView;

/// Calls `tree_sitter::Parser::parse` with the C# grammar on `source`;
/// claims that a tree comes back and that it is the one named `csharp_syntax` of the
/// source. The grammar's ABI version lies within the range that
/// `Parser::set_language` accepts, and `parse` gives no tree only to a parser
/// without a language.
#[verifier::external_body]
pub(crate) fn parse_csharp(source: &str) -> (r: Option<SyntaxNode>)
    ensures
        r is Some,
        r matches Some(t) ==> t@ == csharp_syntax(source@),
{
    let mut parser = tree_sitter::Parser::new();
    parser.set_language(&tree_sitter_c_sharp::LANGUAGE.into()).ok()?;
    let tree = parser.parse(source, None)?;
    copy_tree(tree.root_node(), source)
}

/// The values of a list of nodes has its length, and each entry is the node's value.
pub proof fn lemma_views_of(nodes: Seq<SyntaxNode>)
    ensures
        views_of(nodes).len() == nodes.len(),
        forall|i: int| 0 <= i < nodes.len() ==> #[trigger] views_of(nodes)[i] == syntax_view(nodes[i]),
    decreases nodes.len(),
{
    if nodes.len() > 0 {
        lemma_views_of(nodes.drop_last());
    }
}

/// The position of the first node from `k` on that fills the field `name`.
pub open spec fn field_from(children: Seq<SyntaxView>, name: Seq<char>, k: int) -> Option<int>
    decreases children.len() - k,
{
    if k < 0 || k >= children.len() {
        None
    } else if children[k].field == Some(name) {
        Some(k)
    } else {
        field_from(children, name, k + 1)
    }
}

/// The position of the first child that fills the field `name`.
pub open spec fn field_of(children: Seq<SyntaxView>, name: Seq<char>) -> Option<int> {
    field_from(children, name, 0)
}

/// A position that `field_from` gives lies among the children.
pub proof fn lemma_field_from(children: Seq<SyntaxView>, name: Seq<char>, k: int)
    ensures
        field_from(children, name, k) matches Some(i) ==> k <= i < children.len(),
    decreases children.len() - k,
{
    if 0 <= k < children.len() && children[k].field != Some(name) {
        lemma_field_from(children, name, k + 1);
    }
}

impl SyntaxNode {
    /// The position of the first child that fills the field `name`.
    pub fn field_child(&self, name: &str) -> (r: Option<usize>)
        ensures
            match r {
                Some(i) => field_of(self@.children, name@) == Some(i as int) && i < self.children@.len(),
                None => field_of(self@.children, name@) is None,
            },
    {
        proof {
            lemma_views_of(self.children@);
        }
        let mut i: usize = 0;
        while i < self.children.len()
            invariant
                i <= self.children@.len(),
                views_of(self.children@).len() == self.children@.len(),
                self@.children == views_of(self.children@),
                field_of(self@.children, name@) == field_from(self@.children, name@, i as int),
                forall|j: int| 0 <= j < self.children@.len() ==> #[trigger] views_of(self.children@)[j] == syntax_view(self.children@[j]),
            decreases self.children@.len() - i,
        {
            let hit = match &self.children[i].field {
                Some(f) => str_eq(f.as_str(), name),
                None => false,
            };
            if hit {
                return Some(i);
            }
            i += 1;
        }
        None
    }

    /// Whether the node is of kind `kind`.
    pub fn is_kind(&self, kind: &str) -> (r: bool)
        ensures
            r == (self@.kind == kind@),
    {
        str_eq(self.kind.as_str(), kind)
    }
}

/// The number of nodes in a tree.
pub open spec fn tree_size(n: SyntaxView) -> nat
    decreases n,
{
    1 + forest_size(n.children)
}

/// The number of nodes in a list of trees.
pub open spec fn forest_size(f: Seq<SyntaxView>) -> nat
    decreases f,
{
    if f.len() == 0 {
        0
    } else {
        forest_size(f.drop_last()) + tree_size(f.last())
    }
}

/// The sizes of two lists of trees add up.
pub proof fn lemma_forest_concat(a: Seq<SyntaxView>, b: Seq<SyntaxView>)
    ensures
        forest_size(a + b) == forest_size(a) + forest_size(b),
    decreases b.len(),
{
    if b.len() == 0 {
        assert(a + b =~= a);
    } else {
        lemma_forest_concat(a, b.drop_last());
        assert((a + b).drop_last() =~= a + b.drop_last());
    }
}

/// The values of two lists of nodes, one after the other.
pub proof fn lemma_views_concat(a: Seq<SyntaxNode>, b: Seq<SyntaxNode>)
    ensures
        views_of(a + b) == views_of(a) + views_of(b),
{
    lemma_views_of(a);
    lemma_views_of(b);
    lemma_views_of(a + b);
    assert(views_of(a + b) =~= views_of(a) + views_of(b));
}

/// Takes a tree apart one node at a time, so that a deep tree is released
/// without a deep chain of calls.
pub fn dispose(tree: SyntaxNode) {
    let mut stack: Vec<SyntaxNode> = Vec::new();
    stack.push(tree);
    while stack.len() > 0
        decreases forest_size(views_of(stack@)),
    {
        let ghost before = stack@;
        let popped = stack.pop();
        if let Some(mut node) = popped {
            let ghost whole = node;
            let mut kids: Vec<SyntaxNode> = Vec::new();
            std::mem::swap(&mut node.children, &mut kids);
            let ghost rest = stack@;
            let ghost moved = kids@;
            stack.append(&mut kids);
            proof {
                assert(before.drop_last() =~= rest);
                assert(before.last() == whole);
                let vb = views_of(before);
                assert(vb == views_of(rest).push(syntax_view(whole)));
                assert(vb.drop_last() =~= views_of(rest));
                assert(vb.last() == syntax_view(whole));
                assert(forest_size(vb) == forest_size(views_of(rest)) + tree_size(syntax_view(whole)));
                assert(moved == whole.children@);
                assert(syntax_view(whole).children == views_of(moved));
                lemma_views_concat(rest, moved);
                lemma_forest_concat(views_of(rest), views_of(moved));
            }
        }
    }
}

/// The values of a stack of nodes.
pub open spec fn refs_view(st: Seq<&SyntaxNode>) -> Seq<SyntaxView> {
    st.map_values(|r: &SyntaxNode| syntax_view(*r))
}

} // verus!
