//! The walk over one C or C++ syntax tree for its `#include` lines.
use vstd::prelude::*;
use crate::syntax::{
    refs_view,
    c_syntax, cpp_syntax, field_of, lemma_views_of, parse_c, parse_cpp, syntax_view, views_of,
    SyntaxNode, SyntaxView,
};
use crate::text_util::{chars_of, has_suffix, str_eq, string_of, trimmed, vec_slice, vec_trim};

verus! {

/// How many characters of an include that is not a plain path are kept.
pub const MAX_INCLUDE_CHARS: usize = 160;

/// One include line found in a C or C++ file.
#[derive(Debug, PartialEq, Eq)]
pub enum IncludeSite {
    /// `#include "path"` (quoted) or `#include <path>`.
    Path { specifier: String, quoted: bool },
    /// An include whose target a macro computes; its first characters.
    Computed { text: String },
    /// An `#include_next` line; its first characters.
    Next { text: String },
}

/// The mathematical value of an [`IncludeSite`].
pub enum IncludeSiteView {
    Path(Seq<char>, bool),
    Computed(Seq<char>),
    Next(Seq<char>),
}

/// The value of a site.
pub open spec fn site_view(s: IncludeSite) -> IncludeSiteView {
    match s {
        IncludeSite::Path { specifier, quoted } => IncludeSiteView::Path(specifier@, quoted),
        IncludeSite::Computed { text } => IncludeSiteView::Computed(text@),
        IncludeSite::Next { text } => IncludeSiteView::Next(text@),
    }
}

/// The values of a list of sites.
pub open spec fn sites_view(s: Seq<IncludeSite>) -> Seq<IncludeSiteView> {
    s.map_values(|x: IncludeSite| site_view(x))
}

/// The first `MAX_INCLUDE_CHARS` characters of `s`.
pub open spec fn head(s: Seq<char>) -> Seq<char> {
    s.take(if s.len() < MAX_INCLUDE_CHARS { s.len() as int } else { MAX_INCLUDE_CHARS as int })
}

/// `raw` is of kind `kind` and enclosed in `open` and `close`.
pub open spec fn enclosed(kind: Seq<char>, raw: Seq<char>, k: Seq<char>, open: char, close: char) -> bool {
    kind == k && raw.len() >= 2 && raw[0] == open && raw.last() == close
}

/// The include that a `preproc_include` path node writes.
pub open spec fn path_site(p: SyntaxView) -> IncludeSiteView {
    let quoted = enclosed(p.kind, p.text, "string_literal"@, '"', '"');
    let angled = enclosed(p.kind, p.text, "system_lib_string"@, '<', '>');
    if quoted || angled {
        IncludeSiteView::Path(p.text.subrange(1, p.text.len() - 1), quoted)
    } else {
        IncludeSiteView::Computed(head(p.text))
    }
}

/// The include that one node itself writes, if any.
pub open spec fn own_sites(n: SyntaxView) -> Seq<IncludeSiteView> {
    if n.kind == "preproc_include"@ {
        match field_of(n.children, "path"@) {
            Some(i) => if 0 <= i < n.children.len() {
                seq![path_site(n.children[i])]
            } else {
                Seq::empty()
            },
            None => Seq::empty(),
        }
    } else if n.kind == "preproc_call"@ {
        match field_of(n.children, "directive"@) {
            Some(i) => if 0 <= i < n.children.len() && trimmed(n.children[i].text) == "#include_next"@ {
                seq![IncludeSiteView::Next(head(trimmed(n.text)))]
            } else {
                Seq::empty()
            },
            None => Seq::empty(),
        }
    } else {
        Seq::empty()
    }
}

/// The includes of a tree, node before children, in source order.
pub open spec fn include_sites(n: SyntaxView) -> Seq<IncludeSiteView>
    decreases n,
{
    own_sites(n) + include_sites_list(n.children)
}

/// The includes of a list of trees, in order.
pub open spec fn include_sites_list(children: Seq<SyntaxView>) -> Seq<IncludeSiteView>
    decreases children,
{
    if children.len() == 0 {
        Seq::empty()
    } else {
        include_sites_list(children.drop_last()) + include_sites(children.last())
    }
}

/// The first `MAX_INCLUDE_CHARS` characters.
fn head_of(cs: &Vec<char>) -> (r: String)
    ensures
        r@ == head(cs@),
{
    let keep = if cs.len() < MAX_INCLUDE_CHARS { cs.len() } else { MAX_INCLUDE_CHARS };
    let r = string_of(&vec_slice(cs, 0, keep));
    assert(r@ =~= head(cs@));
    r
}

/// The include that a path node writes.
fn path_site_of(p: &SyntaxNode) -> (r: IncludeSite)
    ensures
        site_view(r) == path_site(p@),
{
    let raw = chars_of(p.text.as_str());
    let n = raw.len();
    let quoted = p.is_kind("string_literal") && n >= 2 && raw[0] == '"' && raw[n - 1] == '"';
    let angled = p.is_kind("system_lib_string") && n >= 2 && raw[0] == '<' && raw[n - 1] == '>';
    if quoted || angled {
        let s = string_of(&vec_slice(&raw, 1, n - 1));
        IncludeSite::Path { specifier: s, quoted }
    } else {
        IncludeSite::Computed { text: head_of(&raw) }
    }
}

/// Appends the include that one node itself writes.
fn push_own_sites(out: &mut Vec<IncludeSite>, node: &SyntaxNode)
    ensures
        sites_view(final(out)@) == sites_view(old(out)@) + own_sites(node@),
{
    proof {
        lemma_views_of(node.children@);
    }
    if node.is_kind("preproc_include") {
        if let Some(i) = node.field_child("path") {
            let s = path_site_of(&node.children[i]);
            let ghost v = site_view(s);
            out.push(s);
            assert(sites_view(out@) =~= sites_view(old(out)@) + seq![v]);
            return;
        }
    } else if node.is_kind("preproc_call") {
        if let Some(i) = node.field_child("directive") {
            let directive = string_of(&vec_trim(&chars_of(node.children[i].text.as_str())));
            if str_eq(directive.as_str(), "#include_next") {
                let s = IncludeSite::Next { text: head_of(&vec_trim(&chars_of(node.text.as_str()))) };
                let ghost v = site_view(s);
                out.push(s);
                assert(sites_view(out@) =~= sites_view(old(out)@) + seq![v]);
                return;
            }
        }
    }
    assert(sites_view(out@) =~= sites_view(old(out)@) + Seq::empty());
}

/// The includes of the trees on a stack, the top one first.
pub open spec fn stack_sites(st: Seq<SyntaxView>) -> Seq<IncludeSiteView>
    decreases st.len(),
{
    if st.len() == 0 {
        Seq::empty()
    } else {
        include_sites(st.last()) + stack_sites(st.drop_last())
    }
}

/// The includes of two lists of trees, one after the other.
pub proof fn lemma_sites_concat(a: Seq<SyntaxView>, b: Seq<SyntaxView>)
    ensures
        include_sites_list(a + b) == include_sites_list(a) + include_sites_list(b),
    decreases b.len(),
{
    if b.len() == 0 {
        assert(a + b =~= a);
        assert(include_sites_list(a) + Seq::empty() =~= include_sites_list(a));
    } else {
        lemma_sites_concat(a, b.drop_last());
        assert((a + b).drop_last() =~= a + b.drop_last());
        assert(include_sites_list(a + b) =~= include_sites_list(a) + include_sites_list(b));
    }
}

/// Appends the includes of a tree, node before children, keeping the nodes
/// still to visit on a stack rather than recursing.
fn push_sites(out: &mut Vec<IncludeSite>, root: &SyntaxNode)
    ensures
        sites_view(final(out)@) == sites_view(old(out)@) + include_sites(root@),
{
    let mut stack: Vec<&SyntaxNode> = Vec::new();
    stack.push(root);
    proof {
        assert(refs_view(stack@) =~= seq![root@]);
        assert(seq![root@].drop_last() =~= Seq::<SyntaxView>::empty());
        assert(seq![root@].last() == root@);
        assert(stack_sites(Seq::<SyntaxView>::empty()) =~= Seq::empty());
        assert(include_sites(root@) + Seq::empty() =~= include_sites(root@));
        assert(stack_sites(refs_view(stack@)) =~= include_sites(root@));
    }
    while stack.len() > 0
        invariant
            sites_view(out@) + stack_sites(refs_view(stack@)) == sites_view(old(out)@) + include_sites(root@),
        decreases crate::syntax::forest_size(refs_view(stack@)),
    {
        let ghost before = stack@;
        let ghost start = sites_view(out@);
        let node = stack.pop().unwrap();
        let ghost rest = stack@;
        proof {
            lemma_views_of(node.children@);
            assert(before.drop_last() =~= rest);
            assert(refs_view(before).drop_last() =~= refs_view(rest));
            assert(refs_view(before).last() == node@);
        }
        push_own_sites(out, node);
        let ghost kids = node@.children;
        let mut k: usize = node.children.len();
        assert(kids.subrange(k as int, kids.len() as int) =~= Seq::<SyntaxView>::empty());
        assert(refs_view(stack@) =~= refs_view(rest) + Seq::empty());
        while k > 0
            invariant
                k <= node.children@.len(),
                kids == node@.children,
                kids == views_of(node.children@),
                kids.len() == node.children@.len(),
                forall|j: int| 0 <= j < node.children@.len() ==> #[trigger] views_of(node.children@)[j] == syntax_view(node.children@[j]),
                stack_sites(refs_view(stack@)) == include_sites_list(kids.subrange(k as int, kids.len() as int)) + stack_sites(refs_view(rest)),
                crate::syntax::forest_size(refs_view(stack@)) == crate::syntax::forest_size(refs_view(rest)) + crate::syntax::forest_size(kids.subrange(k as int, kids.len() as int)),
            decreases k,
        {
            k -= 1;
            let ghost st = stack@;
            stack.push(&node.children[k]);
            proof {
                let c = kids[k as int];
                let tail = kids.subrange(k + 1, kids.len() as int);
                assert(refs_view(stack@) =~= refs_view(st).push(c));
                assert(refs_view(stack@).drop_last() =~= refs_view(st));
                assert(kids.subrange(k as int, kids.len() as int) =~= seq![c] + tail);
                lemma_sites_concat(seq![c], tail);
                assert(seq![c].drop_last() =~= Seq::<SyntaxView>::empty());
                assert(seq![c].last() == c);
                assert(include_sites_list(Seq::<SyntaxView>::empty()) =~= Seq::empty());
                assert(include_sites_list(seq![c]) =~= include_sites(c));
                crate::syntax::lemma_forest_concat(seq![c], tail);
                assert(crate::syntax::forest_size(Seq::<SyntaxView>::empty()) == 0);
                assert(crate::syntax::forest_size(seq![c]) == crate::syntax::tree_size(c));
            }
        }
        proof {
            assert(kids.subrange(0, kids.len() as int) =~= kids);
            assert(include_sites(node@) == own_sites(node@) + include_sites_list(kids));
            let rb = refs_view(before);
            assert(crate::syntax::forest_size(rb) == crate::syntax::forest_size(refs_view(rest)) + crate::syntax::tree_size(node@));
            assert(crate::syntax::tree_size(node@) == 1 + crate::syntax::forest_size(kids));
            assert(stack_sites(rb) == include_sites(node@) + stack_sites(refs_view(rest)));
            assert(sites_view(out@) + stack_sites(refs_view(stack@)) =~= start + stack_sites(rb));
        }
    }
    assert(refs_view(stack@) =~= Seq::<SyntaxView>::empty());
}

/// The include lines of a C or C++ syntax tree, in source order.
pub fn includes_of(tree: &SyntaxNode) -> (r: Vec<IncludeSite>)
    ensures
        sites_view(r@) == include_sites(tree@),
{
    let mut out: Vec<IncludeSite> = Vec::new();
    assert(sites_view(out@) =~= Seq::empty());
    push_sites(&mut out, tree);
    assert(sites_view(out@) =~= include_sites(tree@));
    out
}

/// Whether a file is parsed as C: a `.c` file not named `.C`, or a header in a
/// project without C++ sources.
pub open spec fn parsed_as_c(importer: Seq<char>, extension: Seq<char>, has_cpp: bool) -> bool {
    (extension == "c"@ && !has_suffix(importer, seq!['.', 'C'])) || (extension == "h"@ && !has_cpp)
}

/// The syntax tree of a C or C++ file, parsed as C or C++ by `parsed_as_c`;
/// the parser always gives one.
pub fn parse_c_family(importer: &str, extension: &str, has_cpp: bool, source: &str) -> (r: Result<SyntaxNode, &'static str>)
    ensures
        r matches Ok(t) ==> t@ == if parsed_as_c(importer@, extension@, has_cpp) {
            c_syntax(source@)
        } else {
            cpp_syntax(source@)
        },
        r is Ok,
{
    let upper = vec!['.', 'C'];
    assert(upper@ =~= seq!['.', 'C']);
    let as_c = (str_eq(extension, "c") && !crate::text_util::vec_has_suffix(&chars_of(importer), &upper))
        || (str_eq(extension, "h") && !has_cpp);
    let tree = if as_c {
        parse_c(source)
    } else {
        parse_cpp(source)
    };
    match tree {
        Some(t) => Ok(t),
        None => Err("解析被中止。"),
    }
}

} // verus!
