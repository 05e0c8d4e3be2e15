//! The walk over one Rust syntax tree: which items declare names, which `mod`
//! items open modules (inline or in other files), and which `use` paths are read.
use vstd::prelude::*;
use crate::languages::rust::{
    attribute_view, children_dir_of, inline_directory, inline_directory_of, module_file,
    module_file_of, read_path_attribute, path_attribute_of,
};
use crate::model::FileSet;
use crate::order::texts;
use crate::paths::parent;
use crate::simulation::copy_texts;
use crate::syntax::{
    forest_size, refs_view, tree_size,parse_rust, rust_syntax, field_of, lemma_views_of, syntax_view, views_of, SyntaxNode, SyntaxView};
use crate::text_util::{before_last, chars_of, string_of, vec_concat, vec_slice};

verus! {

/// Where a walk stands: the file, the crate root it was reached from, the module
/// path inside that crate, and the directories that `mod` items are looked up in.
#[derive(Debug)]
pub struct Location {
    pub file: String,
    pub root: String,
    pub scope: Vec<String>,
    pub children_dir: String,
    pub attribute_dir: String,
}

/// The mathematical value of a [`Location`].
pub struct LocationView {
    pub file: Seq<char>,
    pub root: Seq<char>,
    pub scope: Seq<Seq<char>>,
    pub children_dir: Seq<char>,
    pub attribute_dir: Seq<char>,
}

impl View for Location {
    type V = LocationView;

    open spec fn view(&self) -> LocationView {
        LocationView {
            file: self.file@,
            root: self.root@,
            scope: texts(self.scope@),
            children_dir: self.children_dir@,
            attribute_dir: self.attribute_dir@,
        }
    }
}

/// What walking a body found, in the order it was found. The file and the crate
/// root are those of the walked location.
#[derive(Debug)]
pub enum WalkEvent {
    /// An inline module at `scope` lives in the walked file.
    Register { scope: Vec<String> },
    /// The walked file depends on the module file `target`.
    Import { specifier: String, target: String },
    /// A `mod` item whose file or directory could not be settled.
    Unresolved { specifier: String, reason: &'static str },
    /// The module file at `location` is to be walked next.
    WalkFile { location: Location },
    /// A `use` path read inside the module at `scope`.
    Use { scope: Vec<String>, path: Vec<String> },
    /// A name that the module at `scope` defines.
    Symbol { scope: Vec<String>, name: String },
}

/// The mathematical value of a [`WalkEvent`].
pub enum WalkEventView {
    Register(Seq<Seq<char>>),
    Import(Seq<char>, Seq<char>),
    Unresolved(Seq<char>, Seq<char>),
    WalkFile(LocationView),
    Use(Seq<Seq<char>>, Seq<Seq<char>>),
    Symbol(Seq<Seq<char>>, Seq<char>),
}

/// The value of an event.
pub open spec fn event_view(e: WalkEvent) -> WalkEventView {
    match e {
        WalkEvent::Register { scope } => WalkEventView::Register(texts(scope@)),
        WalkEvent::Import { specifier, target } => WalkEventView::Import(specifier@, target@),
        WalkEvent::Unresolved { specifier, reason } => WalkEventView::Unresolved(specifier@, reason@),
        WalkEvent::WalkFile { location } => WalkEventView::WalkFile(location@),
        WalkEvent::Use { scope, path } => WalkEventView::Use(texts(scope@), texts(path@)),
        WalkEvent::Symbol { scope, name } => WalkEventView::Symbol(texts(scope@), name@),
    }
}

/// The values of a list of events.
pub open spec fn events_view(s: Seq<WalkEvent>) -> Seq<WalkEventView> {
    s.map_values(|e: WalkEvent| event_view(e))
}

/// The values of a list of paths.
pub open spec fn paths_view(s: Seq<Vec<String>>) -> Seq<Seq<Seq<char>>> {
    s.map_values(|p: Vec<String>| texts(p@))
}

/// `s` without any number of leading `r#`.
pub open spec fn raw_stripped(s: Seq<char>) -> Seq<char>
    decreases s.len(),
{
    if s.len() >= 2 && s[0] == 'r' && s[1] == '#' {
        raw_stripped(s.subrange(2, s.len() as int))
    } else {
        s
    }
}

/// Removes every leading `r#` from a name.
pub fn strip_raw(s: &str) -> (r: String)
    ensures
        r@ == raw_stripped(s@),
{
    let cs = chars_of(s);
    let n = cs.len();
    let mut i: usize = 0;
    assert(s@.subrange(0, n as int) =~= s@);
    while n - i > 1 && cs[i] == 'r' && cs[i + 1] == '#'
        invariant
            n == cs@.len(),
            cs@ == s@,
            i <= n,
            raw_stripped(s@) == raw_stripped(s@.subrange(i as int, n as int)),
        decreases n - i,
    {
        proof {
            let t = s@.subrange(i as int, n as int);
            assert(t.subrange(2, t.len() as int) =~= s@.subrange(i + 2, n as int));
        }
        i += 2;
    }
    let r = string_of(&vec_slice(&cs, i, n));
    proof {
        let t = s@.subrange(i as int, n as int);
        assert(r@ =~= t);
    }
    r
}

/// A node kind that is a single path segment.
pub open spec fn segment_kind(k: Seq<char>) -> bool {
    k == "identifier"@ || k == "type_identifier"@ || k == "crate"@ || k == "self"@ || k == "super"@
}

/// The path segments a path node spells, `r#` removed.
pub open spec fn segments_of(n: SyntaxView) -> Seq<Seq<char>>
    decreases n,
{
    if segment_kind(n.kind) {
        seq![raw_stripped(n.text)]
    } else {
        let head = match field_of(n.children, "path"@) {
            Some(i) => if 0 <= i < n.children.len() {
                segments_of(n.children[i])
            } else {
                Seq::empty()
            },
            None => Seq::empty(),
        };
        let tail = match field_of(n.children, "name"@) {
            Some(i) => if 0 <= i < n.children.len() {
                segments_of(n.children[i])
            } else {
                Seq::empty()
            },
            None => Seq::empty(),
        };
        head + tail
    }
}

/// Appends `more` to `out`.
pub(crate) fn append_texts(out: &mut Vec<String>, more: &Vec<String>)
    ensures
        texts(final(out)@) == texts(old(out)@) + texts(more@),
{
    let mut i: usize = 0;
    while i < more.len()
        invariant
            i <= more@.len(),
            out@ == old(out)@ + more@.subrange(0, i as int),
        decreases more@.len() - i,
    {
        out.push(more[i].clone());
        i += 1;
        assert(out@ =~= old(out)@ + more@.subrange(0, i as int));
    }
    assert(more@.subrange(0, more@.len() as int) =~= more@);
    assert(texts(out@) =~= texts(old(out)@) + texts(more@));
}

/// The segments of a path node.
pub fn path_segments(node: &SyntaxNode) -> (r: Vec<String>)
    ensures
        texts(r@) == segments_of(node@),
    decreases node,
{
    proof {
        lemma_views_of(node.children@);
    }
    if node.is_kind("identifier") || node.is_kind("type_identifier") || node.is_kind("crate")
        || node.is_kind("self") || node.is_kind("super") {
        let r = vec![strip_raw(node.text.as_str())];
        assert(texts(r@) =~= seq![raw_stripped(node@.text)]);
        return r;
    }
    let mut out: Vec<String> = Vec::new();
    assert(texts(out@) =~= Seq::<Seq<char>>::empty());
    if let Some(p) = node.field_child("path") {
        out = path_segments(&node.children[p]);
    }
    if let Some(m) = node.field_child("name") {
        let more = path_segments(&node.children[m]);
        append_texts(&mut out, &more);
    }
    out
}

/// The segments below the child that fills `field`, none without such a child.
pub open spec fn field_segments(n: SyntaxView, field: Seq<char>) -> Seq<Seq<char>> {
    match field_of(n.children, field) {
        Some(i) => if 0 <= i < n.children.len() {
            segments_of(n.children[i])
        } else {
            Seq::empty()
        },
        None => Seq::empty(),
    }
}

/// The position of the first named child from `k` on.
pub open spec fn named_from(children: Seq<SyntaxView>, k: int) -> Option<int>
    decreases children.len() - k,
{
    if k < 0 || k >= children.len() {
        None
    } else if children[k].named {
        Some(k)
    } else {
        named_from(children, k + 1)
    }
}

/// The full paths that a `use` tree below `prefix` names, `*` ending a glob.
pub open spec fn expanded(n: SyntaxView, prefix: Seq<Seq<char>>) -> Seq<Seq<Seq<char>>>
    decreases n,
{
    if n.kind == "use_as_clause"@ {
        match field_of(n.children, "path"@) {
            Some(i) => if 0 <= i < n.children.len() {
                expanded(n.children[i], prefix)
            } else {
                Seq::empty()
            },
            None => Seq::empty(),
        }
    } else if n.kind == "scoped_use_list"@ {
        let inner = prefix + field_segments(n, "path"@);
        match field_of(n.children, "list"@) {
            Some(i) => if 0 <= i < n.children.len() {
                expanded(n.children[i], inner)
            } else {
                Seq::empty()
            },
            None => Seq::empty(),
        }
    } else if n.kind == "use_list"@ {
        expanded_list(n.children, prefix)
    } else if n.kind == "use_wildcard"@ {
        let first = match named_from(n.children, 0) {
            Some(i) => if 0 <= i < n.children.len() {
                segments_of(n.children[i])
            } else {
                Seq::empty()
            },
            None => Seq::empty(),
        };
        seq![prefix + first + seq![seq!['*']]]
    } else if n.kind == "line_comment"@ || n.kind == "block_comment"@ {
        Seq::empty()
    } else {
        let path = prefix + segments_of(n);
        if path.len() > 0 {
            seq![path]
        } else {
            Seq::empty()
        }
    }
}

/// The paths of the named nodes among `children`, in order.
pub open spec fn expanded_list(children: Seq<SyntaxView>, prefix: Seq<Seq<char>>) -> Seq<Seq<Seq<char>>>
    decreases children,
{
    if children.len() == 0 {
        Seq::empty()
    } else {
        expanded_list(children.drop_last(), prefix) + if children.last().named {
            expanded(children.last(), prefix)
        } else {
            Seq::empty()
        }
    }
}

/// The segments below the child that fills `field`.
fn segments_at(node: &SyntaxNode, field: &str) -> (r: Vec<String>)
    ensures
        texts(r@) == field_segments(node@, field@),
{
    proof {
        lemma_views_of(node.children@);
    }
    match node.field_child(field) {
        Some(i) => path_segments(&node.children[i]),
        None => {
            let r: Vec<String> = Vec::new();
            assert(texts(r@) =~= Seq::<Seq<char>>::empty());
            r
        },
    }
}

/// `prefix` followed by `more`.
fn joined_texts(prefix: &Vec<String>, more: &Vec<String>) -> (r: Vec<String>)
    ensures
        texts(r@) == texts(prefix@) + texts(more@),
{
    let mut r = copy_texts(prefix);
    append_texts(&mut r, more);
    r
}

/// The full paths that a `use` tree below `prefix` names.
pub fn expand_use(node: &SyntaxNode, prefix: &Vec<String>) -> (r: Vec<Vec<String>>)
    ensures
        paths_view(r@) == expanded(node@, texts(prefix@)),
    decreases node,
{
    proof {
        lemma_views_of(node.children@);
    }
    let mut out: Vec<Vec<String>> = Vec::new();
    assert(paths_view(out@) =~= Seq::<Seq<Seq<char>>>::empty());
    if node.is_kind("use_as_clause") {
        if let Some(p) = node.field_child("path") {
            out = expand_use(&node.children[p], prefix);
        }
        return out;
    }
    if node.is_kind("scoped_use_list") {
        let inner = joined_texts(prefix, &segments_at(node, "path"));
        if let Some(l) = node.field_child("list") {
            out = expand_use(&node.children[l], &inner);
        }
        return out;
    }
    if node.is_kind("use_list") {
        let mut i: usize = 0;
        while i < node.children.len()
            invariant
                i <= node.children@.len(),
                node@.children == views_of(node.children@),
                views_of(node.children@).len() == node.children@.len(),
                forall|j: int| 0 <= j < node.children@.len() ==> #[trigger] views_of(node.children@)[j] == syntax_view(node.children@[j]),
                paths_view(out@) == expanded_list(node@.children.subrange(0, i as int), texts(prefix@)),
            decreases node.children@.len() - i,
        {
            let ghost before = out@;
            if node.children[i].named {
                let mut more = expand_use(&node.children[i], prefix);
                let ghost m = more@;
                out.append(&mut more);
                assert(paths_view(out@) =~= paths_view(before) + paths_view(m));
            }
            proof {
                let c = node@.children.subrange(0, i + 1);
                assert(c.drop_last() =~= node@.children.subrange(0, i as int));
                assert(c.last() == node@.children[i as int]);
            }
            i += 1;
        }
        assert(node@.children.subrange(0, node@.children.len() as int) =~= node@.children);
        return out;
    }
    if node.is_kind("use_wildcard") {
        let mut path = copy_texts(prefix);
        let mut k: usize = 0;
        while k < node.children.len() && !node.children[k].named
            invariant
                k <= node.children@.len(),
                node@.children == views_of(node.children@),
                views_of(node.children@).len() == node.children@.len(),
                forall|j: int| 0 <= j < node.children@.len() ==> #[trigger] views_of(node.children@)[j] == syntax_view(node.children@[j]),
                named_from(node@.children, 0) == named_from(node@.children, k as int),
            decreases node.children@.len() - k,
        {
            k += 1;
        }
        let ghost first: Seq<Seq<char>> = Seq::empty();
        if k < node.children.len() {
            assert(node@.children[k as int].named);
            let segs = path_segments(&node.children[k]);
            proof {
                first = texts(segs@);
            }
            append_texts(&mut path, &segs);
        } else {
            assert(texts(path@) =~= texts(prefix@) + first);
        }
        assert(first == match named_from(node@.children, 0) {
            Some(i) => if 0 <= i < node@.children.len() {
                segments_of(node@.children[i])
            } else {
                Seq::empty()
            },
            None => Seq::<Seq<char>>::empty(),
        });
        let star = vec!['*'];
        assert(star@ =~= seq!['*']);
        let ghost before = texts(path@);
        path.push(string_of(&star));
        assert(texts(path@) =~= before + seq![seq!['*']]);
        let ghost pv = texts(path@);
        out.push(path);
        assert(paths_view(out@) =~= seq![pv]);
        return out;
    }
    if node.is_kind("line_comment") || node.is_kind("block_comment") {
        return out;
    }
    let path = joined_texts(prefix, &path_segments(node));
    if path.len() > 0 {
        let ghost pv = texts(path@);
        out.push(path);
        assert(paths_view(out@) =~= seq![pv]);
    }
    out
}

/// The names that a `use` tree brings into scope: aliases, and the last segment
/// of plain paths; globs bring none that are known.
pub open spec fn use_names_of(n: SyntaxView) -> Seq<Seq<char>>
    decreases n,
{
    if n.kind == "use_as_clause"@ {
        match field_of(n.children, "alias"@) {
            Some(i) => if 0 <= i < n.children.len() {
                seq![n.children[i].text]
            } else {
                Seq::empty()
            },
            None => Seq::empty(),
        }
    } else if n.kind == "identifier"@ || n.kind == "scoped_identifier"@ {
        let s = segments_of(n);
        if s.len() > 0 {
            seq![s.last()]
        } else {
            Seq::empty()
        }
    } else if n.kind == "use_wildcard"@ || n.kind == "line_comment"@ || n.kind == "block_comment"@ {
        Seq::empty()
    } else {
        match field_of(n.children, "list"@) {
            Some(i) => if 0 <= i < n.children.len() {
                use_names_of(n.children[i])
            } else {
                Seq::empty()
            },
            None => use_names_list(n.children),
        }
    }
}

/// The names of the named nodes among `children`, in order.
pub open spec fn use_names_list(children: Seq<SyntaxView>) -> Seq<Seq<char>>
    decreases children,
{
    if children.len() == 0 {
        Seq::empty()
    } else {
        use_names_list(children.drop_last()) + if children.last().named {
            use_names_of(children.last())
        } else {
            Seq::empty()
        }
    }
}

/// The names that a `use` tree brings into scope.
pub fn use_names(node: &SyntaxNode) -> (r: Vec<String>)
    ensures
        texts(r@) == use_names_of(node@),
    decreases node,
{
    proof {
        lemma_views_of(node.children@);
    }
    let mut out: Vec<String> = Vec::new();
    assert(texts(out@) =~= Seq::<Seq<char>>::empty());
    if node.is_kind("use_as_clause") {
        if let Some(a) = node.field_child("alias") {
            out.push(node.children[a].text.clone());
            assert(texts(out@) =~= seq![node@.children[a as int].text]);
        }
        return out;
    }
    if node.is_kind("identifier") || node.is_kind("scoped_identifier") {
        let s = path_segments(node);
        if s.len() > 0 {
            out.push(s[s.len() - 1].clone());
            assert(texts(out@) =~= seq![texts(s@).last()]);
        }
        return out;
    }
    if node.is_kind("use_wildcard") || node.is_kind("line_comment") || node.is_kind("block_comment") {
        return out;
    }
    if let Some(l) = node.field_child("list") {
        return use_names(&node.children[l]);
    }
    let mut i: usize = 0;
    while i < node.children.len()
        invariant
            i <= node.children@.len(),
            node@.children == views_of(node.children@),
            views_of(node.children@).len() == node.children@.len(),
            forall|j: int| 0 <= j < node.children@.len() ==> #[trigger] views_of(node.children@)[j] == syntax_view(node.children@[j]),
            texts(out@) == use_names_list(node@.children.subrange(0, i as int)),
        decreases node.children@.len() - i,
    {
        if node.children[i].named {
            let more = use_names(&node.children[i]);
            append_texts(&mut out, &more);
        }
        proof {
            let c = node@.children.subrange(0, i + 1);
            assert(c.drop_last() =~= node@.children.subrange(0, i as int));
            assert(c.last() == node@.children[i as int]);
        }
        i += 1;
    }
    assert(node@.children.subrange(0, node@.children.len() as int) =~= node@.children);
    out
}

/// A path that starts at `crate`, `self` or `super`.
pub open spec fn anchored(p: Seq<Seq<char>>) -> bool {
    p.len() > 0 && (p[0] == "crate"@ || p[0] == "self"@ || p[0] == "super"@)
}

/// The `use` paths inside an item: `use` declarations in bodies, and qualified
/// names that start at `crate`, `self` or `super`; macros and modules are not entered.
pub open spec fn nested_uses_of(n: SyntaxView) -> Seq<Seq<Seq<char>>>
    decreases n,
{
    if n.kind == "macro_definition"@ || n.kind == "macro_invocation"@ || n.kind == "mod_item"@ {
        Seq::empty()
    } else if n.kind == "use_declaration"@ {
        match field_of(n.children, "argument"@) {
            Some(i) => if 0 <= i < n.children.len() {
                expanded(n.children[i], Seq::empty())
            } else {
                Seq::empty()
            },
            None => Seq::empty(),
        }
    } else if (n.kind == "scoped_identifier"@ || n.kind == "scoped_type_identifier"@) && anchored(
        segments_of(n),
    ) {
        seq![segments_of(n)]
    } else {
        nested_uses_list(n.children)
    }
}

/// The nested `use` paths of the named nodes among `children`, in order.
pub open spec fn nested_uses_list(children: Seq<SyntaxView>) -> Seq<Seq<Seq<char>>>
    decreases children,
{
    if children.len() == 0 {
        Seq::empty()
    } else {
        nested_uses_list(children.drop_last()) + if children.last().named {
            nested_uses_of(children.last())
        } else {
            Seq::empty()
        }
    }
}

/// Whether a path starts at `crate`, `self` or `super`.
fn is_anchored(p: &Vec<String>) -> (r: bool)
    ensures
        r == anchored(texts(p@)),
{
    p.len() > 0 && (crate::text_util::str_eq(p[0].as_str(), "crate") || crate::text_util::str_eq(
        p[0].as_str(),
        "self",
    ) || crate::text_util::str_eq(p[0].as_str(), "super"))
}

/// Whether the walk for nested uses enters the children of a node.
pub open spec fn enters_for_uses(n: SyntaxView) -> bool {
    !(n.kind == "macro_definition"@ || n.kind == "macro_invocation"@ || n.kind == "mod_item"@)
        && n.kind != "use_declaration"@
        && !((n.kind == "scoped_identifier"@ || n.kind == "scoped_type_identifier"@) && anchored(segments_of(n)))
}

/// The `use` paths a node gives itself, and whether its children are read.
fn own_nested_uses(node: &SyntaxNode) -> (r: (Vec<Vec<String>>, bool))
    ensures
        r.1 == enters_for_uses(node@),
        !r.1 ==> paths_view(r.0@) == nested_uses_of(node@),
        r.1 ==> paths_view(r.0@) == Seq::<Seq<Seq<char>>>::empty() && nested_uses_of(node@) == nested_uses_list(node@.children),
{
    proof {
        lemma_views_of(node.children@);
    }
    let mut out: Vec<Vec<String>> = Vec::new();
    assert(paths_view(out@) =~= Seq::<Seq<Seq<char>>>::empty());
    if node.is_kind("macro_definition") || node.is_kind("macro_invocation") || node.is_kind("mod_item") {
        return (out, false);
    }
    if node.is_kind("use_declaration") {
        if let Some(a) = node.field_child("argument") {
            let empty: Vec<String> = Vec::new();
            assert(texts(empty@) =~= Seq::<Seq<char>>::empty());
            out = expand_use(&node.children[a], &empty);
        }
        return (out, false);
    }
    if node.is_kind("scoped_identifier") || node.is_kind("scoped_type_identifier") {
        let path = path_segments(node);
        if is_anchored(&path) {
            let ghost pv = texts(path@);
            out.push(path);
            assert(paths_view(out@) =~= seq![pv]);
            return (out, false);
        }
    }
    (out, true)
}

/// The nested `use` paths of the trees on a stack, the top one first.
pub open spec fn stack_uses(st: Seq<SyntaxView>) -> Seq<Seq<Seq<char>>>
    decreases st.len(),
{
    if st.len() == 0 {
        Seq::empty()
    } else {
        nested_uses_of(st.last()) + stack_uses(st.drop_last())
    }
}

/// The nested uses of two lists of trees, one after the other.
pub proof fn lemma_uses_concat(a: Seq<SyntaxView>, b: Seq<SyntaxView>)
    ensures
        nested_uses_list(a + b) == nested_uses_list(a) + nested_uses_list(b),
    decreases b.len(),
{
    if b.len() == 0 {
        assert(a + b =~= a);
        assert(nested_uses_list(a) + Seq::empty() =~= nested_uses_list(a));
    } else {
        lemma_uses_concat(a, b.drop_last());
        assert((a + b).drop_last() =~= a + b.drop_last());
        assert(nested_uses_list(a + b) =~= nested_uses_list(a) + nested_uses_list(b));
    }
}

/// The `use` paths inside an item, read with the nodes still to visit kept on
/// a stack rather than recursing.
pub fn nested_uses(root: &SyntaxNode) -> (r: Vec<Vec<String>>)
    ensures
        paths_view(r@) == nested_uses_of(root@),
{
    let mut out: Vec<Vec<String>> = Vec::new();
    let mut stack: Vec<&SyntaxNode> = Vec::new();
    stack.push(root);
    proof {
        assert(refs_view(stack@) =~= seq![root@]);
        assert(seq![root@].drop_last() =~= Seq::<SyntaxView>::empty());
        assert(seq![root@].last() == root@);
        assert(stack_uses(Seq::<SyntaxView>::empty()) =~= Seq::empty());
        assert(paths_view(out@) =~= Seq::<Seq<Seq<char>>>::empty());
        assert(Seq::<Seq<Seq<char>>>::empty() + (nested_uses_of(root@) + Seq::empty()) =~= nested_uses_of(root@));
    }
    while stack.len() > 0
        invariant
            paths_view(out@) + stack_uses(refs_view(stack@)) == nested_uses_of(root@),
        decreases forest_size(refs_view(stack@)),
    {
        let ghost before = stack@;
        let ghost start = paths_view(out@);
        let node = stack.pop().unwrap();
        let ghost rest = stack@;
        proof {
            lemma_views_of(node.children@);
            assert(before.drop_last() =~= rest);
            assert(refs_view(before).drop_last() =~= refs_view(rest));
            assert(refs_view(before).last() == node@);
            assert(forest_size(refs_view(before)) == forest_size(refs_view(rest)) + tree_size(node@));
            assert(stack_uses(refs_view(before)) == nested_uses_of(node@) + stack_uses(refs_view(rest)));
        }
        let (mut own, enter) = own_nested_uses(node);
        let ghost ov = paths_view(own@);
        out.append(&mut own);
        assert(paths_view(out@) =~= start + ov);
        if enter {
            let ghost kids = node@.children;
            let mut k: usize = node.children.len();
            assert(kids.subrange(k as int, kids.len() as int) =~= Seq::<SyntaxView>::empty());
            while k > 0
                invariant
                    k <= node.children@.len(),
                    kids == node@.children,
                    kids == views_of(node.children@),
                    kids.len() == node.children@.len(),
                    forall|j: int| 0 <= j < node.children@.len() ==> #[trigger] views_of(node.children@)[j] == syntax_view(node.children@[j]),
                    stack_uses(refs_view(stack@)) == nested_uses_list(kids.subrange(k as int, kids.len() as int)) + stack_uses(refs_view(rest)),
                    forest_size(refs_view(stack@)) <= forest_size(refs_view(rest)) + forest_size(kids.subrange(k as int, kids.len() as int)),
                decreases k,
            {
                k -= 1;
                let ghost st = stack@;
                let ghost c = kids[k as int];
                let ghost tail = kids.subrange(k + 1, kids.len() as int);
                proof {
                    assert(kids.subrange(k as int, kids.len() as int) =~= seq![c] + tail);
                    lemma_uses_concat(seq![c], tail);
                    assert(seq![c].drop_last() =~= Seq::<SyntaxView>::empty());
                    assert(seq![c].last() == c);
                    assert(nested_uses_list(Seq::<SyntaxView>::empty()) =~= Seq::empty());
                    crate::syntax::lemma_forest_concat(seq![c], tail);
                    assert(forest_size(Seq::<SyntaxView>::empty()) == 0);
                    assert(forest_size(seq![c]) == tree_size(c));
                }
                if node.children[k].named {
                    stack.push(&node.children[k]);
                    proof {
                        assert(refs_view(stack@) =~= refs_view(st).push(c));
                        assert(refs_view(stack@).drop_last() =~= refs_view(st));
                        assert(nested_uses_list(seq![c]) =~= nested_uses_of(c));
                    }
                } else {
                    assert(nested_uses_list(seq![c]) =~= Seq::<Seq<Seq<char>>>::empty());
                }
            }
            proof {
                assert(kids.subrange(0, kids.len() as int) =~= kids);
            }
        }
        assert(paths_view(out@) + stack_uses(refs_view(stack@)) =~= start + stack_uses(refs_view(before)));
    }
    assert(refs_view(stack@) =~= Seq::<SyntaxView>::empty());
    out
}

/// `mod name`, the specifier of a `mod` item.
pub open spec fn mod_specifier(name: Seq<char>) -> Seq<char> {
    seq!['m', 'o', 'd', ' '] + name
}

/// Why an inline module has no directory.
pub open spec fn inline_refusal() -> Seq<char> {
    "Rust module path is outside the selected project or is not a literal."@
}

/// A node kind that declares a name in its module.
pub open spec fn item_kind(k: Seq<char>) -> bool {
    k == "function_item"@ || k == "struct_item"@ || k == "enum_item"@ || k == "type_item"@ || k
        == "trait_item"@ || k == "const_item"@ || k == "static_item"@ || k == "union_item"@
}

/// One `use` event for each path.
pub open spec fn use_events(scope: Seq<Seq<char>>, paths: Seq<Seq<Seq<char>>>) -> Seq<WalkEventView> {
    paths.map_values(|p: Seq<Seq<char>>| WalkEventView::Use(scope, p))
}

/// One symbol event for each name.
pub open spec fn symbol_events(scope: Seq<Seq<char>>, names: Seq<Seq<char>>) -> Seq<WalkEventView> {
    names.map_values(|n: Seq<char>| WalkEventView::Symbol(scope, n))
}

/// The pending `path` attribute.
pub type AttributeView = Option<Result<Seq<char>, Seq<char>>>;

/// What walking a body at `loc` finds: nothing below a module depth of 64.
pub open spec fn body_events(body: SyntaxView, loc: LocationView, sources: Set<Seq<char>>) -> Seq<WalkEventView>
    decreases body,
{
    if loc.scope.len() > 64 {
        Seq::empty()
    } else {
        body_fold(body.children, loc, sources).0
    }
}

/// What the named nodes among `children` find, and the `path` attribute left pending.
pub open spec fn body_fold(children: Seq<SyntaxView>, loc: LocationView, sources: Set<Seq<char>>) -> (Seq<WalkEventView>, AttributeView)
    decreases children,
{
    if children.len() == 0 {
        (Seq::empty(), None)
    } else {
        let (found, pending) = body_fold(children.drop_last(), loc, sources);
        if children.last().named {
            let (more, next) = item_events(children.last(), pending, loc, sources);
            (found + more, next)
        } else {
            (found, pending)
        }
    }
}

/// What one item of a body finds, with the `path` attribute `pending` before it,
/// and the attribute pending after it. A `path` attribute waits for the next
/// item; a `mod` item takes it; any other item but a comment drops it.
pub open spec fn item_events(node: SyntaxView, pending: AttributeView, loc: LocationView, sources: Set<Seq<char>>) -> (Seq<WalkEventView>, AttributeView)
    decreases node,
{
    if node.kind == "attribute_item"@ {
        match path_attribute_of(node.text) {
            Some(p) => (Seq::empty(), Some(p)),
            None => (Seq::empty(), pending),
        }
    } else if node.kind == "line_comment"@ || node.kind == "block_comment"@ {
        (Seq::empty(), pending)
    } else if node.kind == "mod_item"@ {
        match field_of(node.children, "name"@) {
            None => (Seq::empty(), pending),
            Some(ni) => if !(0 <= ni < node.children.len()) {
                (Seq::empty(), pending)
            } else {
                let name = raw_stripped(node.children[ni].text);
                let scope = loc.scope.push(name);
                let specifier = mod_specifier(name);
                match field_of(node.children, "body"@) {
                    Some(bi) => if 0 <= bi < node.children.len() {
                        match inline_directory_of(pending, loc.attribute_dir, loc.children_dir, name) {
                            Some(d) => {
                                let inner = LocationView { scope, children_dir: d, attribute_dir: d, ..loc };
                                (seq![WalkEventView::Register(scope)] + body_events(node.children[bi], inner, sources), None)
                            },
                            None => (seq![WalkEventView::Unresolved(specifier, inline_refusal())], None),
                        }
                    } else {
                        (Seq::empty(), None)
                    },
                    None => match module_file_of(pending, loc.attribute_dir, loc.children_dir, name, sources) {
                        Ok(f) => {
                            let next = LocationView {
                                file: f,
                                root: loc.root,
                                scope,
                                children_dir: children_dir_of(f),
                                attribute_dir: before_last(f, '/'),
                            };
                            let import = if f != loc.file {
                                seq![WalkEventView::Import(specifier, f)]
                            } else {
                                Seq::empty()
                            };
                            (import + seq![WalkEventView::WalkFile(next)], None)
                        },
                        Err(e) => (seq![WalkEventView::Unresolved(specifier, e)], None),
                    },
                }
            },
        }
    } else if node.kind == "use_declaration"@ {
        match field_of(node.children, "argument"@) {
            Some(ai) => if 0 <= ai < node.children.len() {
                (use_events(loc.scope, expanded(node.children[ai], Seq::empty())) + symbol_events(
                    loc.scope,
                    use_names_of(node.children[ai]),
                ), None)
            } else {
                (Seq::empty(), None)
            },
            None => (Seq::empty(), None),
        }
    } else if item_kind(node.kind) {
        let symbol = match field_of(node.children, "name"@) {
            Some(ni) => if 0 <= ni < node.children.len() {
                seq![WalkEventView::Symbol(loc.scope, raw_stripped(node.children[ni].text))]
            } else {
                Seq::empty()
            },
            None => Seq::empty(),
        };
        (symbol + use_events(loc.scope, nested_uses_of(node)), None)
    } else if node.kind != "macro_definition"@ && node.kind != "macro_invocation"@ {
        (use_events(loc.scope, nested_uses_of(node)), None)
    } else {
        (Seq::empty(), None)
    }
}

/// Appends a `use` event for each path.
fn push_uses(out: &mut Vec<WalkEvent>, scope: &Vec<String>, paths: Vec<Vec<String>>)
    ensures
        events_view(final(out)@) == events_view(old(out)@) + use_events(texts(scope@), paths_view(paths@)),
{
    let ghost start = out@;
    let mut i: usize = 0;
    while i < paths.len()
        invariant
            i <= paths@.len(),
            events_view(out@) == events_view(start) + use_events(texts(scope@), paths_view(paths@.subrange(0, i as int))),
        decreases paths@.len() - i,
    {
        let ghost before = out@;
        out.push(WalkEvent::Use { scope: copy_texts(scope), path: copy_texts(&paths[i]) });
        i += 1;
        assert(events_view(out@) =~= events_view(before).push(WalkEventView::Use(texts(scope@), texts(paths@[i - 1]@))));
        assert(use_events(texts(scope@), paths_view(paths@.subrange(0, i as int))) =~= use_events(texts(scope@), paths_view(paths@.subrange(0, i - 1))).push(WalkEventView::Use(texts(scope@), texts(paths@[i - 1]@))));
    }
    assert(paths@.subrange(0, paths@.len() as int) =~= paths@);
}

/// Appends a symbol event for each name.
fn push_symbols(out: &mut Vec<WalkEvent>, scope: &Vec<String>, names: Vec<String>)
    ensures
        events_view(final(out)@) == events_view(old(out)@) + symbol_events(texts(scope@), texts(names@)),
{
    let ghost start = out@;
    let mut i: usize = 0;
    while i < names.len()
        invariant
            i <= names@.len(),
            events_view(out@) == events_view(start) + symbol_events(texts(scope@), texts(names@.subrange(0, i as int))),
        decreases names@.len() - i,
    {
        let ghost before = out@;
        out.push(WalkEvent::Symbol { scope: copy_texts(scope), name: names[i].clone() });
        i += 1;
        assert(events_view(out@) =~= events_view(before).push(WalkEventView::Symbol(texts(scope@), names@[i - 1]@)));
        assert(symbol_events(texts(scope@), texts(names@.subrange(0, i as int))) =~= symbol_events(texts(scope@), texts(names@.subrange(0, i - 1))).push(WalkEventView::Symbol(texts(scope@), names@[i - 1]@)));
    }
    assert(names@.subrange(0, names@.len() as int) =~= names@);
}

/// `mod name`.
fn mod_text(name: &String) -> (r: String)
    ensures
        r@ == mod_specifier(name@),
{
    let head = vec!['m', 'o', 'd', ' '];
    assert(head@ =~= seq!['m', 'o', 'd', ' ']);
    string_of(&vec_concat(&head, &chars_of(name.as_str())))
}

/// Walks one item of a body, with the `path` attribute `pending` before it, and
/// gives what it found and the attribute pending after it.
pub fn walk_item(
    node: &SyntaxNode,
    pending: Option<Result<String, &'static str>>,
    location: &Location,
    sources: &FileSet,
) -> (r: (Vec<WalkEvent>, Option<Result<String, &'static str>>))
    ensures
        (events_view(r.0@), attribute_view(r.1)) == item_events(node@, attribute_view(pending), location@, sources@),
    decreases node,
{
    proof {
        lemma_views_of(node.children@);
    }
    let mut out: Vec<WalkEvent> = Vec::new();
    assert(events_view(out@) =~= Seq::<WalkEventView>::empty());
    if node.is_kind("attribute_item") {
        let found = read_path_attribute(node.text.as_str());
        return match found {
            Some(p) => (out, Some(p)),
            None => (out, pending),
        };
    }
    if node.is_kind("line_comment") || node.is_kind("block_comment") {
        return (out, pending);
    }
    if node.is_kind("mod_item") {
        let ni = match node.field_child("name") {
            None => {
                return (out, pending);
            },
            Some(ni) => ni,
        };
        let name = strip_raw(node.children[ni].text.as_str());
        let mut scope = copy_texts(&location.scope);
        scope.push(name.clone());
        assert(texts(scope@) =~= location@.scope.push(name@));
        let specifier = mod_text(&name);
        match node.field_child("body") {
            Some(bi) => {
                match inline_directory(&pending, location.attribute_dir.as_str(), location.children_dir.as_str(), name.as_str()) {
                    Some(d) => {
                        let inner = Location {
                            file: location.file.clone(),
                            root: location.root.clone(),
                            scope: copy_texts(&scope),
                            children_dir: d.clone(),
                            attribute_dir: d,
                        };
                        out.push(WalkEvent::Register { scope });
                        let mut more = walk_body(&node.children[bi], &inner, sources);
                        let ghost m = more@;
                        let ghost first = out@;
                        out.append(&mut more);
                        assert(events_view(out@) =~= events_view(first) + events_view(m));
                        assert(events_view(first) =~= seq![WalkEventView::Register(location@.scope.push(name@))]);
                        return (out, None);
                    },
                    None => {
                        out.push(WalkEvent::Unresolved {
                            specifier,
                            reason: "Rust module path is outside the selected project or is not a literal.",
                        });
                        assert(events_view(out@) =~= seq![WalkEventView::Unresolved(mod_specifier(name@), inline_refusal())]);
                        return (out, None);
                    },
                }
            },
            None => {
                match module_file(&pending, location.attribute_dir.as_str(), location.children_dir.as_str(), name.as_str(), sources) {
                    Ok(f) => {
                        let same = crate::text_util::str_eq(f.as_str(), location.file.as_str());
                        if !same {
                            out.push(WalkEvent::Import { specifier, target: f.clone() });
                        }
                        let next = Location {
                            file: f.clone(),
                            root: location.root.clone(),
                            scope,
                            children_dir: crate::languages::rust::children_directory(f.as_str()),
                            attribute_dir: parent(f.as_str()),
                        };
                        let ghost first = out@;
                        out.push(WalkEvent::WalkFile { location: next });
                        assert(events_view(out@) =~= events_view(first).push(WalkEventView::WalkFile(next@)));
                        proof {
                            if !same {
                                assert(events_view(first) =~= seq![WalkEventView::Import(mod_specifier(name@), f@)]);
                            } else {
                                assert(events_view(first) =~= Seq::<WalkEventView>::empty());
                            }
                        }
                        return (out, None);
                    },
                    Err(e) => {
                        out.push(WalkEvent::Unresolved { specifier, reason: e });
                        assert(events_view(out@) =~= seq![WalkEventView::Unresolved(mod_specifier(name@), e@)]);
                        return (out, None);
                    },
                }
            },
        }
    }
    if node.is_kind("use_declaration") {
        if let Some(ai) = node.field_child("argument") {
            let empty: Vec<String> = Vec::new();
            assert(texts(empty@) =~= Seq::<Seq<char>>::empty());
            let paths = expand_use(&node.children[ai], &empty);
            push_uses(&mut out, &location.scope, paths);
            let names = use_names(&node.children[ai]);
            push_symbols(&mut out, &location.scope, names);
        }
        return (out, None);
    }
    if node.is_kind("function_item") || node.is_kind("struct_item") || node.is_kind("enum_item")
        || node.is_kind("type_item") || node.is_kind("trait_item") || node.is_kind("const_item")
        || node.is_kind("static_item") || node.is_kind("union_item") {
        if let Some(ni) = node.field_child("name") {
            out.push(WalkEvent::Symbol {
                scope: copy_texts(&location.scope),
                name: strip_raw(node.children[ni].text.as_str()),
            });
            assert(events_view(out@) =~= seq![WalkEventView::Symbol(location@.scope, raw_stripped(node@.children[ni as int].text))]);
        }
        push_uses(&mut out, &location.scope, nested_uses(node));
        return (out, None);
    }
    if !node.is_kind("macro_definition") && !node.is_kind("macro_invocation") {
        push_uses(&mut out, &location.scope, nested_uses(node));
    }
    (out, None)
}

/// Walks the items of a body at `location`, `sources` being the scanned Rust
/// files, and gives what it found in order; nothing below a module depth of 64.
pub fn walk_body(body: &SyntaxNode, location: &Location, sources: &FileSet) -> (r: Vec<WalkEvent>)
    ensures
        events_view(r@) == body_events(body@, location@, sources@),
    decreases body,
{
    proof {
        lemma_views_of(body.children@);
    }
    let mut out: Vec<WalkEvent> = Vec::new();
    assert(events_view(out@) =~= Seq::<WalkEventView>::empty());
    if location.scope.len() > 64 {
        return out;
    }
    let mut pending: Option<Result<String, &'static str>> = None;
    let mut i: usize = 0;
    while i < body.children.len()
        invariant
            i <= body.children@.len(),
            body@.children == views_of(body.children@),
            views_of(body.children@).len() == body.children@.len(),
            forall|j: int| 0 <= j < body.children@.len() ==> #[trigger] views_of(body.children@)[j] == syntax_view(body.children@[j]),
            (events_view(out@), attribute_view(pending)) == body_fold(body@.children.subrange(0, i as int), location@, sources@),
        decreases body.children@.len() - i,
    {
        proof {
            let c = body@.children.subrange(0, i + 1);
            assert(c.drop_last() =~= body@.children.subrange(0, i as int));
            assert(c.last() == body@.children[i as int]);
        }
        if body.children[i].named {
            let ghost before = out@;
            let (mut more, next) = walk_item(&body.children[i], pending, location, sources);
            let ghost m = more@;
            out.append(&mut more);
            assert(events_view(out@) =~= events_view(before) + events_view(m));
            pending = next;
        }
        i += 1;
    }
    assert(body@.children.subrange(0, body@.children.len() as int) =~= body@.children);
    out
}

/// Whether a module file may be walked: it is not already being walked on this
/// path, the module is at most 64 deep, and no more than 50000 walks were made.
pub fn file_walk_allowed(ancestors: &Vec<String>, location: &Location, walks: usize) -> (r: bool)
    ensures
        r == !(texts(ancestors@).contains(location@.file) || location@.scope.len() > 64 || walks
            > 50000),
{
    let mut i: usize = 0;
    while i < ancestors.len()
        invariant
            i <= ancestors@.len(),
            forall|j: int| 0 <= j < i ==> ancestors@[j]@ != location@.file,
        decreases ancestors@.len() - i,
    {
        if crate::text_util::str_eq(ancestors[i].as_str(), location.file.as_str()) {
            assert(texts(ancestors@)[i as int] == location@.file);
            return false;
        }
        i += 1;
    }
    assert(!texts(ancestors@).contains(location@.file));
    !(location.scope.len() > 64 || walks > 50000)
}

/// The syntax tree of a Rust source, which the parser always gives.
pub fn parse_source(source: &str) -> (r: Result<SyntaxNode, &'static str>)
    ensures
        r matches Ok(t) ==> t@ == rust_syntax(source@),
        r is Ok,
{
    match parse_rust(source) {
        Some(t) => Ok(t),
        None => Err("Rust parser returned no syntax tree"),
    }
}

} // verus!
