//! Imports found in JavaScript and TypeScript sources, and the decoding of
//! their string literals without evaluating any source code.
use vstd::prelude::*;
use crate::model::DependencyKind;
use crate::syntax::{
    refs_view,
    field_of, lemma_views_of, parse_javascript, parse_tsx, parse_typescript, javascript_syntax,
    syntax_view, tsx_syntax, typescript_syntax, views_of, SyntaxNode, SyntaxView,
};
use crate::text_util::{chars_of, str_eq, string_of};

verus! {

/// The value of a hexadecimal digit.
pub open spec fn hex_digit(c: char) -> Option<int> {
    if '0' <= c && c <= '9' {
        Some(c as int - '0' as int)
    } else if 'a' <= c && c <= 'f' {
        Some(c as int - 'a' as int + 10)
    } else if 'A' <= c && c <= 'F' {
        Some(c as int - 'A' as int + 10)
    } else {
        None
    }
}

/// The value of a sequence of hexadecimal digits (none when empty or not all digits).
pub open spec fn hex_digits(s: Seq<char>) -> Option<int>
    decreases s.len(),
{
    if s.len() == 0 {
        None
    } else if s.len() == 1 {
        hex_digit(s[0])
    } else {
        match (hex_digits(s.drop_last()), hex_digit(s.last())) {
            (Some(a), Some(d)) => Some(a * 16 + d),
            _ => None,
        }
    }
}

/// `u32::from_str_radix(s, 16)`: an optional `+` followed by hexadecimal
/// digits, within the range of `u32`.
pub open spec fn hex_number(s: Seq<char>) -> Option<int> {
    let digits = if s.len() > 0 && s[0] == '+' {
        s.drop_first()
    } else {
        s
    };
    match hex_digits(digits) {
        Some(v) => if v <= 0xffff_ffff {
            Some(v)
        } else {
            None
        },
        None => None,
    }
}

/// The character with code point `v`, when `v` is a Unicode scalar value.
pub open spec fn scalar(v: int) -> Option<char> {
    if 0 <= v <= 0x10ffff && !(0xd800 <= v <= 0xdfff) {
        Some(v as char)
    } else {
        None
    }
}

/// The character written by the hexadecimal code in `s`.
pub open spec fn code_char(s: Seq<char>) -> Option<char> {
    match hex_number(s) {
        Some(v) => scalar(v),
        None => None,
    }
}

/// The index of the first `c` at or after `from`.
pub open spec fn find_from(s: Seq<char>, c: char, from: int) -> Option<int>
    decreases s.len() - from,
{
    if from < 0 || from >= s.len() {
        None
    } else if s[from] == c {
        Some(from)
    } else {
        find_from(s, c, from + 1)
    }
}

pub proof fn lemma_find_from(s: Seq<char>, c: char, from: int)
    ensures
        find_from(s, c, from) matches Some(x) ==> from <= x < s.len() && s[x] == c,
        find_from(s, c, from) is None && 0 <= from ==> forall|y: int| from <= y < s.len() ==> s[y] != c,
    decreases s.len() - from,
{
    if 0 <= from < s.len() && s[from] != c {
        lemma_find_from(s, c, from + 1);
    }
}

/// The text of the escape-processed body `b` from index `i` on.
pub open spec fn unescape(b: Seq<char>, i: int) -> Option<Seq<char>>
    decreases b.len() - i,
{
    if i < 0 || i >= b.len() {
        Some(Seq::empty())
    } else if b[i] != '\\' {
        match unescape(b, i + 1) {
            Some(rest) => Some(seq![b[i]] + rest),
            None => None,
        }
    } else if i + 1 >= b.len() {
        None
    } else {
        let e = b[i + 1];
        let j = i + 2;
        let simple = |c: char| match unescape(b, j) {
            Some(rest) => Some(seq![c] + rest),
            None => None,
        };
        if e == 'n' {
            simple('\n')
        } else if e == 'r' {
            simple('\r')
        } else if e == 't' {
            simple('\t')
        } else if e == 'b' {
            simple('\u{0008}')
        } else if e == 'f' {
            simple('\u{000c}')
        } else if e == 'v' {
            simple('\u{000b}')
        } else if e == '0' {
            simple('\0')
        } else if e == '\n' {
            unescape(b, j)
        } else if e == '\r' {
            if j < b.len() && b[j] == '\n' {
                unescape(b, j + 1)
            } else {
                unescape(b, j)
            }
        } else if e == 'x' {
            if j + 2 > b.len() {
                None
            } else {
                match code_char(b.subrange(j, j + 2)) {
                    Some(c) => match unescape(b, j + 2) {
                        Some(rest) => Some(seq![c] + rest),
                        None => None,
                    },
                    None => None,
                }
            }
        } else if e == 'u' {
            if j < b.len() && b[j] == '{' {
                match find_from(b, '}', j + 1) {
                    Some(close) => if close - (j + 1) > 6 || close < j + 1 {
                        None
                    } else {
                        proof {
                            lemma_find_from(b, '}', j + 1);
                        }
                        match code_char(b.subrange(j + 1, close)) {
                            Some(c) => match unescape(b, close + 1) {
                                Some(rest) => Some(seq![c] + rest),
                                None => None,
                            },
                            None => None,
                        }
                    },
                    None => None,
                }
            } else if j + 4 > b.len() {
                None
            } else {
                match code_char(b.subrange(j, j + 4)) {
                    Some(c) => match unescape(b, j + 4) {
                        Some(rest) => Some(seq![c] + rest),
                        None => None,
                    },
                    None => None,
                }
            }
        } else if '1' <= e && e <= '9' {
            None
        } else {
            simple(e)
        }
    }
}

/// The decoded value of a quoted JavaScript string literal.
pub open spec fn decoded(raw: Seq<char>) -> Option<Seq<char>> {
    if raw.len() < 2 {
        None
    } else {
        let q = raw[0];
        if (q == '\'' || q == '"' || q == '`') && raw.last() == q {
            unescape(raw.subrange(1, raw.len() - 1), 0)
        } else {
            None
        }
    }
}

/// The character with the given code point, when there is one.
#[verifier::external_body]
fn char_from_code(v: u32) -> (r: Option<char>)
    ensures
        r == scalar(v as int),
{
    char::from_u32(v)
}

fn digit_value(c: char) -> (r: Option<u32>)
    ensures
        match hex_digit(c) {
            Some(d) => r == Some(d as u32),
            None => r is None,
        },
{
    if '0' <= c && c <= '9' {
        Some((c as u32) - ('0' as u32))
    } else if 'a' <= c && c <= 'f' {
        Some((c as u32) - ('a' as u32) + 10)
    } else if 'A' <= c && c <= 'F' {
        Some((c as u32) - ('A' as u32) + 10)
    } else {
        None
    }
}

/// Sixteen to the power `n`.
pub open spec fn pow16(n: nat) -> int
    decreases n,
{
    if n == 0 {
        1
    } else {
        16 * pow16((n - 1) as nat)
    }
}

/// `code_char` of `b[from..to]`, for at most six characters.
fn parse_code(b: &Vec<char>, from: usize, to: usize) -> (r: Option<char>)
    requires
        from <= to <= b.len(),
        to - from <= 6,
    ensures
        r == code_char(b@.subrange(from as int, to as int)),
{
    let ghost s = b@.subrange(from as int, to as int);
    let mut start = from;
    if from < to && b[from] == '+' {
        start = from + 1;
    }
    proof {
        if from < to && b@[from as int] == '+' {
            assert(b@.subrange(start as int, to as int) =~= s.drop_first());
        } else {
            assert(b@.subrange(start as int, to as int) =~= s);
        }
    }
    if start == to {
        return None;
    }
    let mut value: u32 = 0;
    let mut i = start;
    while i < to
        invariant
            s == b@.subrange(from as int, to as int),
            start < to <= b.len(),
            to - start <= 6,
            start <= i <= to,
            code_char(s) == match hex_digits(b@.subrange(start as int, to as int)) {
                Some(v) => if v <= 0xffff_ffff {
                    scalar(v)
                } else {
                    None
                },
                None => None,
            },
            i == start ==> value == 0,
            i > start ==> hex_digits(b@.subrange(start as int, i as int)) == Some(value as int),
            value < pow16((i - start) as nat),
        decreases to - i,
    {
        let d = match digit_value(b[i]) {
            Some(d) => d,
            None => {
                proof {
                    let t = b@.subrange(start as int, to as int);
                    assert(t[(i - start) as int] == b@[i as int]);
                    lemma_hex_digits_prefix_fail(t, (i - start) as int);
                }
                return None;
            },
        };
        proof {
            lemma_pow16_le6((i - start) as nat);
            assert(pow16((i - start + 1) as nat) == 16 * pow16((i - start) as nat));
            let u = b@.subrange(start as int, i + 1);
            assert(u.drop_last() =~= b@.subrange(start as int, i as int));
            assert(u.last() == b@[i as int]);
            assert(value * 16 + d < 16 * pow16((i - start) as nat)) by (nonlinear_arith)
                requires
                    value < pow16((i - start) as nat),
                    d < 16,
            ;
        }
        value = value * 16 + d;
        i += 1;
    }
    proof {
        lemma_pow16_le6((to - start) as nat);
    }
    char_from_code(value)
}

proof fn lemma_pow16_le6(n: nat)
    requires
        n <= 6,
    ensures
        pow16(n) <= 0x100_0000,
        pow16(n) >= 1,
{
    assert(pow16(0) == 1);
    assert(pow16(1) == 16);
    assert(pow16(2) == 256);
    assert(pow16(3) == 4096);
    assert(pow16(4) == 65536);
    assert(pow16(5) == 1048576);
    assert(pow16(6) == 16777216);
}

/// A non-digit at position `k` makes the whole digit string invalid.
proof fn lemma_hex_digits_prefix_fail(t: Seq<char>, k: int)
    requires
        0 <= k < t.len(),
        hex_digit(t[k]) is None,
    ensures
        hex_digits(t) is None,
    decreases t.len(),
{
    if t.len() > 1 {
        if k < t.len() - 1 {
            lemma_hex_digits_prefix_fail(t.drop_last(), k);
        }
    }
}

/// One escape sequence starting at `b[i] == '\\'`: what it writes and where the text resumes.
fn escape_at(b: &Vec<char>, i: usize) -> (r: Option<(Option<char>, usize)>)
    requires
        i < b.len(),
        b@[i as int] == '\\',
    ensures
        match r {
            None => unescape(b@, i as int) is None,
            Some((c, next)) => i < next <= b.len() && unescape(b@, i as int) == match unescape(
                b@,
                next as int,
            ) {
                Some(rest) => Some(
                    match c {
                        Some(x) => seq![x] + rest,
                        None => rest,
                    },
                ),
                None => None,
            },
        },
{
    if i + 1 >= b.len() {
        return None;
    }
    let e = b[i + 1];
    let j = i + 2;
    if e == 'n' {
        return Some((Some('\n'), j));
    } else if e == 'r' {
        return Some((Some('\r'), j));
    } else if e == 't' {
        return Some((Some('\t'), j));
    } else if e == 'b' {
        return Some((Some('\u{0008}'), j));
    } else if e == 'f' {
        return Some((Some('\u{000c}'), j));
    } else if e == 'v' {
        return Some((Some('\u{000b}'), j));
    } else if e == '0' {
        return Some((Some('\0'), j));
    } else if e == '\n' {
        return Some((None, j));
    } else if e == '\r' {
        if j < b.len() && b[j] == '\n' {
            return Some((None, j + 1));
        }
        return Some((None, j));
    } else if e == 'x' {
        if b.len() - j < 2 {
            return None;
        }
        return match parse_code(b, j, j + 2) {
            Some(x) => Some((Some(x), j + 2)),
            None => None,
        };
    } else if e == 'u' {
        if j < b.len() && b[j] == '{' {
            let mut close = j + 1;
            proof {
                lemma_find_from(b@, '}', (j + 1) as int);
            }
            while close < b.len() && b[close] != '}'
                invariant
                    j + 1 <= close <= b.len(),
                    find_from(b@, '}', (j + 1) as int) == find_from(b@, '}', close as int),
                decreases b.len() - close,
            {
                close += 1;
            }
            proof {
                lemma_find_from(b@, '}', close as int);
            }
            if close >= b.len() {
                return None;
            }
            if close - (j + 1) > 6 {
                return None;
            }
            return match parse_code(b, j + 1, close) {
                Some(x) => Some((Some(x), close + 1)),
                None => None,
            };
        }
        if b.len() - j < 4 {
            return None;
        }
        return match parse_code(b, j, j + 4) {
            Some(x) => Some((Some(x), j + 4)),
            None => None,
        };
    } else if '1' <= e && e <= '9' {
        return None;
    }
    Some((Some(e), j))
}

/// Decodes JavaScript string escapes in a quoted literal, or gives `None`
/// for an unterminated literal, an unfinished escape or a legacy octal escape.
pub fn decode_string(raw: &str) -> (r: Option<String>)
    ensures
        match decoded(raw@) {
            Some(t) => r is Some && r->0@ == t,
            None => r is None,
        },
{
    let chars = chars_of(raw);
    if chars.len() < 2 {
        return None;
    }
    let q = chars[0];
    if !((q == '\'' || q == '"' || q == '`') && chars[chars.len() - 1] == q) {
        return None;
    }
    let mut body: Vec<char> = Vec::new();
    let mut k: usize = 1;
    while k < chars.len() - 1
        invariant
            2 <= chars.len(),
            1 <= k <= chars.len() - 1,
            body@ == chars@.subrange(1, k as int),
        decreases chars.len() - 1 - k,
    {
        body.push(chars[k]);
        k += 1;
        assert(body@ =~= chars@.subrange(1, k as int));
    }
    let ghost b = body@;
    assert(b =~= raw@.subrange(1, raw@.len() - 1));
    let mut out: Vec<char> = Vec::new();
    let mut i: usize = 0;
    while i < body.len()
        invariant
            b == body@,
            decoded(raw@) == unescape(b, 0),
            i <= body.len(),
            unescape(b, 0) == match unescape(b, i as int) {
                Some(rest) => Some(out@ + rest),
                None => None::<Seq<char>>,
            },
        decreases body.len() - i,
    {
        let c = body[i];
        if c != '\\' {
            out.push(c);
            i += 1;
            assert(forall|t: Seq<char>| #![auto] (out@.drop_last() + (seq![c] + t)) =~= out@ + t);
        } else {
            match escape_at(&body, i) {
                None => return None,
                Some((w, next)) => {
                    let ghost before = out@;
                    if let Some(x) = w {
                        out.push(x);
                        assert(forall|t: Seq<char>| #![auto] (before + (seq![x] + t)) =~= out@ + t);
                    }
                    i = next;
                },
            }
        }
    }
    assert(out@ + Seq::<char>::empty() =~= out@);
    Some(string_of(&out))
}

/// One import found in a source file.
#[derive(Debug)]
pub struct Import {
    /// The decoded literal, or the first characters of the expression.
    pub specifier: String,
    pub kind: DependencyKind,
    /// Whether the specifier is a decoded string literal.
    pub literal: bool,
}

/// The imports of one file, and whether its syntax tree holds errors.
pub struct Parsed {
    pub imports: Vec<Import>,
    pub has_errors: bool,
}

/// How many characters of a non-literal import expression are kept.
pub const MAX_EXPRESSION_CHARS: usize = 160;

/// The import written by the source text `raw` of an import argument: its
/// decoded value when `literal` (a string, or a template without
/// substitutions) decodes, otherwise its first 160 characters, not literal.
pub fn import_of(raw: &str, literal: bool, kind: DependencyKind) -> (r: Import)
    ensures
        r.kind == kind,
        literal && decoded(raw@) is Some ==> r.literal && r.specifier@ == decoded(raw@)->0,
        !(literal && decoded(raw@) is Some) ==> !r.literal && r.specifier@ == raw@.take(
            if raw@.len() < MAX_EXPRESSION_CHARS { raw@.len() as int } else { MAX_EXPRESSION_CHARS as int },
        ),
{
    if literal {
        match decode_string(raw) {
            Some(s) => {
                return Import { specifier: s, kind, literal: true };
            },
            None => {},
        }
    }
    let cs = chars_of(raw);
    let keep = if cs.len() < MAX_EXPRESSION_CHARS {
        cs.len()
    } else {
        MAX_EXPRESSION_CHARS
    };
    let mut head: Vec<char> = Vec::new();
    let mut i: usize = 0;
    while i < keep
        invariant
            keep <= cs.len(),
            i <= keep,
            cs@ == raw@,
            head@ == raw@.take(i as int),
        decreases keep - i,
    {
        head.push(cs[i]);
        i += 1;
        assert(head@ =~= raw@.take(i as int));
    }
    Import { specifier: string_of(&head), kind, literal: false }
}

/// What `import_of` gives for `raw`: the decoded literal, or the first 160
/// characters of the expression, and whether it is a literal.
pub open spec fn import_text(raw: Seq<char>, literal: bool) -> (Seq<char>, bool) {
    if literal && decoded(raw) is Some {
        (decoded(raw)->0, true)
    } else {
        (raw.take(if raw.len() < MAX_EXPRESSION_CHARS { raw.len() as int } else { MAX_EXPRESSION_CHARS as int }), false)
    }
}

/// The value of an import: specifier, kind, and whether it is a literal.
pub open spec fn import_view(i: Import) -> (Seq<char>, DependencyKind, bool) {
    (i.specifier@, i.kind, i.literal)
}

/// The values of a list of imports.
pub open spec fn imports_view(s: Seq<Import>) -> Seq<(Seq<char>, DependencyKind, bool)> {
    s.map_values(|i: Import| import_view(i))
}

/// Whether some named child is a template substitution.
pub open spec fn has_substitution(children: Seq<SyntaxView>) -> bool {
    exists|i: int| 0 <= i < children.len() && #[trigger] children[i].named && children[i].kind == "template_substitution"@
}

/// The import that the argument node `n` writes, of kind `kind`: a string, or a
/// template without substitutions, is a literal.
pub open spec fn argument_import(n: SyntaxView, kind: DependencyKind) -> (Seq<char>, DependencyKind, bool) {
    let literal = n.kind == "string"@ || (n.kind == "template_string"@ && !has_substitution(n.children));
    let (text, is_literal) = import_text(n.text, literal);
    (text, kind, is_literal)
}

/// The position of the first named child from `k` on that is not a comment.
pub open spec fn first_argument(children: Seq<SyntaxView>, k: int) -> Option<int>
    decreases children.len() - k,
{
    if k < 0 || k >= children.len() {
        None
    } else if children[k].named && children[k].kind != "comment"@ {
        Some(k)
    } else {
        first_argument(children, k + 1)
    }
}

/// The import that the child filling `field` writes, if there is such a child.
pub open spec fn field_import(n: SyntaxView, field: Seq<char>, kind: DependencyKind) -> Seq<(Seq<char>, DependencyKind, bool)> {
    match field_of(n.children, field) {
        Some(i) => if 0 <= i < n.children.len() {
            seq![argument_import(n.children[i], kind)]
        } else {
            Seq::empty()
        },
        None => Seq::empty(),
    }
}

/// The kind of import a call to `function` makes: `import(..)` is dynamic,
/// `require(..)` a require, anything else none.
pub open spec fn call_kind(function: SyntaxView) -> Option<DependencyKind> {
    if function.kind == "import"@ {
        Some(DependencyKind::Dynamic)
    } else if function.kind == "identifier"@ && function.text == "require"@ {
        Some(DependencyKind::Require)
    } else {
        None
    }
}

/// The import that one node itself writes, if it is an import site.
pub open spec fn site_imports(n: SyntaxView) -> Seq<(Seq<char>, DependencyKind, bool)> {
    if n.kind == "import_statement"@ {
        field_import(n, "source"@, DependencyKind::Static)
    } else if n.kind == "export_statement"@ {
        field_import(n, "source"@, DependencyKind::Export)
    } else if n.kind == "import_require_clause"@ {
        field_import(n, "source"@, DependencyKind::Require)
    } else if n.kind == "call_expression"@ {
        match field_of(n.children, "function"@) {
            Some(f) => if 0 <= f < n.children.len() {
                match call_kind(n.children[f]) {
                    Some(kind) => match field_of(n.children, "arguments"@) {
                        Some(a) => if 0 <= a < n.children.len() {
                            let args = n.children[a];
                            match first_argument(args.children, 0) {
                                Some(j) => if 0 <= j < args.children.len() {
                                    seq![argument_import(args.children[j], kind)]
                                } else {
                                    Seq::empty()
                                },
                                None => Seq::empty(),
                            }
                        } else {
                            Seq::empty()
                        },
                        None => Seq::empty(),
                    },
                    None => Seq::empty(),
                }
            } else {
                Seq::empty()
            },
            None => Seq::empty(),
        }
    } else {
        Seq::empty()
    }
}

/// The imports of a tree, node before children, in source order.
pub open spec fn tree_imports(n: SyntaxView) -> Seq<(Seq<char>, DependencyKind, bool)>
    decreases n,
{
    site_imports(n) + tree_imports_list(n.children)
}

/// The imports of a list of trees, in order.
pub open spec fn tree_imports_list(children: Seq<SyntaxView>) -> Seq<(Seq<char>, DependencyKind, bool)>
    decreases children,
{
    if children.len() == 0 {
        Seq::empty()
    } else {
        tree_imports_list(children.drop_last()) + tree_imports(children.last())
    }
}

/// The import that the argument node writes.
fn argument_of(node: &SyntaxNode, kind: DependencyKind) -> (r: Import)
    ensures
        import_view(r) == argument_import(node@, kind),
{
    proof {
        lemma_views_of(node.children@);
    }
    let mut literal = node.is_kind("string");
    if !literal && node.is_kind("template_string") {
        let mut substituted = false;
        let mut i: usize = 0;
        while i < node.children.len()
            invariant
                i <= node.children@.len(),
                node@.children == views_of(node.children@),
                views_of(node.children@).len() == node.children@.len(),
                forall|j: int| 0 <= j < node.children@.len() ==> #[trigger] views_of(node.children@)[j] == syntax_view(node.children@[j]),
                substituted == exists|j: int| 0 <= j < i && #[trigger] node@.children[j].named && node@.children[j].kind == "template_substitution"@,
            decreases node.children@.len() - i,
        {
            let hit = node.children[i].named && node.children[i].is_kind("template_substitution");
            proof {
                assert(hit == (node@.children[i as int].named && node@.children[i as int].kind == "template_substitution"@));
            }
            if hit {
                substituted = true;
            }
            i += 1;
        }
        literal = !substituted;
    }
    import_of(node.text.as_str(), literal, kind)
}

/// The import that the child filling `field` writes.
fn push_field_import(out: &mut Vec<Import>, node: &SyntaxNode, field: &str, kind: DependencyKind)
    ensures
        imports_view(final(out)@) == imports_view(old(out)@) + field_import(node@, field@, kind),
{
    proof {
        lemma_views_of(node.children@);
    }
    if let Some(i) = node.field_child(field) {
        let imp = argument_of(&node.children[i], kind);
        out.push(imp);
        assert(imports_view(out@) =~= imports_view(old(out)@) + field_import(node@, field@, kind));
    } else {
        assert(imports_view(out@) =~= imports_view(old(out)@) + field_import(node@, field@, kind));
    }
}

/// Appends the import that one node itself writes.
fn push_site_imports(out: &mut Vec<Import>, node: &SyntaxNode)
    ensures
        imports_view(final(out)@) == imports_view(old(out)@) + site_imports(node@),
{
    proof {
        lemma_views_of(node.children@);
    }
    if node.is_kind("import_statement") {
        push_field_import(out, node, "source", DependencyKind::Static);
    } else if node.is_kind("export_statement") {
        push_field_import(out, node, "source", DependencyKind::Export);
    } else if node.is_kind("import_require_clause") {
        push_field_import(out, node, "source", DependencyKind::Require);
    } else if node.is_kind("call_expression") {
        assert(imports_view(out@) =~= imports_view(old(out)@) + Seq::empty());
        let f = match node.field_child("function") {
            Some(f) => f,
            None => {
                return;
            },
        };
        let function = &node.children[f];
        let kind = if function.is_kind("import") {
            DependencyKind::Dynamic
        } else if function.is_kind("identifier") && str_eq(function.text.as_str(), "require") {
            DependencyKind::Require
        } else {
            return;
        };
        let a = match node.field_child("arguments") {
            Some(a) => a,
            None => {
                return;
            },
        };
        let args = &node.children[a];
        proof {
            lemma_views_of(args.children@);
        }
        let mut j: usize = 0;
        while j < args.children.len() && !(args.children[j].named && !args.children[j].is_kind("comment"))
            invariant
                j <= args.children@.len(),
                args@.children == views_of(args.children@),
                views_of(args.children@).len() == args.children@.len(),
                forall|k: int| 0 <= k < args.children@.len() ==> #[trigger] views_of(args.children@)[k] == syntax_view(args.children@[k]),
                first_argument(args@.children, 0) == first_argument(args@.children, j as int),
            decreases args.children@.len() - j,
        {
            j += 1;
        }
        if j < args.children.len() {
            let imp = argument_of(&args.children[j], kind);
            out.push(imp);
            assert(imports_view(out@) =~= imports_view(old(out)@) + site_imports(node@));
        }
    } else {
        assert(imports_view(out@) =~= imports_view(old(out)@) + Seq::empty());
    }
}

/// The imports of the trees on a stack, the top one first.
pub open spec fn stack_imports(st: Seq<SyntaxView>) -> Seq<(Seq<char>, DependencyKind, bool)>
    decreases st.len(),
{
    if st.len() == 0 {
        Seq::empty()
    } else {
        tree_imports(st.last()) + stack_imports(st.drop_last())
    }
}

/// The imports of two lists of trees, one after the other.
pub proof fn lemma_imports_concat(a: Seq<SyntaxView>, b: Seq<SyntaxView>)
    ensures
        tree_imports_list(a + b) == tree_imports_list(a) + tree_imports_list(b),
    decreases b.len(),
{
    if b.len() == 0 {
        assert(a + b =~= a);
        assert(tree_imports_list(a) + Seq::empty() =~= tree_imports_list(a));
    } else {
        lemma_imports_concat(a, b.drop_last());
        assert((a + b).drop_last() =~= a + b.drop_last());
        assert(tree_imports_list(a + b) =~= tree_imports_list(a) + tree_imports_list(b));
    }
}

/// Appends the imports of a tree, node before children, keeping the nodes
/// still to visit on a stack rather than recursing.
fn push_tree_imports(out: &mut Vec<Import>, root: &SyntaxNode)
    ensures
        imports_view(final(out)@) == imports_view(old(out)@) + tree_imports(root@),
{
    let mut stack: Vec<&SyntaxNode> = Vec::new();
    stack.push(root);
    proof {
        assert(refs_view(stack@) =~= seq![root@]);
        assert(seq![root@].drop_last() =~= Seq::<SyntaxView>::empty());
        assert(seq![root@].last() == root@);
        assert(stack_imports(Seq::<SyntaxView>::empty()) =~= Seq::empty());
        assert(tree_imports(root@) + Seq::empty() =~= tree_imports(root@));
        assert(stack_imports(refs_view(stack@)) =~= tree_imports(root@));
    }
    while stack.len() > 0
        invariant
            imports_view(out@) + stack_imports(refs_view(stack@)) == imports_view(old(out)@) + tree_imports(root@),
        decreases crate::syntax::forest_size(refs_view(stack@)),
    {
        let ghost before = stack@;
        let ghost start = imports_view(out@);
        let node = stack.pop().unwrap();
        let ghost rest = stack@;
        proof {
            lemma_views_of(node.children@);
            assert(before.drop_last() =~= rest);
            assert(refs_view(before).drop_last() =~= refs_view(rest));
            assert(refs_view(before).last() == node@);
        }
        push_site_imports(out, node);
        let ghost kids = node@.children;
        let mut k: usize = node.children.len();
        assert(kids.subrange(k as int, kids.len() as int) =~= Seq::<SyntaxView>::empty());
        assert(refs_view(stack@) =~= refs_view(rest) + Seq::empty());
        while k > 0
            invariant
                k <= node.children@.len(),
                kids == node@.children,
                kids == views_of(node.children@),
                kids.len() == node.children@.len(),
                forall|j: int| 0 <= j < node.children@.len() ==> #[trigger] views_of(node.children@)[j] == syntax_view(node.children@[j]),
                stack_imports(refs_view(stack@)) == tree_imports_list(kids.subrange(k as int, kids.len() as int)) + stack_imports(refs_view(rest)),
                crate::syntax::forest_size(refs_view(stack@)) == crate::syntax::forest_size(refs_view(rest)) + crate::syntax::forest_size(kids.subrange(k as int, kids.len() as int)),
            decreases k,
        {
            k -= 1;
            let ghost st = stack@;
            stack.push(&node.children[k]);
            proof {
                let c = kids[k as int];
                let tail = kids.subrange(k + 1, kids.len() as int);
                assert(refs_view(stack@) =~= refs_view(st).push(c));
                assert(refs_view(stack@).drop_last() =~= refs_view(st));
                assert(kids.subrange(k as int, kids.len() as int) =~= seq![c] + tail);
                lemma_imports_concat(seq![c], tail);
                assert(seq![c].drop_last() =~= Seq::<SyntaxView>::empty());
                assert(seq![c].last() == c);
                assert(tree_imports_list(Seq::<SyntaxView>::empty()) =~= Seq::empty());
                assert(tree_imports_list(seq![c]) =~= tree_imports(c));
                crate::syntax::lemma_forest_concat(seq![c], tail);
                assert(crate::syntax::forest_size(Seq::<SyntaxView>::empty()) == 0);
                assert(crate::syntax::forest_size(seq![c]) == crate::syntax::tree_size(c));
            }
        }
        proof {
            assert(kids.subrange(0, kids.len() as int) =~= kids);
            assert(tree_imports(node@) == site_imports(node@) + tree_imports_list(kids));
            let rb = refs_view(before);
            assert(crate::syntax::forest_size(rb) == crate::syntax::forest_size(refs_view(rest)) + crate::syntax::tree_size(node@));
            assert(crate::syntax::tree_size(node@) == 1 + crate::syntax::forest_size(kids));
            assert(stack_imports(rb) == tree_imports(node@) + stack_imports(refs_view(rest)));
            assert(imports_view(out@) + stack_imports(refs_view(stack@)) =~= start + stack_imports(rb));
        }
    }
    assert(refs_view(stack@) =~= Seq::<SyntaxView>::empty());
}

/// The imports of a JavaScript or TypeScript syntax tree, in source order, and
/// whether the tree holds errors.
pub fn js_imports(tree: &SyntaxNode) -> (r: Parsed)
    ensures
        imports_view(r.imports@) == tree_imports(tree@),
        r.has_errors == tree@.has_error,
{
    let mut imports: Vec<Import> = Vec::new();
    assert(imports_view(imports@) =~= Seq::empty());
    push_tree_imports(&mut imports, tree);
    assert(imports_view(imports@) =~= tree_imports(tree@));
    Parsed { imports, has_errors: tree.has_error }
}

/// The grammar a file extension is parsed with: `ts`, `mts`, `cts` TypeScript,
/// `tsx` TSX, any other JavaScript.
pub open spec fn script_syntax(extension: Seq<char>, source: Seq<char>) -> SyntaxView {
    if extension == "ts"@ || extension == "mts"@ || extension == "cts"@ {
        typescript_syntax(source)
    } else if extension == "tsx"@ {
        tsx_syntax(source)
    } else {
        javascript_syntax(source)
    }
}

/// Parses a JavaScript or TypeScript source with the grammar its extension
/// names and gives its imports; the parser always gives a tree.
pub fn parse_script(extension: &str, source: &str) -> (r: Result<Parsed, &'static str>)
    ensures
        r matches Ok(p) ==> imports_view(p.imports@) == tree_imports(script_syntax(extension@, source@))
            && p.has_errors == script_syntax(extension@, source@).has_error,
        r is Ok,
{
    let tree = if str_eq(extension, "ts") || str_eq(extension, "mts") || str_eq(extension, "cts") {
        parse_typescript(source)
    } else if str_eq(extension, "tsx") {
        parse_tsx(source)
    } else {
        parse_javascript(source)
    };
    match tree {
        Some(t) => {
            let parsed = js_imports(&t);
            crate::syntax::dispose(t);
            Ok(parsed)
        },
        None => Err("解析被中止。"),
    }
}

/// The node reached from `t` by following the child positions of `path`.
pub open spec fn node_at(t: SyntaxView, path: Seq<int>) -> Option<SyntaxView>
    decreases path.len(),
{
    if path.len() == 0 {
        Some(t)
    } else if 0 <= path[0] < t.children.len() {
        node_at(t.children[path[0]], path.drop_first())
    } else {
        None
    }
}

/// Every import of one of the trees is an import of the list.
proof fn lemma_list_holds(c: Seq<SyntaxView>, i: int, x: (Seq<char>, DependencyKind, bool))
    requires
        0 <= i < c.len(),
        tree_imports(c[i]).contains(x),
    ensures
        tree_imports_list(c).contains(x),
    decreases c.len(),
{
    if i == c.len() - 1 {
        let k = choose|k: int| 0 <= k < tree_imports(c[i]).len() && tree_imports(c[i])[k] == x;
        let l = tree_imports_list(c.drop_last());
        assert((l + tree_imports(c.last()))[l.len() + k] == x);
    } else {
        assert(c.drop_last()[i] == c[i]);
        lemma_list_holds(c.drop_last(), i, x);
        let k = choose|k: int| 0 <= k < tree_imports_list(c.drop_last()).len() && tree_imports_list(c.drop_last())[k] == x;
        assert(tree_imports_list(c)[k] == x);
    }
}

/// Every import that a node of a tree writes is an import of the tree.
pub proof fn lemma_node_imports(t: SyntaxView, path: Seq<int>, n: SyntaxView, x: (Seq<char>, DependencyKind, bool))
    requires
        node_at(t, path) == Some(n),
        site_imports(n).contains(x),
    ensures
        tree_imports(t).contains(x),
    decreases path.len(),
{
    if path.len() == 0 {
        let k = choose|k: int| 0 <= k < site_imports(n).len() && site_imports(n)[k] == x;
        assert(tree_imports(t)[k] == x);
    } else {
        let i = path[0];
        lemma_node_imports(t.children[i], path.drop_first(), n, x);
        lemma_list_holds(t.children, i, x);
        let k = choose|k: int| 0 <= k < tree_imports_list(t.children).len() && tree_imports_list(t.children)[k] == x;
        assert(tree_imports(t)[site_imports(t).len() + k] == x);
    }
}

/// Law: a TypeScript `import x = require('<literal>')` anywhere in the tree
/// yields an import of that literal's value, of kind `Require`, marked literal.
pub proof fn law_import_require_is_read(tree: SyntaxView, path: Seq<int>, n: SyntaxView, c: int, value: Seq<char>)
    requires
        node_at(tree, path) == Some(n),
        n.kind == "import_require_clause"@,
        field_of(n.children, "source"@) == Some(c),
        0 <= c < n.children.len(),
        n.children[c].kind == "string"@,
        decoded(n.children[c].text) == Some(value),
    ensures
        tree_imports(tree).contains((value, DependencyKind::Require, true)),
{
    reveal_strlit("import_require_clause");
    reveal_strlit("import_statement");
    reveal_strlit("export_statement");
    assert(n.kind.len() != "import_statement"@.len());
    assert(n.kind.len() != "export_statement"@.len());
    assert(site_imports(n) == seq![argument_import(n.children[c], DependencyKind::Require)]);
    assert(site_imports(n)[0] == (value, DependencyKind::Require, true));
    lemma_node_imports(tree, path, n, (value, DependencyKind::Require, true));
}

/// Law: every `import ... from '<literal>'` and `export ... from '<literal>'`
/// anywhere in the tree yields an import of that literal's value, static for
/// an import and a re-export for an export, marked literal.
pub proof fn law_import_and_export_sources_are_read(tree: SyntaxView, path: Seq<int>, n: SyntaxView, c: int, value: Seq<char>)
    requires
        node_at(tree, path) == Some(n),
        n.kind == "import_statement"@ || n.kind == "export_statement"@,
        field_of(n.children, "source"@) == Some(c),
        0 <= c < n.children.len(),
        n.children[c].kind == "string"@,
        decoded(n.children[c].text) == Some(value),
    ensures
        n.kind == "import_statement"@ ==> tree_imports(tree).contains((value, DependencyKind::Static, true)),
        n.kind == "export_statement"@ ==> tree_imports(tree).contains((value, DependencyKind::Export, true)),
{
    reveal_strlit("import_statement");
    reveal_strlit("export_statement");
    if n.kind == "import_statement"@ {
        assert(n.kind[0] == 'i');
        assert("export_statement"@[0] == 'e');
        assert(n.kind != "export_statement"@);
        assert(site_imports(n)[0] == (value, DependencyKind::Static, true));
        lemma_node_imports(tree, path, n, (value, DependencyKind::Static, true));
    } else {
        assert(n.kind != "import_statement"@);
        assert(site_imports(n)[0] == (value, DependencyKind::Export, true));
        lemma_node_imports(tree, path, n, (value, DependencyKind::Export, true));
    }
}

/// Law: `import('<literal>')` and `require('<literal>')` calls anywhere in the
/// tree yield an import of the literal's value, dynamic or require, marked
/// literal; comments before the argument are skipped.
pub proof fn law_calls_are_read(tree: SyntaxView, path: Seq<int>, n: SyntaxView, f: int, a: int, j: int, value: Seq<char>)
    requires
        node_at(tree, path) == Some(n),
        n.kind == "call_expression"@,
        field_of(n.children, "function"@) == Some(f),
        0 <= f < n.children.len(),
        n.children[f].kind == "import"@ || (n.children[f].kind == "identifier"@ && n.children[f].text == "require"@),
        field_of(n.children, "arguments"@) == Some(a),
        0 <= a < n.children.len(),
        0 <= j < n.children[a].children.len(),
        first_argument(n.children[a].children, 0) == Some(j),
        n.children[a].children[j].kind == "string"@,
        decoded(n.children[a].children[j].text) == Some(value),
    ensures
        n.children[f].kind == "import"@ ==> tree_imports(tree).contains((value, DependencyKind::Dynamic, true)),
        n.children[f].kind != "import"@ ==> tree_imports(tree).contains((value, DependencyKind::Require, true)),
{
    reveal_strlit("call_expression");
    reveal_strlit("import_statement");
    reveal_strlit("export_statement");
    reveal_strlit("import_require_clause");
    assert(n.kind.len() != "import_statement"@.len());
    assert(n.kind.len() != "export_statement"@.len());
    assert(n.kind.len() != "import_require_clause"@.len());
    let kind = if n.children[f].kind == "import"@ { DependencyKind::Dynamic } else { DependencyKind::Require };
    assert(site_imports(n)[0] == (value, kind, true));
    lemma_node_imports(tree, path, n, (value, kind, true));
}

} // verus!
