//! What a scan keeps: supported extensions, excluded directories, bounded warnings.
use vstd::prelude::*;
use crate::text_util::{chars_of, push_char, string_of, views};

verus! {

/// How many warnings are shown before further ones are only counted.
pub const MAX_WARNINGS: usize = 300;

/// The largest source file that is read, in bytes.
pub const MAX_FILE_BYTES: u64 = 2097152;

/// The most source bytes read in one analysis.
pub const MAX_TOTAL_BYTES: u64 = 134217728;

/// The most modules in one analysis.
pub const MAX_FILES: usize = 10000;

/// The most directory entries visited in one scan.
pub const MAX_ENTRIES: usize = 200000;

/// The character of a decimal digit.
pub open spec fn digit_char(d: int) -> char {
    (48 + d) as char
}

/// The decimal notation of `n`.
pub open spec fn decimal(n: nat) -> Seq<char>
    decreases n,
{
    if n < 10 {
        seq![digit_char(n as int)]
    } else {
        decimal(n / 10).push(digit_char((n % 10) as int))
    }
}

/// The decimal notation of `n`, as characters.
pub fn decimal_chars(n: usize) -> (r: Vec<char>)
    ensures
        r@ == decimal(n as nat),
    decreases n,
{
    let d = (n % 10) as u8;
    let c = (48u8 + d) as char;
    if n < 10 {
        vec![c]
    } else {
        let mut r = decimal_chars(n / 10);
        r.push(c);
        r
    }
}

/// The text of the closing line that counts the warnings not shown.
pub open spec fn omitted_line(n: nat) -> Seq<char> {
    "另有 "@ + decimal(n) + " 条同类警告未显示。"@
}

/// The warnings of one analysis: the first few in full, the rest counted.
pub struct Warnings {
    messages: Vec<String>,
    suppressed: usize,
}

/// What a `Warnings` holds: the kept messages and how many were dropped.
pub struct WarningsView {
    pub messages: Seq<Seq<char>>,
    pub suppressed: nat,
}

impl View for Warnings {
    type V = WarningsView;

    closed spec fn view(&self) -> WarningsView {
        WarningsView {
            messages: self.messages@.map_values(|m: String| m@),
            suppressed: self.suppressed as nat,
        }
    }
}

impl Warnings {
    /// No warnings yet.
    pub fn new() -> (r: Self)
        ensures
            r@.messages == Seq::<Seq<char>>::empty(),
            r@.suppressed == 0,
    {
        let r = Warnings { messages: Vec::new(), suppressed: 0 };
        assert(r@.messages =~= Seq::<Seq<char>>::empty());
        r
    }

    /// The number of warnings kept or counted so far.
    pub open spec fn total(&self) -> nat {
        self@.messages.len() + self@.suppressed
    }

    /// Records a warning: kept while fewer than `MAX_WARNINGS` are kept, counted otherwise.
    pub fn push(&mut self, warning: String)
        requires
            old(self)@.suppressed < usize::MAX,
        ensures
            old(self)@.messages.len() < MAX_WARNINGS ==> final(self)@.messages == old(
                self,
            )@.messages.push(warning@) && final(self)@.suppressed == old(self)@.suppressed,
            old(self)@.messages.len() >= MAX_WARNINGS ==> final(self)@.messages == old(
                self,
            )@.messages && final(self)@.suppressed == old(self)@.suppressed + 1,
            final(self).total() == old(self).total() + 1,
            old(self)@.messages.len() <= MAX_WARNINGS ==> final(self)@.messages.len() <= MAX_WARNINGS,
            pushed_once(old(self)@, warning@, final(self)@),
    {
        if self.messages.len() < MAX_WARNINGS {
            let ghost before = self.messages@;
            self.messages.push(warning);
            proof {
                assert(self.messages@.map_values(|m: String| m@) =~= before.map_values(
                    |m: String| m@,
                ).push(warning@));
            }
        } else {
            self.suppressed = self.suppressed + 1;
        }
    }

    /// The warnings to show: the kept ones, then a line with the number left out, if any.
    pub fn finish(self) -> (r: Vec<String>)
        ensures
            self@.suppressed == 0 ==> r@.map_values(|m: String| m@) == self@.messages,
            self@.suppressed > 0 ==> r@.map_values(|m: String| m@) == self@.messages.push(
                omitted_line(self@.suppressed),
            ),
    {
        let mut messages = self.messages;
        if self.suppressed > 0 {
            let mut line = "另有 ".to_string();
            let digits = decimal_chars(self.suppressed);
            let tail = chars_of(" 条同类警告未显示。");
            let mut i: usize = 0;
            while i < digits.len()
                invariant
                    i <= digits.len(),
                    line@ == "另有 "@ + digits@.take(i as int),
                decreases digits.len() - i,
            {
                push_char(&mut line, digits[i]);
                i += 1;
                assert(line@ =~= "另有 "@ + digits@.take(i as int));
            }
            assert(digits@.take(digits.len() as int) =~= digits@);
            let mut k: usize = 0;
            while k < tail.len()
                invariant
                    k <= tail.len(),
                    tail@ == " 条同类警告未显示。"@,
                    line@ == "另有 "@ + digits@ + tail@.take(k as int),
                decreases tail.len() - k,
            {
                push_char(&mut line, tail[k]);
                k += 1;
                assert(line@ =~= "另有 "@ + digits@ + tail@.take(k as int));
            }
            assert(tail@.take(tail.len() as int) =~= tail@);
            let ghost before = messages@;
            messages.push(line);
            proof {
                assert(messages@.map_values(|m: String| m@) =~= before.map_values(
                    |m: String| m@,
                ).push(omitted_line(self.suppressed as nat)));
            }
        }
        messages
    }
}

/// Lower-case ASCII letters, other characters unchanged.
pub open spec fn ascii_lower_char(c: char) -> char {
    if 'A' <= c && c <= 'Z' {
        ((c as int) + 32) as char
    } else {
        c
    }
}

/// `str::to_ascii_lowercase`.
pub open spec fn ascii_lower(s: Seq<char>) -> Seq<char> {
    s.map_values(|c: char| ascii_lower_char(c))
}

/// The text with ASCII letters in lower case.
pub fn to_ascii_lower(s: &str) -> (r: String)
    ensures
        r@ == ascii_lower(s@),
{
    let cs = chars_of(s);
    let mut out: Vec<char> = Vec::new();
    let mut i: usize = 0;
    while i < cs.len()
        invariant
            i <= cs.len(),
            cs@ == s@,
            out@ == ascii_lower(s@).take(i as int),
        decreases cs.len() - i,
    {
        let c = cs[i];
        let l = if 'A' <= c && c <= 'Z' {
            ((c as u32) + 32) as u8 as char
        } else {
            c
        };
        out.push(l);
        i += 1;
        assert(out@ =~= ascii_lower(s@).take(i as int));
    }
    assert(ascii_lower(s@).take(cs.len() as int) =~= ascii_lower(s@));
    string_of(&out)
}

/// The same path with every backslash turned into a slash.
pub open spec fn slashed(s: Seq<char>) -> Seq<char> {
    s.map_values(|c: char| if c == '\\' { '/' } else { c })
}

/// A scanned relative path written with forward slashes only.
pub fn slash_path(s: &str) -> (r: String)
    ensures
        r@ == slashed(s@),
{
    let cs = chars_of(s);
    let mut out: Vec<char> = Vec::new();
    let mut i: usize = 0;
    while i < cs.len()
        invariant
            i <= cs.len(),
            cs@ == s@,
            out@ == slashed(s@).take(i as int),
        decreases cs.len() - i,
    {
        let c = cs[i];
        out.push(if c == '\\' { '/' } else { c });
        i += 1;
        assert(out@ =~= slashed(s@).take(i as int));
    }
    assert(slashed(s@).take(cs.len() as int) =~= slashed(s@));
    string_of(&out)
}

/// The extensions of the source files an analysis reads.
pub open spec fn source_extensions() -> Seq<Seq<char>> {
    seq![
        seq!['t', 's'],
        seq!['t', 's', 'x'],
        seq!['j', 's'],
        seq!['j', 's', 'x'],
        seq!['m', 'j', 's'],
        seq!['c', 'j', 's'],
        seq!['m', 't', 's'],
        seq!['c', 't', 's'],
        seq!['j', 'a', 'v', 'a'],
        seq!['p', 'y'],
        seq!['p', 'y', 'i'],
        seq!['c'],
        seq!['h'],
        seq!['c', 'c'],
        seq!['c', 'p', 'p'],
        seq!['c', 'x', 'x'],
        seq!['h', 'p', 'p'],
        seq!['h', 'h'],
        seq!['h', 'x', 'x'],
        seq!['i', 'n', 'l'],
        seq!['i', 'p', 'p'],
        seq!['g', 'o'],
        seq!['r', 's'],
        seq!['c', 's']
    ]
}

fn source_extensions_list() -> (r: Vec<Vec<char>>)
    ensures
        views(r@) == source_extensions(),
{
    let r = vec![
        vec!['t', 's'],
        vec!['t', 's', 'x'],
        vec!['j', 's'],
        vec!['j', 's', 'x'],
        vec!['m', 'j', 's'],
        vec!['c', 'j', 's'],
        vec!['m', 't', 's'],
        vec!['c', 't', 's'],
        vec!['j', 'a', 'v', 'a'],
        vec!['p', 'y'],
        vec!['p', 'y', 'i'],
        vec!['c'],
        vec!['h'],
        vec!['c', 'c'],
        vec!['c', 'p', 'p'],
        vec!['c', 'x', 'x'],
        vec!['h', 'p', 'p'],
        vec!['h', 'h'],
        vec!['h', 'x', 'x'],
        vec!['i', 'n', 'l'],
        vec!['i', 'p', 'p'],
        vec!['g', 'o'],
        vec!['r', 's'],
        vec!['c', 's']
    ];
    assert(r@[0]@ =~= seq!['t', 's']);
    assert(r@[1]@ =~= seq!['t', 's', 'x']);
    assert(r@[2]@ =~= seq!['j', 's']);
    assert(r@[3]@ =~= seq!['j', 's', 'x']);
    assert(r@[4]@ =~= seq!['m', 'j', 's']);
    assert(r@[5]@ =~= seq!['c', 'j', 's']);
    assert(r@[6]@ =~= seq!['m', 't', 's']);
    assert(r@[7]@ =~= seq!['c', 't', 's']);
    assert(r@[8]@ =~= seq!['j', 'a', 'v', 'a']);
    assert(r@[9]@ =~= seq!['p', 'y']);
    assert(r@[10]@ =~= seq!['p', 'y', 'i']);
    assert(r@[11]@ =~= seq!['c']);
    assert(r@[12]@ =~= seq!['h']);
    assert(r@[13]@ =~= seq!['c', 'c']);
    assert(r@[14]@ =~= seq!['c', 'p', 'p']);
    assert(r@[15]@ =~= seq!['c', 'x', 'x']);
    assert(r@[16]@ =~= seq!['h', 'p', 'p']);
    assert(r@[17]@ =~= seq!['h', 'h']);
    assert(r@[18]@ =~= seq!['h', 'x', 'x']);
    assert(r@[19]@ =~= seq!['i', 'n', 'l']);
    assert(r@[20]@ =~= seq!['i', 'p', 'p']);
    assert(r@[21]@ =~= seq!['g', 'o']);
    assert(r@[22]@ =~= seq!['r', 's']);
    assert(r@[23]@ =~= seq!['c', 's']);
    assert(views(r@) =~= source_extensions());
    r
}

/// Directories a scan never enters, compared without regard to ASCII case.
pub open spec fn excluded_directories() -> Seq<Seq<char>> {
    seq![
        seq!['.', 'g', 'i', 't'],
        seq!['n', 'o', 'd', 'e', '_', 'm', 'o', 'd', 'u', 'l', 'e', 's'],
        seq!['d', 'i', 's', 't'],
        seq!['b', 'u', 'i', 'l', 'd'],
        seq!['o', 'u', 't'],
        seq!['t', 'a', 'r', 'g', 'e', 't'],
        seq!['.', 'n', 'e', 'x', 't'],
        seq!['c', 'o', 'v', 'e', 'r', 'a', 'g', 'e'],
        seq!['.', 'c', 'a', 'c', 'h', 'e'],
        seq!['.', 't', 'o', 'o', 'l', 's'],
        seq!['.', 't', 'm', 'p'],
        seq!['.', 't', 'u', 'r', 'b', 'o'],
        seq!['.', 'n', 'u', 'x', 't'],
        seq!['.', 'o', 'u', 't', 'p', 'u', 't'],
        seq!['v', 'e', 'n', 'd', 'o', 'r'],
        seq!['r', 'e', 'l', 'e', 'a', 's', 'e'],
        seq!['.', 'v', 'e', 'n', 'v'],
        seq!['v', 'e', 'n', 'v'],
        seq!['b', 'o', 'w', 'e', 'r', '_', 'c', 'o', 'm', 'p', 'o', 'n', 'e', 'n', 't', 's'],
        seq!['.', 'p', 'a', 'r', 'c', 'e', 'l', '-', 'c', 'a', 'c', 'h', 'e'],
        seq!['_', '_', 'p', 'y', 'c', 'a', 'c', 'h', 'e', '_', '_'],
        seq!['.', 'm', 'y', 'p', 'y', '_', 'c', 'a', 'c', 'h', 'e'],
        seq!['.', 'p', 'y', 't', 'e', 's', 't', '_', 'c', 'a', 'c', 'h', 'e'],
        seq!['.', 'r', 'u', 'f', 'f', '_', 'c', 'a', 'c', 'h', 'e'],
        seq!['.', 'g', 'r', 'a', 'd', 'l', 'e'],
        seq!['.', 'i', 'd', 'e', 'a'],
        seq!['.', 'v', 's'],
        seq!['o', 'b', 'j']
    ]
}

fn excluded_directories_list() -> (r: Vec<Vec<char>>)
    ensures
        views(r@) == excluded_directories(),
{
    let r = vec![
        vec!['.', 'g', 'i', 't'],
        vec!['n', 'o', 'd', 'e', '_', 'm', 'o', 'd', 'u', 'l', 'e', 's'],
        vec!['d', 'i', 's', 't'],
        vec!['b', 'u', 'i', 'l', 'd'],
        vec!['o', 'u', 't'],
        vec!['t', 'a', 'r', 'g', 'e', 't'],
        vec!['.', 'n', 'e', 'x', 't'],
        vec!['c', 'o', 'v', 'e', 'r', 'a', 'g', 'e'],
        vec!['.', 'c', 'a', 'c', 'h', 'e'],
        vec!['.', 't', 'o', 'o', 'l', 's'],
        vec!['.', 't', 'm', 'p'],
        vec!['.', 't', 'u', 'r', 'b', 'o'],
        vec!['.', 'n', 'u', 'x', 't'],
        vec!['.', 'o', 'u', 't', 'p', 'u', 't'],
        vec!['v', 'e', 'n', 'd', 'o', 'r'],
        vec!['r', 'e', 'l', 'e', 'a', 's', 'e'],
        vec!['.', 'v', 'e', 'n', 'v'],
        vec!['v', 'e', 'n', 'v'],
        vec!['b', 'o', 'w', 'e', 'r', '_', 'c', 'o', 'm', 'p', 'o', 'n', 'e', 'n', 't', 's'],
        vec!['.', 'p', 'a', 'r', 'c', 'e', 'l', '-', 'c', 'a', 'c', 'h', 'e'],
        vec!['_', '_', 'p', 'y', 'c', 'a', 'c', 'h', 'e', '_', '_'],
        vec!['.', 'm', 'y', 'p', 'y', '_', 'c', 'a', 'c', 'h', 'e'],
        vec!['.', 'p', 'y', 't', 'e', 's', 't', '_', 'c', 'a', 'c', 'h', 'e'],
        vec!['.', 'r', 'u', 'f', 'f', '_', 'c', 'a', 'c', 'h', 'e'],
        vec!['.', 'g', 'r', 'a', 'd', 'l', 'e'],
        vec!['.', 'i', 'd', 'e', 'a'],
        vec!['.', 'v', 's'],
        vec!['o', 'b', 'j']
    ];
    assert(r@[0]@ =~= seq!['.', 'g', 'i', 't']);
    assert(r@[1]@ =~= seq!['n', 'o', 'd', 'e', '_', 'm', 'o', 'd', 'u', 'l', 'e', 's']);
    assert(r@[2]@ =~= seq!['d', 'i', 's', 't']);
    assert(r@[3]@ =~= seq!['b', 'u', 'i', 'l', 'd']);
    assert(r@[4]@ =~= seq!['o', 'u', 't']);
    assert(r@[5]@ =~= seq!['t', 'a', 'r', 'g', 'e', 't']);
    assert(r@[6]@ =~= seq!['.', 'n', 'e', 'x', 't']);
    assert(r@[7]@ =~= seq!['c', 'o', 'v', 'e', 'r', 'a', 'g', 'e']);
    assert(r@[8]@ =~= seq!['.', 'c', 'a', 'c', 'h', 'e']);
    assert(r@[9]@ =~= seq!['.', 't', 'o', 'o', 'l', 's']);
    assert(r@[10]@ =~= seq!['.', 't', 'm', 'p']);
    assert(r@[11]@ =~= seq!['.', 't', 'u', 'r', 'b', 'o']);
    assert(r@[12]@ =~= seq!['.', 'n', 'u', 'x', 't']);
    assert(r@[13]@ =~= seq!['.', 'o', 'u', 't', 'p', 'u', 't']);
    assert(r@[14]@ =~= seq!['v', 'e', 'n', 'd', 'o', 'r']);
    assert(r@[15]@ =~= seq!['r', 'e', 'l', 'e', 'a', 's', 'e']);
    assert(r@[16]@ =~= seq!['.', 'v', 'e', 'n', 'v']);
    assert(r@[17]@ =~= seq!['v', 'e', 'n', 'v']);
    assert(r@[18]@ =~= seq!['b', 'o', 'w', 'e', 'r', '_', 'c', 'o', 'm', 'p', 'o', 'n', 'e', 'n', 't', 's']);
    assert(r@[19]@ =~= seq!['.', 'p', 'a', 'r', 'c', 'e', 'l', '-', 'c', 'a', 'c', 'h', 'e']);
    assert(r@[20]@ =~= seq!['_', '_', 'p', 'y', 'c', 'a', 'c', 'h', 'e', '_', '_']);
    assert(r@[21]@ =~= seq!['.', 'm', 'y', 'p', 'y', '_', 'c', 'a', 'c', 'h', 'e']);
    assert(r@[22]@ =~= seq!['.', 'p', 'y', 't', 'e', 's', 't', '_', 'c', 'a', 'c', 'h', 'e']);
    assert(r@[23]@ =~= seq!['.', 'r', 'u', 'f', 'f', '_', 'c', 'a', 'c', 'h', 'e']);
    assert(r@[24]@ =~= seq!['.', 'g', 'r', 'a', 'd', 'l', 'e']);
    assert(r@[25]@ =~= seq!['.', 'i', 'd', 'e', 'a']);
    assert(r@[26]@ =~= seq!['.', 'v', 's']);
    assert(r@[27]@ =~= seq!['o', 'b', 'j']);
    assert(views(r@) =~= excluded_directories());
    r
}

fn same_chars(a: &Vec<char>, b: &Vec<char>) -> (r: bool)
    ensures
        r == (a@ == b@),
{
    if a.len() != b.len() {
        return false;
    }
    let mut i: usize = 0;
    while i < a.len()
        invariant
            i <= a.len(),
            a.len() == b.len(),
            forall|k: int| 0 <= k < i ==> a@[k] == b@[k],
        decreases a.len() - i,
    {
        if a[i] != b[i] {
            return false;
        }
        i += 1;
    }
    assert(a@ =~= b@);
    true
}

pub(crate) fn listed(word: &Vec<char>, list: &Vec<Vec<char>>) -> (r: bool)
    ensures
        r == views(list@).contains(word@),
{
    let mut i: usize = 0;
    while i < list.len()
        invariant
            i <= list.len(),
            forall|k: int| 0 <= k < i ==> views(list@)[k] != word@,
        decreases list.len() - i,
    {
        assert(views(list@)[i as int] == list@[i as int]@);
        if same_chars(&list[i], word) {
            return true;
        }
        i += 1;
    }
    false
}

/// Whether a file with this extension (in any ASCII case) is read as source.
pub fn is_source_extension(extension: &str) -> (r: bool)
    ensures
        r == source_extensions().contains(ascii_lower(extension@)),
{
    let lower = to_ascii_lower(extension);
    let word = chars_of(lower.as_str());
    listed(&word, &source_extensions_list())
}

/// Whether a directory with this name is skipped by every scan.
pub fn is_excluded_directory(name: &str) -> (r: bool)
    ensures
        r == excluded_directories().contains(ascii_lower(name@)),
{
    let lower = to_ascii_lower(name);
    let word = chars_of(lower.as_str());
    listed(&word, &excluded_directories_list())
}

/// No warnings.
pub open spec fn no_warnings() -> WarningsView {
    WarningsView { messages: Seq::empty(), suppressed: 0 }
}

/// Law: pushing messages one by one into no warnings keeps the first
/// `MAX_WARNINGS` of them in order and counts the rest.
pub proof fn law_pushes_keep_first_and_count_rest(msgs: Seq<Seq<char>>)
    ensures
        msgs.len() <= MAX_WARNINGS ==> crate::analysis::pushed(no_warnings(), msgs) == (WarningsView {
            messages: msgs,
            suppressed: 0,
        }),
        msgs.len() > MAX_WARNINGS ==> crate::analysis::pushed(no_warnings(), msgs) == (WarningsView {
            messages: msgs.take(MAX_WARNINGS as int),
            suppressed: (msgs.len() - MAX_WARNINGS) as nat,
        }),
    decreases msgs.len(),
{
    if msgs.len() > 0 {
        law_pushes_keep_first_and_count_rest(msgs.drop_last());
        let prev = crate::analysis::pushed(no_warnings(), msgs.drop_last());
        if msgs.len() <= MAX_WARNINGS {
            assert(prev.messages.push(msgs.last()) =~= msgs);
        } else if msgs.len() == MAX_WARNINGS + 1 {
            assert(prev.messages =~= msgs.take(MAX_WARNINGS as int));
        } else {
            assert(msgs.drop_last().take(MAX_WARNINGS as int) =~= msgs.take(MAX_WARNINGS as int));
        }
    } else {
        assert(msgs =~= Seq::<Seq<char>>::empty());
    }
}

/// What `Warnings::push` of `m` does to `w`, as its contract states it.
pub open spec fn pushed_once(w: WarningsView, m: Seq<char>, next: WarningsView) -> bool {
    &&& w.messages.len() < MAX_WARNINGS ==> next.messages == w.messages.push(m) && next.suppressed == w.suppressed
    &&& w.messages.len() >= MAX_WARNINGS ==> next.messages == w.messages && next.suppressed == w.suppressed + 1
}

/// Law: starting from no warnings, a run of pushes of `msgs` followed by
/// `finish` shows the messages in push order when there are at most
/// `MAX_WARNINGS` of them; otherwise the first `MAX_WARNINGS`, then the line
/// that counts the rest.
pub proof fn law_push_run_then_finish(states: Seq<WarningsView>, msgs: Seq<Seq<char>>)
    requires
        states.len() == msgs.len() + 1,
        states[0] == no_warnings(),
        forall|k: int| 0 <= k < msgs.len() ==> pushed_once(states[k], #[trigger] msgs[k], states[k + 1]),
    ensures
        msgs.len() <= MAX_WARNINGS ==> crate::analysis::finished(states.last()) == msgs,
        msgs.len() > MAX_WARNINGS ==> crate::analysis::finished(states.last()) == msgs.take(MAX_WARNINGS as int).push(
            omitted_line((msgs.len() - MAX_WARNINGS) as nat),
        ),
{
    lemma_run_is_pushed(states, msgs, msgs.len() as int);
    law_pushes_keep_first_and_count_rest(msgs);
    assert(msgs.take(msgs.len() as int) =~= msgs);
}

/// The first `k` pushes of a run give `pushed` of the first `k` messages.
proof fn lemma_run_is_pushed(states: Seq<WarningsView>, msgs: Seq<Seq<char>>, k: int)
    requires
        states.len() == msgs.len() + 1,
        states[0] == no_warnings(),
        forall|j: int| 0 <= j < msgs.len() ==> pushed_once(states[j], #[trigger] msgs[j], states[j + 1]),
        0 <= k <= msgs.len(),
    ensures
        states[k] == crate::analysis::pushed(no_warnings(), msgs.take(k)),
    decreases k,
{
    if k == 0 {
        assert(msgs.take(0) =~= Seq::<Seq<char>>::empty());
    } else {
        lemma_run_is_pushed(states, msgs, k - 1);
        let t = msgs.take(k);
        assert(t.drop_last() =~= msgs.take(k - 1));
        assert(t.last() == msgs[k - 1]);
        assert(pushed_once(states[k - 1], msgs[k - 1], states[k]));
    }
}

/// What the scan decides for a source file of `size` bytes after `files`
/// files of `bytes` bytes were admitted.
#[derive(Clone, Copy, Debug, PartialEq, Eq, Structural)]
pub enum ScanAdmission {
    /// The file is over `MAX_FILE_BYTES`: skip it.
    TooLarge,
    /// `MAX_FILES` files are admitted, or the file would pass `MAX_TOTAL_BYTES`: stop scanning.
    Limit,
    /// Admit the file; the new byte total.
    Admit(u64),
}

/// Whether the scan admits a file of `size` bytes after `files` files of
/// `bytes` bytes: at most `MAX_FILES` files and `MAX_TOTAL_BYTES` bytes in all,
/// each file at most `MAX_FILE_BYTES`.
pub fn scan_admission(files: usize, bytes: u64, size: u64) -> (r: ScanAdmission)
    requires
        bytes <= MAX_TOTAL_BYTES,
    ensures
        size > MAX_FILE_BYTES ==> r == ScanAdmission::TooLarge,
        size <= MAX_FILE_BYTES && (files >= MAX_FILES || bytes + size > MAX_TOTAL_BYTES) ==> r == ScanAdmission::Limit,
        size <= MAX_FILE_BYTES && files < MAX_FILES && bytes + size <= MAX_TOTAL_BYTES ==> r == ScanAdmission::Admit(
            (bytes + size) as u64,
        ),
{
    if size > MAX_FILE_BYTES {
        ScanAdmission::TooLarge
    } else if files >= MAX_FILES || bytes + size > MAX_TOTAL_BYTES {
        ScanAdmission::Limit
    } else {
        ScanAdmission::Admit(bytes + size)
    }
}

/// The warning for a source file over `MAX_FILE_BYTES`.
pub fn too_large_warning(path: &str) -> (r: String)
    ensures
        r@ == "文件超过 2 MiB，已跳过："@ + path@,
{
    message_with("文件超过 2 MiB，已跳过：", path)
}

/// The warning when the scan stops at its limits.
pub fn scan_limit_warning() -> (r: String)
    ensures
        r@ == "达到安全限制（10,000 个模块或 128 MiB 源码），结果仅代表已扫描部分。"@,
{
    crate::text_util::owned("达到安全限制（10,000 个模块或 128 MiB 源码），结果仅代表已扫描部分。")
}

/// What reading one source file of `size` bytes decides, after `total` bytes were read.
#[derive(Clone, Copy, Debug, PartialEq, Eq, Structural)]
pub enum ReadDecision {
    /// The file grew past `MAX_FILE_BYTES` since the scan: skip it.
    Grown,
    /// The read bytes would pass `MAX_TOTAL_BYTES`: stop reading.
    Budget,
    /// Keep the file; the new running total.
    Keep(u64),
}

/// Whether a file of `size` bytes is kept after `total` bytes were read: files
/// over `MAX_FILE_BYTES` are skipped, and reading stops before `MAX_TOTAL_BYTES` is passed.
pub fn read_decision(total: u64, size: u64) -> (r: ReadDecision)
    requires
        total <= MAX_TOTAL_BYTES,
    ensures
        size > MAX_FILE_BYTES ==> r == ReadDecision::Grown,
        size <= MAX_FILE_BYTES && total + size > MAX_TOTAL_BYTES ==> r == ReadDecision::Budget,
        size <= MAX_FILE_BYTES && total + size <= MAX_TOTAL_BYTES ==> r == ReadDecision::Keep(
            (total + size) as u64,
        ),
{
    if size > MAX_FILE_BYTES {
        ReadDecision::Grown
    } else if total + size > MAX_TOTAL_BYTES {
        ReadDecision::Budget
    } else {
        ReadDecision::Keep(total + size)
    }
}

/// `prefix` followed by `id`.
fn message_with(prefix: &str, id: &str) -> (r: String)
    ensures
        r@ == prefix@ + id@,
{
    let mut r = crate::text_util::owned(prefix);
    let cs = chars_of(id);
    let mut i: usize = 0;
    while i < cs.len()
        invariant
            i <= cs@.len(),
            cs@ == id@,
            r@ == prefix@ + id@.take(i as int),
        decreases cs@.len() - i,
    {
        push_char(&mut r, cs[i]);
        i += 1;
        assert(r@ =~= prefix@ + id@.take(i as int));
    }
    assert(id@.take(id@.len() as int) =~= id@);
    r
}

/// The warning for a file that grew past the limit since the scan.
pub fn grown_warning(id: &str) -> (r: String)
    ensures
        r@ == "文件扫描后变大，已跳过："@ + id@,
{
    message_with("文件扫描后变大，已跳过：", id)
}

/// The warning for a file that is not UTF-8.
pub fn not_utf8_warning(id: &str) -> (r: String)
    ensures
        r@ == "文件不是 UTF-8，已跳过："@ + id@,
{
    message_with("文件不是 UTF-8，已跳过：", id)
}

/// The warning when the read bytes reach the total limit.
pub fn budget_warning() -> (r: String)
    ensures
        r@ == "读取的源码达到 128 MiB 安全限制；文件可能在扫描期间发生变化，结果仅代表已读取部分。"@,
{
    crate::text_util::owned("读取的源码达到 128 MiB 安全限制；文件可能在扫描期间发生变化，结果仅代表已读取部分。")
}

/// The text that the bytes spell in UTF-8, if they are valid UTF-8.
pub uninterp spec fn utf8_text(bytes: Seq<u8>) -> Option<Seq<char>>;

/// Calls `String::from_utf8`; claims that it succeeds exactly when the bytes
/// have a UTF-8 text, and that the string is that text.
#[verifier::external_body]
fn from_utf8(bytes: Vec<u8>) -> (r: Option<String>)
    ensures
        (r is Some) == (utf8_text(bytes@) is Some),
        r is Some ==> r->0@ == utf8_text(bytes@)->0,
{
    String::from_utf8(bytes).ok()
}

/// The source text of file `id` read as `bytes`, or the warning when it is not UTF-8.
pub fn source_text(id: &str, bytes: Vec<u8>) -> (r: Result<String, String>)
    ensures
        utf8_text(bytes@) is Some ==> (r is Ok && r->Ok_0@ == utf8_text(bytes@)->0),
        (utf8_text(bytes@) is None) ==> (r matches Err(w) && w@ == "文件不是 UTF-8，已跳过："@ + id@),
{
    match from_utf8(bytes) {
        Some(s) => Ok(s),
        None => Err(not_utf8_warning(id)),
    }
}

} // verus!
