//! Interface phrases by language and key, and shortened labels.
use vstd::prelude::*;
use crate::text_util::{chars_of, first_index, lemma_first_index, owned, push_char, string_of, str_eq};

verus! {

/// One translated phrase.
pub struct Phrase {
    pub language: String,
    pub key: String,
    pub text: String,
}

/// The phrases of the interface, in two dictionaries: the graph view and the workbench.
pub struct Catalog {
    pub graph: Vec<Phrase>,
    pub work: Vec<Phrase>,
}

/// The text of the first phrase for `language` and `key`, or nothing.
pub open spec fn lookup(phrases: Seq<Phrase>, language: Seq<char>, key: Seq<char>) -> Seq<char>
    decreases phrases.len(),
{
    if phrases.len() == 0 {
        Seq::empty()
    } else if phrases[0].language@ == language && phrases[0].key@ == key {
        phrases[0].text@
    } else {
        lookup(phrases.drop_first(), language, key)
    }
}

/// The dictionary and key named by a dotted key: `graph.x` reads `x` in the
/// graph dictionary, any other `domain.x` reads `x` in the workbench
/// dictionary, and a key without a dot is a workbench key.
pub open spec fn tr_spec(catalog: Catalog, language: Seq<char>, key: Seq<char>) -> Seq<char> {
    match first_index(key, '.') {
        Some(i) => {
            let domain = key.subrange(0, i);
            let rest = key.subrange(i + 1, key.len() as int);
            if domain == seq!['g', 'r', 'a', 'p', 'h'] {
                lookup(catalog.graph@, language, rest)
            } else {
                lookup(catalog.work@, language, rest)
            }
        },
        None => lookup(catalog.work@, language, key),
    }
}

fn find_phrase(phrases: &Vec<Phrase>, language: &str, key: &str) -> (r: String)
    ensures
        r@ == lookup(phrases@, language@, key@),
{
    let mut i: usize = 0;
    assert(phrases@.skip(0) =~= phrases@);
    while i < phrases.len()
        invariant
            i <= phrases.len(),
            lookup(phrases@, language@, key@) == lookup(phrases@.skip(i as int), language@, key@),
        decreases phrases.len() - i,
    {
        let p = &phrases[i];
        assert(phrases@.skip(i as int)[0] == phrases@[i as int]);
        assert(phrases@.skip(i as int).drop_first() =~= phrases@.skip(i + 1));
        if str_eq(p.language.as_str(), language) && str_eq(p.key.as_str(), key) {
            return owned(p.text.as_str());
        }
        i += 1;
    }
    String::new()
}

/// The phrase for `key` in `language`, empty when there is none.
pub fn tr(catalog: &Catalog, language: &str, key: &str) -> (r: String)
    ensures
        r@ == tr_spec(*catalog, language@, key@),
{
    let cs = chars_of(key);
    let mut i: usize = 0;
    proof {
        lemma_first_index(key@, '.');
    }
    while i < cs.len() && cs[i] != '.'
        invariant
            i <= cs.len(),
            cs@ == key@,
            forall|j: int| 0 <= j < i ==> cs@[j] != '.',
        decreases cs.len() - i,
    {
        i += 1;
    }
    if i == cs.len() {
        proof {
            if let Some(x) = first_index(key@, '.') {
                assert(cs@[x] == '.');
            }
        }
        return find_phrase(&catalog.work, language, key);
    }
    proof {
        if let Some(x) = first_index(key@, '.') {
            assert(x == i);
        } else {
            assert(key@[i as int] == '.');
        }
    }
    let mut domain: Vec<char> = Vec::new();
    let mut rest: Vec<char> = Vec::new();
    let mut k: usize = 0;
    while k < cs.len()
        invariant
            i < cs.len(),
            k <= cs.len(),
            cs@ == key@,
            k <= i ==> domain@ == key@.subrange(0, k as int) && rest@.len() == 0,
            k > i ==> domain@ == key@.subrange(0, i as int) && rest@ == key@.subrange(
                i + 1,
                k as int,
            ),
        decreases cs.len() - k,
    {
        if k < i {
            domain.push(cs[k]);
        } else if k > i {
            rest.push(cs[k]);
        }
        k += 1;
        assert(k <= i ==> domain@ =~= key@.subrange(0, k as int));
        assert(k > i ==> rest@ =~= key@.subrange(i + 1, k as int));
    }
    let d = string_of(&domain);
    let rk = string_of(&rest);
    proof {
        reveal_strlit("graph");
        assert("graph"@ =~= seq!['g', 'r', 'a', 'p', 'h']);
        assert(first_index(key@, '.') == Some(i as int));
        assert(d@ == key@.subrange(0, i as int));
        assert(rk@ == key@.subrange(i + 1, key@.len() as int));
    }
    if str_eq(d.as_str(), "graph") {
        proof {
            assert(d@ == seq!['g', 'r', 'a', 'p', 'h']);
        }
        find_phrase(&catalog.graph, language, rk.as_str())
    } else {
        proof {
            assert(d@ != seq!['g', 'r', 'a', 'p', 'h']);
        }
        find_phrase(&catalog.work, language, rk.as_str())
    }
}

/// The label for `text` within `limit` characters.
pub open spec fn short_spec(text: Seq<char>, limit: nat) -> Seq<char> {
    if text.len() <= limit {
        text
    } else {
        text.take(if limit == 0 {
            0
        } else {
            limit - 1
        }).push('…')
    }
}

/// `text` unchanged when it has at most `limit` characters; otherwise its
/// first `limit - 1` characters followed by an ellipsis.
pub fn short(text: &str, limit: usize) -> (r: String)
    ensures
        r@ == short_spec(text@, limit as nat),
{
    let cs = chars_of(text);
    if cs.len() <= limit {
        return owned(text);
    }
    let keep = if limit == 0 {
        0
    } else {
        limit - 1
    };
    let mut out = String::new();
    let mut i: usize = 0;
    while i < keep
        invariant
            keep < cs.len(),
            i <= keep,
            cs@ == text@,
            out@ == text@.take(i as int),
        decreases keep - i,
    {
        push_char(&mut out, cs[i]);
        i += 1;
        assert(out@ =~= text@.take(i as int));
    }
    push_char(&mut out, '…');
    out
}

/// The dictionaries of run-time messages: whole messages by language (the
/// phrase key is the message), and message prefixes by language (the phrase
/// key is the prefix), each searched in order.
pub struct Diagnostics {
    pub messages: Vec<Phrase>,
    pub prefixes: Vec<Phrase>,
}

/// The first phrase for `language` and `key`, if any.
pub open spec fn entry(phrases: Seq<Phrase>, language: Seq<char>, key: Seq<char>) -> Option<Seq<char>>
    decreases phrases.len(),
{
    if phrases.len() == 0 {
        None
    } else if phrases[0].language@ == language && phrases[0].key@ == key {
        Some(phrases[0].text@)
    } else {
        entry(phrases.drop_first(), language, key)
    }
}

/// The first prefix rule for `language` whose prefix starts the message: its
/// rendering followed by the rest of the message.
pub open spec fn prefix_entry(phrases: Seq<Phrase>, language: Seq<char>, message: Seq<char>) -> Option<Seq<char>>
    decreases phrases.len(),
{
    if phrases.len() == 0 {
        None
    } else if phrases[0].language@ == language && crate::text_util::has_prefix(message, phrases[0].key@) {
        Some(phrases[0].text@ + message.skip(phrases[0].key@.len() as int))
    } else {
        prefix_entry(phrases.drop_first(), language, message)
    }
}

/// `m` starts with `p` and, after it, ends with `s`.
pub open spec fn framed(m: Seq<char>, p: Seq<char>, s: Seq<char>) -> bool {
    crate::text_util::has_prefix(m, p) && crate::text_util::has_suffix(m.skip(p.len() as int), s)
}

/// What lies between `p` and `s` in a framed message.
pub open spec fn inner(m: Seq<char>, p: Seq<char>, s: Seq<char>) -> Seq<char> {
    m.subrange(p.len() as int, m.len() - s.len())
}

/// A run-time message in the interface language: the dictionary's
/// wording; for English and Japanese the counted and per-file warnings;
/// unavailable parsers; parse failures, whose reason is translated in turn;
/// a translated prefix; otherwise the message itself.
pub open spec fn diagnostic_of(d: Diagnostics, m: Seq<char>, language: Seq<char>) -> Seq<char>
    decreases m.len(),
{
    let zh = language == "zh"@;
    let en = language == "en"@;
    let ja = language == "ja"@;
    let omitted = ("另有 "@, " 条同类警告未显示。"@);
    let broken = " 包含解析错误，依赖结果可能不完整。"@;
    let entries = ("目录项超过 "@, "，扫描提前结束；当前结果仅代表已扫描部分。"@);
    let parser = " parser unavailable"@;
    let failed = "无法解析 "@;
    match entry(d.messages@, language, m) {
        Some(t) => t,
        None => if !zh && framed(m, omitted.0, omitted.1) {
            let count = inner(m, omitted.0, omitted.1);
            if en {
                count + " additional warnings of this kind were omitted."@
            } else {
                "同種の警告をさらに "@ + count + " 件省略しました。"@
            }
        } else if !zh && crate::text_util::has_suffix(m, broken) {
            let path = m.take(m.len() - broken.len());
            if en {
                path + " contains parse errors; dependency results may be incomplete."@
            } else {
                path + " に構文解析エラーがあります。依存関係の結果が不完全な可能性があります。"@
            }
        } else if !zh && framed(m, entries.0, entries.1) {
            let count = inner(m, entries.0, entries.1);
            if en {
                "Directory entries exceeded "@ + count
                    + ". The scan stopped early; results cover only the scanned portion."@
            } else {
                "ディレクトリエントリが "@ + count
                    + " 件を超えたため、スキャンを途中で終了しました。結果はスキャン済みの部分のみを対象とします。"@
            }
        } else if crate::text_util::has_suffix(m, parser) {
            let name = m.take(m.len() - parser.len());
            if zh {
                name + " 解析器不可用。"@
            } else if ja {
                name + " の解析器を利用できません。"@
            } else {
                m
            }
        } else if crate::text_util::has_prefix(m, failed) && crate::text_util::last_index(m.skip(failed.len() as int), '：') is Some {
            let rest = m.skip(failed.len() as int);
            let i = crate::text_util::last_index(rest, '：').unwrap();
            proof {
                crate::text_util::lemma_last_index(rest, '：');
            }
            let path = rest.take(i);
            let reason = diagnostic_of(d, rest.skip(i + 1), language);
            if en {
                "Could not parse "@ + path + ": "@ + reason
            } else if ja {
                path + " の構文解析に失敗しました: "@ + reason
            } else {
                failed + path + "："@ + reason
            }
        } else {
            match prefix_entry(d.prefixes@, language, m) {
                Some(t) => t,
                None => m,
            }
        },
    }
}

fn append_text(v: &mut Vec<char>, s: &str)
    ensures
        final(v)@ == old(v)@ + s@,
{
    let cs = chars_of(s);
    let ghost start = v@;
    let mut i: usize = 0;
    while i < cs.len()
        invariant
            i <= cs.len(),
            cs@ == s@,
            v@ == start + cs@.take(i as int),
        decreases cs.len() - i,
    {
        v.push(cs[i]);
        i += 1;
        assert(v@ =~= start + cs@.take(i as int));
    }
    assert(cs@.take(cs.len() as int) =~= cs@);
}

fn append_chars(v: &mut Vec<char>, w: &Vec<char>)
    ensures
        final(v)@ == old(v)@ + w@,
{
    let ghost start = v@;
    let mut i: usize = 0;
    while i < w.len()
        invariant
            i <= w.len(),
            v@ == start + w@.take(i as int),
        decreases w.len() - i,
    {
        v.push(w[i]);
        i += 1;
        assert(v@ =~= start + w@.take(i as int));
    }
    assert(w@.take(w.len() as int) =~= w@);
}

fn find_entry(phrases: &Vec<Phrase>, language: &str, key: &str) -> (r: Option<String>)
    ensures
        match r {
            Some(t) => entry(phrases@, language@, key@) == Some(t@),
            None => entry(phrases@, language@, key@) is None,
        },
{
    let mut i: usize = 0;
    assert(phrases@.skip(0) =~= phrases@);
    while i < phrases.len()
        invariant
            i <= phrases.len(),
            entry(phrases@, language@, key@) == entry(phrases@.skip(i as int), language@, key@),
        decreases phrases.len() - i,
    {
        let p = &phrases[i];
        assert(phrases@.skip(i as int)[0] == phrases@[i as int]);
        assert(phrases@.skip(i as int).drop_first() =~= phrases@.skip(i + 1));
        if str_eq(p.language.as_str(), language) && str_eq(p.key.as_str(), key) {
            return Some(owned(p.text.as_str()));
        }
        i += 1;
    }
    None
}

fn find_prefix(phrases: &Vec<Phrase>, language: &str, message: &Vec<char>) -> (r: Option<String>)
    ensures
        match r {
            Some(t) => prefix_entry(phrases@, language@, message@) == Some(t@),
            None => prefix_entry(phrases@, language@, message@) is None,
        },
{
    let mut i: usize = 0;
    assert(phrases@.skip(0) =~= phrases@);
    while i < phrases.len()
        invariant
            i <= phrases.len(),
            prefix_entry(phrases@, language@, message@) == prefix_entry(phrases@.skip(i as int), language@, message@),
        decreases phrases.len() - i,
    {
        let p = &phrases[i];
        assert(phrases@.skip(i as int)[0] == phrases@[i as int]);
        assert(phrases@.skip(i as int).drop_first() =~= phrases@.skip(i + 1));
        let key = chars_of(p.key.as_str());
        if str_eq(p.language.as_str(), language) && crate::text_util::vec_has_prefix(message, &key) {
            let mut v = chars_of(p.text.as_str());
            let rest = crate::text_util::vec_slice(message, key.len(), message.len());
            append_chars(&mut v, &rest);
            return Some(string_of(&v));
        }
        i += 1;
    }
    None
}

fn framed_vec(m: &Vec<char>, p: &str, s: &str) -> (r: bool)
    ensures
        r == framed(m@, p@, s@),
{
    let pv = chars_of(p);
    let sv = chars_of(s);
    if !crate::text_util::vec_has_prefix(m, &pv) {
        return false;
    }
    let rest = crate::text_util::vec_slice(m, pv.len(), m.len());
    crate::text_util::vec_has_suffix(&rest, &sv)
}

/// Shows a run-time message in the interface language.
pub fn diagnostic(d: &Diagnostics, message: &str, language: &str) -> (r: String)
    ensures
        r@ == diagnostic_of(*d, message@, language@),
    decreases message@.len(),
{
    if let Some(t) = find_entry(&d.messages, language, message) {
        return t;
    }
    let m = chars_of(message);
    let zh = str_eq(language, "zh");
    let en = str_eq(language, "en");
    let ja = str_eq(language, "ja");
    let mut out: Vec<char> = Vec::new();
    if !zh && framed_vec(&m, "另有 ", " 条同类警告未显示。") {
        let p = chars_of("另有 ");
        let s = chars_of(" 条同类警告未显示。");
        let count = crate::text_util::vec_slice(&m, p.len(), m.len() - s.len());
        if en {
            append_chars(&mut out, &count);
            append_text(&mut out, " additional warnings of this kind were omitted.");
        } else {
            append_text(&mut out, "同種の警告をさらに ");
            append_chars(&mut out, &count);
            append_text(&mut out, " 件省略しました。");
        }
        return string_of(&out);
    }
    let broken = chars_of(" 包含解析错误，依赖结果可能不完整。");
    if !zh && crate::text_util::vec_has_suffix(&m, &broken) {
        let path = crate::text_util::vec_slice(&m, 0, m.len() - broken.len());
        append_chars(&mut out, &path);
        if en {
            append_text(&mut out, " contains parse errors; dependency results may be incomplete.");
        } else {
            append_text(&mut out, " に構文解析エラーがあります。依存関係の結果が不完全な可能性があります。");
        }
        return string_of(&out);
    }
    if !zh && framed_vec(&m, "目录项超过 ", "，扫描提前结束；当前结果仅代表已扫描部分。") {
        let p = chars_of("目录项超过 ");
        let s = chars_of("，扫描提前结束；当前结果仅代表已扫描部分。");
        let count = crate::text_util::vec_slice(&m, p.len(), m.len() - s.len());
        if en {
            append_text(&mut out, "Directory entries exceeded ");
            append_chars(&mut out, &count);
            append_text(&mut out, ". The scan stopped early; results cover only the scanned portion.");
        } else {
            append_text(&mut out, "ディレクトリエントリが ");
            append_chars(&mut out, &count);
            append_text(&mut out, " 件を超えたため、スキャンを途中で終了しました。結果はスキャン済みの部分のみを対象とします。");
        }
        return string_of(&out);
    }
    let parser = chars_of(" parser unavailable");
    if crate::text_util::vec_has_suffix(&m, &parser) {
        let name = crate::text_util::vec_slice(&m, 0, m.len() - parser.len());
        if zh {
            append_chars(&mut out, &name);
            append_text(&mut out, " 解析器不可用。");
        } else if ja {
            append_chars(&mut out, &name);
            append_text(&mut out, " の解析器を利用できません。");
        } else {
            return owned(message);
        }
        return string_of(&out);
    }
    let failed = chars_of("无法解析 ");
    if crate::text_util::vec_has_prefix(&m, &failed) {
        let rest = crate::text_util::vec_slice(&m, failed.len(), m.len());
        assert(rest@ =~= m@.skip(failed.len() as int));
        proof {
            crate::text_util::lemma_last_index(rest@, '：');
        }
        match crate::text_util::vec_last_index(&rest, '：') {
            Some(i) => {
                let path = crate::text_util::vec_slice(&rest, 0, i);
                let tail = crate::text_util::vec_slice(&rest, i + 1, rest.len());
                assert(path@ =~= rest@.take(i as int));
                assert(tail@ =~= rest@.skip(i + 1));
                let tail_text = string_of(&tail);
                let reason = diagnostic(d, tail_text.as_str(), language);
                if en {
                    append_text(&mut out, "Could not parse ");
                    append_chars(&mut out, &path);
                    append_text(&mut out, ": ");
                    append_text(&mut out, reason.as_str());
                } else if ja {
                    append_chars(&mut out, &path);
                    append_text(&mut out, " の構文解析に失敗しました: ");
                    append_text(&mut out, reason.as_str());
                } else {
                    append_text(&mut out, "无法解析 ");
                    append_chars(&mut out, &path);
                    append_text(&mut out, "：");
                    append_text(&mut out, reason.as_str());
                }
                return string_of(&out);
            },
            None => {},
        }
    }
    match find_prefix(&d.prefixes, language, &m) {
        Some(t) => t,
        None => owned(message),
    }
}

} // verus!
