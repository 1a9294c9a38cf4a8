use vstd::prelude::*;
use vstd::string::*;

use crate::dom::{DomNode, DomView};
use crate::dom_query::{attr, attr_of, text_contents, text_of};
use crate::inline_parse::{strip_all, strip_all_exec};
use crate::test_utils::{words, words_from};
use crate::text::{
    ends_with, is_whitespace_char, seq_ends_with, seq_starts_with, starts_with, to_owned, trim,
    trim_str,
};

verus! {

/// The first of `ws` that begins with `p`.
pub open spec fn first_with_prefix(ws: Seq<Seq<char>>, p: Seq<char>) -> Option<Seq<char>>
    decreases ws.len(),
{
    if ws.len() == 0 {
        None
    } else if seq_starts_with(ws[0], p) {
        Some(ws[0])
    } else {
        first_with_prefix(ws.skip(1), p)
    }
}

/// The language that a class list names: the first class that begins with
/// `language-`, with that prefix taken off (as often as it is there).
pub open spec fn class_language(class: Seq<char>) -> Option<Seq<char>> {
    match first_with_prefix(words(class), "language-"@) {
        Some(t) => Some(strip_all(t, "language-"@)),
        None => None,
    }
}

/// The text before the first line feed.
pub open spec fn first_line(s: Seq<char>) -> Seq<char>
    decreases s.len(),
{
    if s.len() == 0 || s[0] == '\n' {
        Seq::empty()
    } else {
        seq![s[0]] + first_line(s.skip(1))
    }
}

/// The language of a code fence: when the first line of a non-empty text
/// begins with three backticks, the first word after the backticks. (A
/// carriage return that ends the line is white space, so it is never part
/// of that word.)
pub open spec fn fence_language(text: Seq<char>) -> Option<Seq<char>> {
    if text.len() > 0 && seq_starts_with(first_line(text), "```"@) {
        let w = words(strip_all(first_line(text), "```"@));
        if w.len() > 0 {
            Some(w[0])
        } else {
            None
        }
    } else {
        None
    }
}

/// A value that is there and not empty.
pub open spec fn nonempty(o: Option<Seq<char>>) -> Option<Seq<char>> {
    match o {
        Some(v) => if v.len() > 0 {
            Some(v)
        } else {
            None
        },
        None => None,
    }
}

pub open spec fn code_class_language(code: DomView) -> Option<Seq<char>> {
    match attr_of(code, "class"@) {
        Some(c) => class_language(c),
        None => None,
    }
}

/// The language of a code block `<pre>` whose first `<code>` is `code`:
/// the `lang` of the `pre`, else the `language-` class of the code, else
/// its `data-language`, else the word after a code fence that begins its
/// text, else `text` (each only when not empty).
pub open spec fn code_language(pre: DomView, code: DomView) -> Seq<char> {
    match nonempty(attr_of(pre, "lang"@)) {
        Some(l) => l,
        None => match nonempty(code_class_language(code)) {
            Some(l) => l,
            None => match nonempty(attr_of(code, "data-language"@)) {
                Some(l) => l,
                None => match fence_language(text_of(code)) {
                    Some(l) => l,
                    None => "text"@,
                },
            },
        },
    }
}

/// The text of a code block: the text of the code without closing
/// backticks at its end, trimmed.
pub open spec fn code_text(code: DomView) -> Seq<char> {
    let t = text_of(code);
    trim(
        if seq_ends_with(t, "```"@) {
            t.take(t.len() - 3)
        } else {
            t
        },
    )
}

/// `str::split_whitespace`, collected.
pub fn split_words(s: &str) -> (r: Vec<String>)
    ensures
        r@.map_values(|w: String| w@) == words(s@),
{
    let n = s.unicode_len();
    let mut out: Vec<String> = Vec::new();
    let mut cur = String::new();
    let mut i: usize = 0;
    assert(s@.skip(0) =~= s@);
    assert(out@.map_values(|w: String| w@) =~= Seq::<Seq<char>>::empty());
    assert(cur@ =~= Seq::<char>::empty());
    while i < n
        invariant
            n == s@.len(),
            i <= n,
            words(s@) == words_from(s@.skip(i as int), cur@, out@.map_values(|w: String| w@)),
        decreases n - i,
    {
        let c = s.get_char(i);
        proof {
            assert(s@.skip(i as int)[0] == c);
            assert(s@.skip(i as int).drop_first() =~= s@.skip(i + 1));
        }
        let ghost ov = out@;
        if is_whitespace_char(c) {
            if cur.unicode_len() > 0 {
                let w = cur;
                out.push(w);
                assert(out@.map_values(|w: String| w@) =~= ov.map_values(|w: String| w@).push(w@));
                cur = String::new();
            } else {
                cur = String::new();
            }
            assert(cur@ =~= Seq::<char>::empty());
        } else {
            cur.push(c);
        }
        i = i + 1;
    }
    assert(s@.skip(n as int) =~= Seq::<char>::empty());
    if cur.unicode_len() > 0 {
        let ghost ov = out@;
        let w = cur;
        out.push(w);
        assert(out@.map_values(|w: String| w@) =~= ov.map_values(|w: String| w@).push(w@));
    }
    out
}

/// The first word of `ws` that begins with `p`.
pub fn first_with_prefix_exec(ws: &Vec<String>, p: &str) -> (r: Option<String>)
    ensures
        match r {
            Some(v) => first_with_prefix(ws@.map_values(|w: String| w@), p@) == Some(v@),
            None => first_with_prefix(ws@.map_values(|w: String| w@), p@) is None,
        },
{
    let ghost wv = ws@.map_values(|w: String| w@);
    let k = ws.len();
    let mut i: usize = 0;
    assert(wv.skip(0) =~= wv);
    while i < k
        invariant
            k == ws@.len(),
            i <= k,
            wv == ws@.map_values(|w: String| w@),
            first_with_prefix(wv, p@) == first_with_prefix(wv.skip(i as int), p@),
        decreases k - i,
    {
        proof {
            assert(wv.skip(i as int)[0] == ws@[i as int]@);
            assert(wv.skip(i as int).skip(1) =~= wv.skip(i + 1));
        }
        if starts_with(ws[i].as_str(), p) {
            return Some(ws[i].clone());
        }
        i = i + 1;
    }
    assert(wv.skip(k as int) =~= Seq::<Seq<char>>::empty());
    None
}

/// The language that a class list names (see `class_language`).
pub fn class_language_exec(class: &str) -> (r: Option<String>)
    ensures
        match r {
            Some(v) => class_language(class@) == Some(v@),
            None => class_language(class@) is None,
        },
{
    let ws = split_words(class);
    match first_with_prefix_exec(&ws, "language-") {
        Some(t) => Some(strip_all_exec(t.as_str(), "language-")),
        None => None,
    }
}

fn first_line_exec(s: &str) -> (r: String)
    ensures
        r@ == first_line(s@),
{
    let n = s.unicode_len();
    let mut i: usize = 0;
    while i < n && s.get_char(i) != '\n'
        invariant
            n == s@.len(),
            i <= n,
            forall|j: int| 0 <= j < i ==> s@[j] != '\n',
        decreases n - i,
    {
        i = i + 1;
    }
    proof {
        lemma_first_line_at(s@, i as int);
    }
    let r = to_owned(s.substring_char(0, i));
    assert(r@ =~= s@.take(i as int));
    r
}

proof fn lemma_first_line_at(s: Seq<char>, i: int)
    requires
        0 <= i <= s.len(),
        forall|j: int| 0 <= j < i ==> s[j] != '\n',
        i == s.len() || s[i] == '\n',
    ensures
        first_line(s) == s.take(i),
    decreases s.len(),
{
    if s.len() == 0 || s[0] == '\n' {
        assert(s.take(i) =~= Seq::<char>::empty());
    } else {
        lemma_first_line_at(s.skip(1), i - 1);
        assert(s.take(i) =~= seq![s[0]] + s.skip(1).take(i - 1));
    }
}

/// The language of a code fence (see `fence_language`).
pub fn fence_language_exec(text: &str) -> (r: Option<String>)
    ensures
        match r {
            Some(v) => fence_language(text@) == Some(v@),
            None => fence_language(text@) is None,
        },
{
    if text.unicode_len() == 0 {
        return None;
    }
    let line = first_line_exec(text);
    if !starts_with(line.as_str(), "```") {
        return None;
    }
    let rest = strip_all_exec(line.as_str(), "```");
    let ws = split_words(rest.as_str());
    if ws.len() > 0 {
        Some(ws[0].clone())
    } else {
        None
    }
}

fn nonempty_exec(o: Option<String>) -> (r: Option<String>)
    ensures
        match r {
            Some(v) => nonempty(match o {
                Some(x) => Some(x@),
                None => None,
            }) == Some(v@),
            None => nonempty(match o {
                Some(x) => Some(x@),
                None => None,
            }) is None,
        },
{
    match o {
        Some(v) => if v.unicode_len() > 0 {
            Some(v)
        } else {
            None
        },
        None => None,
    }
}

fn attr_owned(n: &DomNode, k: &str) -> (r: Option<String>)
    ensures
        match r {
            Some(v) => attr_of(n@, k@) == Some(v@),
            None => attr_of(n@, k@) is None,
        },
{
    match attr(n, k) {
        Some(v) => Some(v.clone()),
        None => None,
    }
}

/// The language of a code block (see `code_language`).
pub fn code_language_exec(pre: &DomNode, code: &DomNode) -> (r: String)
    ensures
        r@ == code_language(pre@, code@),
{
    match nonempty_exec(attr_owned(pre, "lang")) {
        Some(l) => return l,
        None => {},
    }
    let class_lang = match attr(code, "class") {
        Some(c) => class_language_exec(c.as_str()),
        None => None,
    };
    match nonempty_exec(class_lang) {
        Some(l) => return l,
        None => {},
    }
    match nonempty_exec(attr_owned(code, "data-language")) {
        Some(l) => return l,
        None => {},
    }
    let t = text_contents(code);
    match fence_language_exec(t.as_str()) {
        Some(l) => l,
        None => to_owned("text"),
    }
}

/// The text of a code block (see `code_text`).
pub fn code_text_exec(code: &DomNode) -> (r: String)
    ensures
        r@ == code_text(code@),
{
    let t = text_contents(code);
    proof {
        reveal_strlit("```");
    }
    if ends_with(t.as_str(), "```") {
        let n = t.unicode_len();
        let cut = t.as_str().substring_char(0, n - 3);
        assert(cut@ =~= t@.take(t@.len() - 3));
        to_owned(trim_str(cut))
    } else {
        to_owned(trim_str(t.as_str()))
    }
}

/// A code element's language class is found wherever it stands in the
/// class list: when the `i`-th class word is the first to begin with
/// `language-`, the language is that word without the prefix; when no word
/// begins with it, there is none.
pub proof fn lemma_language_class_anywhere(class: Seq<char>, i: int)
    ensures
        0 <= i < words(class).len() && seq_starts_with(words(class)[i], "language-"@) && (forall|j: int|
            0 <= j < i ==> !seq_starts_with(#[trigger] words(class)[j], "language-"@))
            ==> class_language(class) == Some(strip_all(words(class)[i], "language-"@)),
        (forall|j: int| 0 <= j < words(class).len() ==> !seq_starts_with(#[trigger] words(class)[j], "language-"@))
            ==> class_language(class) is None,
{
    let w = words(class);
    if 0 <= i < w.len() && seq_starts_with(w[i], "language-"@) && (forall|j: int|
        0 <= j < i ==> !seq_starts_with(#[trigger] w[j], "language-"@)) {
        lemma_first_prefix_at(w, "language-"@, i);
    }
    if forall|j: int| 0 <= j < w.len() ==> !seq_starts_with(#[trigger] w[j], "language-"@) {
        lemma_first_prefix_none(w, "language-"@);
    }
}

proof fn lemma_first_prefix_at(ws: Seq<Seq<char>>, p: Seq<char>, i: int)
    requires
        0 <= i < ws.len(),
        seq_starts_with(ws[i], p),
        forall|j: int| 0 <= j < i ==> !seq_starts_with(#[trigger] ws[j], p),
    ensures
        first_with_prefix(ws, p) == Some(ws[i]),
    decreases i,
{
    if i > 0 {
        assert(!seq_starts_with(ws[0], p));
        assert forall|j: int| 0 <= j < i - 1 implies !seq_starts_with(#[trigger] ws.skip(1)[j], p) by {
            assert(ws.skip(1)[j] == ws[j + 1]);
        }
        lemma_first_prefix_at(ws.skip(1), p, i - 1);
    }
}

proof fn lemma_first_prefix_none(ws: Seq<Seq<char>>, p: Seq<char>)
    requires
        forall|j: int| 0 <= j < ws.len() ==> !seq_starts_with(#[trigger] ws[j], p),
    ensures
        first_with_prefix(ws, p) is None,
    decreases ws.len(),
{
    if ws.len() > 0 {
        assert(!seq_starts_with(ws[0], p));
        assert forall|j: int| 0 <= j < ws.len() - 1 implies !seq_starts_with(#[trigger] ws.skip(1)[j], p) by {
            assert(ws.skip(1)[j] == ws[j + 1]);
        }
        lemma_first_prefix_none(ws.skip(1), p);
    }
}

} // verus!
