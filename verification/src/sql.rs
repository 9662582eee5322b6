//! The words of SQL text: splitting, quoting and parenthesised lists.

use vstd::prelude::*;

use crate::text::{chars_of, eq_ignore_case, join, str_eq, string_of};

verus! {

/// The state of a word splitter: the words so far, the word under way, and the
/// quote it is inside of.
pub struct Lex {
    pub words: Seq<Seq<char>>,
    pub current: Seq<char>,
    pub quote: Option<char>,
}

/// End the word under way.
pub open spec fn flush(l: Lex) -> Lex {
    Lex {
        words: if l.current.len() > 0 {
            l.words.push(l.current)
        } else {
            l.words
        },
        current: seq![],
        quote: l.quote,
    }
}

/// Read one character. Inside quotes every character belongs to the word;
/// outside, white space ends a word, and a parenthesis or a comma is a word of
/// its own.
pub open spec fn lex_step(l: Lex, c: char) -> Lex {
    match l.quote {
        Some(q) => Lex {
            current: l.current.push(c),
            quote: if c == q {
                None
            } else {
                l.quote
            },
            ..l
        },
        None => if c == '\'' || c == '"' || c == '`' {
            Lex { current: l.current.push(c), quote: Some(c), ..l }
        } else if crate::text::white_space(c) {
            flush(l)
        } else if c == '(' || c == ')' || c == ',' {
            let f = flush(l);
            Lex { words: f.words.push(seq![c]), ..f }
        } else {
            Lex { current: l.current.push(c), ..l }
        },
    }
}

/// Read characters from the front.
pub open spec fn lex(s: Seq<char>) -> Lex
    decreases s.len(),
{
    if s.len() == 0 {
        Lex { words: seq![], current: seq![], quote: None }
    } else {
        lex_step(lex(s.drop_last()), s.last())
    }
}

/// The words of a text.
pub open spec fn words(s: Seq<char>) -> Seq<Seq<char>> {
    flush(lex(s)).words
}

/// End the word under way.
fn push_word(out: &mut Vec<String>, current: &mut Vec<char>)
    ensures
        final(current)@ == Seq::<char>::empty(),
        final(out).deep_view() == (if old(current)@.len() > 0 {
            old(out).deep_view().push(old(current)@)
        } else {
            old(out).deep_view()
        }),
{
    if current.len() > 0 {
        let w = string_of(current, 0, current.len());
        assert(w@ =~= current@);
        out.push(w);
        assert(out.deep_view() =~= old(out).deep_view().push(old(current)@));
        current.clear();
    } else {
        assert(current@ =~= Seq::<char>::empty());
    }
}

/// Split SQL text into words.
pub fn tokenize(sql: &str) -> (r: Vec<String>)
    ensures
        r.deep_view() == words(sql@),
{
    let chars = chars_of(sql);
    let ghost s = sql@;
    let mut out: Vec<String> = Vec::new();
    let mut current: Vec<char> = Vec::new();
    let mut quote: Option<char> = None;
    let mut i: usize = 0;
    assert(s.take(0) =~= seq![]);
    assert(out.deep_view() =~= seq![]);
    while i < chars.len()
        invariant
            i <= chars@.len(),
            s == chars@,
            lex(s.take(i as int)) == (Lex { words: out.deep_view(), current: current@, quote }),
        decreases chars.len() - i,
    {
        let c = chars[i];
        assert(s.take(i + 1).drop_last() =~= s.take(i as int));
        let ghost before = out.deep_view();
        match quote {
            Some(q) => {
                current.push(c);
                if c == q {
                    quote = None;
                }
            },
            None => {
                if c == '\'' || c == '"' || c == '`' {
                    quote = Some(c);
                    current.push(c);
                } else if c.is_whitespace() {
                    push_word(&mut out, &mut current);
                } else if c == '(' || c == ')' || c == ',' {
                    push_word(&mut out, &mut current);
                    let ghost mid = out.deep_view();
                    let mut w = String::new();
                    w.push(c);
                    assert(w@ =~= seq![c]);
                    out.push(w);
                    assert(out.deep_view() =~= mid.push(seq![c]));
                } else {
                    current.push(c);
                }
            },
        }
        i = i + 1;
    }
    assert(s.take(i as int) =~= s);
    push_word(&mut out, &mut current);
    out
}

/// Is the word at `i` this keyword, in any case of ASCII letters?
pub open spec fn is_word(toks: Seq<Seq<char>>, i: int, w: Seq<char>) -> bool {
    0 <= i < toks.len() && crate::text::ascii_uppercase(toks[i]) == crate::text::ascii_uppercase(w)
}

/// Where reading goes on after a keyword that may stand at `i`.
pub open spec fn after_word(toks: Seq<Seq<char>>, i: int, w: Seq<char>) -> int {
    if is_word(toks, i, w) {
        i + 1
    } else {
        i
    }
}

/// Is the word at `i` this keyword?
pub fn word_is(tokens: &Vec<String>, i: usize, w: &str) -> (r: bool)
    ensures
        r == is_word(tokens.deep_view(), i as int, w@),
{
    if i < tokens.len() {
        assert(tokens.deep_view()[i as int] == tokens@[i as int]@);
        eq_ignore_case(tokens[i].as_str(), w)
    } else {
        false
    }
}

/// Step over a keyword, if it is there.
pub fn next_is(tokens: &Vec<String>, i: &mut usize, w: &str) -> (r: bool)
    ensures
        r == is_word(tokens.deep_view(), *old(i) as int, w@),
        *final(i) == after_word(tokens.deep_view(), *old(i) as int, w@),
{
    if word_is(tokens, *i, w) {
        assert(*i < tokens.len());
        *i = *i + 1;
        true
    } else {
        false
    }
}

/// Is the word at `i` exactly this text?
pub open spec fn tok_is(toks: Seq<Seq<char>>, i: int, w: Seq<char>) -> bool {
    0 <= i < toks.len() && toks[i] == w
}

/// Is the word at `i` exactly this text?
pub fn token_is(tokens: &Vec<String>, i: usize, w: &str) -> (r: bool)
    ensures
        r == tok_is(tokens.deep_view(), i as int, w@),
{
    if i < tokens.len() {
        assert(tokens.deep_view()[i as int] == tokens@[i as int]@);
        str_eq(tokens[i].as_str(), w)
    } else {
        false
    }
}

/// A text with each doubled `q` made single.
pub open spec fn undouble(s: Seq<char>, q: char) -> Seq<char>
    decreases s.len(),
{
    if s.len() == 0 {
        seq![]
    } else if s.len() >= 2 && s[0] == q && s[1] == q {
        seq![q] + undouble(s.skip(2), q)
    } else {
        seq![s[0]] + undouble(s.skip(1), q)
    }
}

/// Is the text inside a pair of these quotes?
pub open spec fn quoted_by(s: Seq<char>, open: char, close: char) -> bool {
    s.len() >= 2 && s[0] == open && s.last() == close
}

/// A name without its quoting: double quotes, backticks or brackets. Doubled
/// quotes inside stand for one; a lone quote character is no quoting.
pub open spec fn unquoted(s: Seq<char>) -> Seq<char> {
    if quoted_by(s, '"', '"') {
        undouble(s.subrange(1, s.len() - 1), '"')
    } else if quoted_by(s, '`', '`') {
        undouble(s.subrange(1, s.len() - 1), '`')
    } else if quoted_by(s, '[', ']') {
        s.subrange(1, s.len() - 1)
    } else {
        s
    }
}

/// Make each doubled `q` single in the characters from `from` up to `to`.
fn undouble_range(v: &Vec<char>, from: usize, to: usize, q: char) -> (r: String)
    requires
        from <= to <= v@.len(),
    ensures
        r@ == undouble(v@.subrange(from as int, to as int), q),
{
    let ghost s = v@.subrange(from as int, to as int);
    let mut out = String::new();
    let mut i: usize = from;
    assert(s.skip(0) =~= s);
    assert(out@ + undouble(s, q) =~= undouble(s, q));
    while i < to
        invariant
            from <= i <= to <= v@.len(),
            s == v@.subrange(from as int, to as int),
            out@ + undouble(s.skip(i - from), q) == undouble(s, q),
        decreases to - i,
    {
        let ghost rest = s.skip(i - from);
        let ghost before = out@;
        assert(rest[0] == v@[i as int]);
        if to - i >= 2 && v[i] == q && v[i + 1] == q {
            assert(rest[1] == v@[i + 1]);
            out.push(q);
            assert(rest.skip(2) =~= s.skip(i + 2 - from));
            assert(out@ + undouble(rest.skip(2), q) =~= before + (seq![q] + undouble(
                rest.skip(2),
                q,
            )));
            i = i + 2;
        } else {
            let c = v[i];
            assert(rest.len() >= 2 ==> rest[1] == v@[i + 1]);
            out.push(c);
            assert(rest.skip(1) =~= s.skip(i + 1 - from));
            assert(out@ + undouble(rest.skip(1), q) =~= before + (seq![c] + undouble(
                rest.skip(1),
                q,
            )));
            i = i + 1;
        }
    }
    assert(s.skip(i - from) =~= seq![]);
    assert(out@ + seq![] =~= out@);
    out
}

/// A name without its quoting.
pub fn unquote_ident(tok: &str) -> (r: String)
    ensures
        r@ == unquoted(tok@),
{
    let v = chars_of(tok);
    let n: usize = v.len();
    if n >= 2 {
        let open = v[0];
        let close = v[n - 1];
        if open == '"' && close == '"' {
            return undouble_range(&v, 1, n - 1, '"');
        }
        if open == '`' && close == '`' {
            return undouble_range(&v, 1, n - 1, '`');
        }
        if open == '[' && close == ']' {
            return string_of(&v, 1, n - 1);
        }
    }
    tok.to_owned()
}

/// The first closing parenthesis at or after `i`, or the end.
pub open spec fn close_at(toks: Seq<Seq<char>>, i: int) -> int
    decreases toks.len() - i,
{
    if i >= toks.len() || toks[i] == ")"@ {
        i
    } else {
        close_at(toks, i + 1)
    }
}

/// The names between two places, without commas and quoting.
pub open spec fn names_between(toks: Seq<Seq<char>>, a: int, b: int) -> Seq<Seq<char>>
    decreases b - a,
{
    if a >= b {
        seq![]
    } else {
        let before = names_between(toks, a, b - 1);
        if toks[b - 1] == ","@ {
            before
        } else {
            before.push(unquoted(toks[b - 1]))
        }
    }
}

/// The names of a parenthesised list that opens at `i`, and the place behind it.
pub open spec fn paren_list(toks: Seq<Seq<char>>, i: int) -> Option<(Seq<Seq<char>>, int)> {
    if !is_word(toks, i, "("@) {
        None
    } else {
        let j = close_at(toks, i + 1);
        if j >= toks.len() {
            None
        } else {
            Some((names_between(toks, i + 1, j), j + 1))
        }
    }
}

/// Read a parenthesised list of names that opens at `i`.
pub fn read_paren_list(tokens: &Vec<String>, i: &mut usize) -> (r: Option<Vec<String>>)
    ensures
        match paren_list(tokens.deep_view(), *old(i) as int) {
            Some((names, next)) => r matches Some(v) && v.deep_view() == names && *final(i) == next,
            None => r is None,
        },
{
    let ghost t = tokens.deep_view();
    if !next_is(tokens, i, "(") {
        return None;
    }
    let ghost start = *i as int;
    let mut names: Vec<String> = Vec::new();
    assert(names.deep_view() =~= seq![]);
    while *i < tokens.len() && !token_is(tokens, *i, ")")
        invariant
            start <= *i <= tokens@.len(),
            t == tokens.deep_view(),
            close_at(t, *i as int) == close_at(t, start),
            names.deep_view() == names_between(t, start, *i as int),
        decreases tokens.len() - *i,
    {
        let ghost before = names.deep_view();
        assert(t[*i as int] == tokens@[*i as int]@);
        if !token_is(tokens, *i, ",") {
            let w = unquote_ident(tokens[*i].as_str());
            let ghost x = w@;
            names.push(w);
            assert(names.deep_view() =~= before.push(x));
        }
        *i = *i + 1;
    }
    if *i >= tokens.len() {
        return None;
    }
    *i = *i + 1;
    Some(names)
}

/// The parenthesis that closes a group, `depth` of whose inner groups are open, at or
/// after `j`; the end where none does.
pub open spec fn group_end(toks: Seq<Seq<char>>, j: int, depth: nat) -> int
    decreases toks.len() - j,
{
    if j >= toks.len() {
        j
    } else if toks[j] == "("@ {
        group_end(toks, j + 1, depth + 1)
    } else if toks[j] == ")"@ {
        if depth == 0 {
            j
        } else {
            group_end(toks, j + 1, (depth - 1) as nat)
        }
    } else {
        group_end(toks, j + 1, depth)
    }
}

/// The words of the group that opens at `i`, commas and inner groups and all, names
/// without their quoting.
pub open spec fn group_at(toks: Seq<Seq<char>>, i: int) -> Option<Seq<Seq<char>>> {
    if !tok_is(toks, i, "("@) {
        None
    } else {
        let j = group_end(toks, i + 1, 0);
        if j >= toks.len() {
            None
        } else {
            Some(toks.subrange(i + 1, j).map_values(|w: Seq<char>| unquoted(w)))
        }
    }
}

/// Read the words of the group that opens at `i`.
pub fn read_group(tokens: &Vec<String>, i: usize) -> (r: Option<Vec<String>>)
    ensures
        r.deep_view() == group_at(tokens.deep_view(), i as int),
{
    let ghost t = tokens.deep_view();
    if !token_is(tokens, i, "(") {
        return None;
    }
    let n: usize = tokens.len();
    assert(tok_is(t, i as int, "("@) && i < n);
    let mut j: usize = i + 1;
    let mut depth: usize = 0;
    let mut words: Vec<String> = Vec::new();
    let ghost f = |w: Seq<char>| unquoted(w);
    assert(words.deep_view() =~= t.subrange(i + 1, i + 1).map_values(f));
    while j < tokens.len()
        invariant
            i < j <= tokens@.len(),
            t == tokens.deep_view(),
            depth <= j,
            f == |w: Seq<char>| unquoted(w),
            tok_is(t, i as int, "("@),
            group_end(t, j as int, depth as nat) == group_end(t, i + 1, 0),
            words.deep_view() == t.subrange(i + 1, j as int).map_values(f),
        decreases tokens.len() - j,
    {
        let ghost before = words.deep_view();
        assert(t[j as int] == tokens@[j as int]@);
        if token_is(tokens, j, "(") {
            depth = depth + 1;
        } else if token_is(tokens, j, ")") {
            if depth == 0 {
                return Some(words);
            }
            depth = depth - 1;
        }
        let w = unquote_ident(tokens[j].as_str());
        let ghost x = w@;
        words.push(w);
        assert(words.deep_view() =~= before.push(x));
        assert(words.deep_view() =~= t.subrange(i + 1, j + 1).map_values(f));
        j = j + 1;
    }
    None
}

/// The first opening parenthesis at or after `i`, or the end.
pub open spec fn open_at(toks: Seq<Seq<char>>, i: int) -> int
    decreases toks.len() - i,
{
    if i >= toks.len() || toks[i] == "("@ {
        i
    } else {
        open_at(toks, i + 1)
    }
}

/// The words up to the parenthesis that closes the group, and the place behind
/// it; the end where none does.
pub open spec fn group_words(
    toks: Seq<Seq<char>>,
    j: int,
    depth: nat,
    parts: Seq<Seq<char>>,
) -> (Seq<Seq<char>>, int)
    decreases toks.len() - j,
{
    if j >= toks.len() {
        (parts, j)
    } else if toks[j] == "("@ {
        group_words(toks, j + 1, depth + 1, parts.push(toks[j]))
    } else if toks[j] == ")"@ {
        if depth == 0 {
            (parts, j + 1)
        } else {
            group_words(toks, j + 1, (depth - 1) as nat, parts.push(toks[j]))
        }
    } else {
        group_words(toks, j + 1, depth, parts.push(toks[j]))
    }
}

/// The text of the parenthesised expression behind the keyword at `i`, and the
/// place behind it. A keyword without an expression has an empty one and takes
/// up its own place only.
pub open spec fn paren_expr(toks: Seq<Seq<char>>, i: int) -> (Seq<char>, int) {
    let j = open_at(toks, i);
    if j >= toks.len() {
        (seq![], i + 1)
    } else {
        let (parts, next) = group_words(toks, j + 1, 0, seq![]);
        (crate::text::joined(parts, " "@), next)
    }
}

/// Capture the parenthesised expression behind the keyword at `i`.
pub fn capture_paren_expr(tokens: &Vec<String>, i: usize) -> (r: (String, usize))
    requires
        i < tokens@.len(),
    ensures
        (r.0@, r.1 as int) == paren_expr(tokens.deep_view(), i as int),
        i < r.1 <= tokens@.len(),
{
    let ghost t = tokens.deep_view();
    let mut j: usize = i;
    while j < tokens.len() && !token_is(tokens, j, "(")
        invariant
            i <= j <= tokens@.len(),
            t == tokens.deep_view(),
            open_at(t, j as int) == open_at(t, i as int),
        decreases tokens.len() - j,
    {
        j = j + 1;
    }
    if j >= tokens.len() {
        let e = String::new();
        assert(e@ =~= seq![]);
        return (e, i + 1);
    }
    j = j + 1;
    let ghost from = j as int;
    let mut depth: usize = 0;
    let mut parts: Vec<String> = Vec::new();
    assert(parts.deep_view() =~= seq![]);
    let mut done: bool = false;
    while j < tokens.len() && !done
        invariant
            from <= j <= tokens@.len(),
            i < from,
            t == tokens.deep_view(),
            depth <= j,
            !done ==> group_words(t, j as int, depth as nat, parts.deep_view()) == group_words(
                t,
                from,
                0,
                seq![],
            ),
            done ==> (parts.deep_view(), j as int) == group_words(t, from, 0, seq![]),
        decreases tokens.len() - j + (if done { 0int } else { 1int }),
    {
        let ghost before = parts.deep_view();
        assert(t[j as int] == tokens@[j as int]@);
        if token_is(tokens, j, "(") {
            depth = depth + 1;
            parts.push(tokens[j].clone());
            assert(parts.deep_view() =~= before.push(t[j as int]));
            j = j + 1;
        } else if token_is(tokens, j, ")") {
            if depth == 0 {
                done = true;
                j = j + 1;
            } else {
                depth = depth - 1;
                parts.push(tokens[j].clone());
                assert(parts.deep_view() =~= before.push(t[j as int]));
                j = j + 1;
            }
        } else {
            parts.push(tokens[j].clone());
            assert(parts.deep_view() =~= before.push(t[j as int]));
            j = j + 1;
        }
    }
    (join(&parts, " "), j)
}

} // verus!
