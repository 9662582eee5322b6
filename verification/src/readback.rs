//! A statement that is written for a schema declares that schema.

use vstd::prelude::*;

use crate::merge_schema::{ColModel, SchemaModel};
use crate::sql::Lex;
use crate::staging::SnapModel;
use crate::table_merge::{Fault, MergedModel, TablesModel};

verus! {

// ---------------------------------------------------------------------------
// Words of texts behind one another
// ---------------------------------------------------------------------------

/// Read characters from a state on.
spec fn lex_on(l: Lex, s: Seq<char>) -> Lex
    decreases s.len(),
{
    if s.len() == 0 {
        l
    } else {
        crate::sql::lex_step(lex_on(l, s.drop_last()), s.last())
    }
}

/// Between two words, these behind it.
spec fn rest(words: Seq<Seq<char>>) -> Lex {
    Lex { words, current: seq![], quote: None }
}

/// Within a word, these behind it.
spec fn within(words: Seq<Seq<char>>, current: Seq<char>, quote: Option<char>) -> Lex {
    Lex { words, current, quote }
}

proof fn lemma_lex_on(s: Seq<char>)
    ensures
        crate::sql::lex(s) == lex_on(rest(seq![]), s),
    decreases s.len(),
{
    if s.len() > 0 {
        lemma_lex_on(s.drop_last());
    }
}

proof fn lemma_on_behind(l: Lex, a: Seq<char>, b: Seq<char>)
    ensures
        lex_on(l, a + b) == lex_on(lex_on(l, a), b),
    decreases b.len(),
{
    if b.len() == 0 {
        assert(a + b =~= a);
    } else {
        assert((a + b).drop_last() =~= a + b.drop_last());
        assert((a + b).last() == b.last());
        lemma_on_behind(l, a, b.drop_last());
    }
}

/// The words so far do not matter to what follows.
proof fn lemma_on_shift(words: Seq<Seq<char>>, current: Seq<char>, quote: Option<char>, s: Seq<char>)
    ensures
        ({
            let x = lex_on(within(seq![], current, quote), s);
            lex_on(within(words, current, quote), s) == within(words + x.words, x.current, x.quote)
        }),
    decreases s.len(),
{
    if s.len() == 0 {
        assert(words + Seq::<Seq<char>>::empty() =~= words);
    } else {
        lemma_on_shift(words, current, quote, s.drop_last());
        let x = lex_on(within(seq![], current, quote), s.drop_last());
        let c = s.last();
        let f = crate::sql::flush(x);
        assert(words + x.words.push(x.current) =~= (words + x.words).push(x.current));
        assert(words + f.words.push(seq![c]) =~= (words + f.words).push(seq![c]));
    }
}

/// Does a text end outside of quotes?
pub open spec fn closed(s: Seq<char>) -> bool {
    crate::sql::lex(s).quote is None
}

/// Is a character one that ends no word and opens no quote?
spec fn plain(c: char) -> bool {
    !(c == '\'' || c == '"' || c == '`') && !crate::text::white_space(c) && !(c == '(' || c == ')'
        || c == ',')
}

proof fn lemma_on_plain(words: Seq<Seq<char>>, current: Seq<char>, s: Seq<char>)
    requires
        forall|i: int| 0 <= i < s.len() ==> plain(#[trigger] s[i]),
    ensures
        lex_on(within(words, current, None), s) == within(words, current + s, None),
    decreases s.len(),
{
    if s.len() == 0 {
        assert(current + s =~= current);
    } else {
        let d = s.drop_last();
        assert forall|i: int| 0 <= i < d.len() implies plain(#[trigger] d[i]) by {
            assert(d[i] == s[i]);
        }
        lemma_on_plain(words, current, d);
        assert(plain(s[s.len() - 1]));
        assert((current + d).push(s.last()) =~= current + s);
    }
}

proof fn lemma_on_quoted(words: Seq<Seq<char>>, current: Seq<char>, s: Seq<char>)
    requires
        !s.contains('"'),
    ensures
        lex_on(within(words, current, Some('"')), s) == within(words, current + s, Some('"')),
    decreases s.len(),
{
    if s.len() == 0 {
        assert(current + s =~= current);
    } else {
        let d = s.drop_last();
        assert(s[s.len() - 1] != '"');
        if d.contains('"') {
            let i = choose|i: int| 0 <= i < d.len() && d[i] == '"';
            assert(s[i] == '"');
        }
        lemma_on_quoted(words, current, d);
        assert((current + d).push(s.last()) =~= current + s);
    }
}

proof fn lemma_on_one(l: Lex, c: char)
    ensures
        lex_on(l, seq![c]) == crate::sql::lex_step(l, c),
{
    assert(seq![c].drop_last() =~= seq![]);
    reveal_with_fuel(lex_on, 2);
}

/// A closed text with a space behind it adds its words.
proof fn lemma_on_spaced(words: Seq<Seq<char>>, s: Seq<char>)
    requires
        closed(s),
    ensures
        lex_on(rest(words), s + seq![' ']) == rest(words + crate::sql::words(s)),
        lex_on(rest(words), s + seq![',']) == rest(
            (words + crate::sql::words(s)).push(seq![',']),
        ),
        lex_on(rest(words), s + seq![')']) == rest(
            (words + crate::sql::words(s)).push(seq![')']),
        ),
{
    lemma_lex_on(s);
    lemma_on_shift(words, seq![], None, s);
    let x = lex_on(rest(seq![]), s);
    lemma_on_behind(rest(words), s, seq![' ']);
    lemma_on_behind(rest(words), s, seq![',']);
    lemma_on_behind(rest(words), s, seq![')']);
    let l = lex_on(rest(words), s);
    lemma_on_one(l, ' ');
    lemma_on_one(l, ',');
    lemma_on_one(l, ')');
    assert(words + x.words.push(x.current) =~= (words + x.words).push(x.current));
}

/// A name in double quotes is one word.
proof fn lemma_on_name(words: Seq<Seq<char>>, name: Seq<char>)
    requires
        !name.contains('"'),
    ensures
        lex_on(rest(words), seq!['"'] + name + seq!['"']) == within(
            words,
            seq!['"'] + name + seq!['"'],
            None,
        ),
{
    let q = seq!['"'];
    lemma_on_behind(rest(words), q + name, q);
    lemma_on_behind(rest(words), q, name);
    lemma_on_one(rest(words), '"');
    assert(Seq::<char>::empty().push('"') =~= q);
    lemma_on_quoted(words, q, name);
    lemma_on_one(within(words, q + name, Some('"')), '"');
    assert((q + name).push('"') =~= q + name + q);
}

/// A name in double quotes without quotes in it stands for itself.
proof fn lemma_unquoted_name(name: Seq<char>)
    requires
        !name.contains('"'),
    ensures
        crate::sql::unquoted(seq!['"'] + name + seq!['"']) == name,
{
    let q = seq!['"'] + name + seq!['"'];
    assert(q[0] == '"' && q.last() == '"');
    assert(q.subrange(1, q.len() - 1) =~= name);
    lemma_undouble_plain(name);
}

proof fn lemma_undouble_plain(s: Seq<char>)
    requires
        !s.contains('"'),
    ensures
        crate::sql::undouble(s, '"') == s,
    decreases s.len(),
{
    if s.len() > 0 {
        assert(s[0] != '"');
        let t = s.skip(1);
        if t.contains('"') {
            let i = choose|i: int| 0 <= i < t.len() && t[i] == '"';
            assert(s[i + 1] == '"');
        }
        lemma_undouble_plain(t);
        assert(seq![s[0]] + t =~= s);
    } else {
        assert(s =~= seq![]);
    }
}

// ---------------------------------------------------------------------------
// Words written with a space behind each
// ---------------------------------------------------------------------------

/// Words with a space behind each.
pub open spec fn run_of(words: Seq<Seq<char>>) -> Seq<char>
    decreases words.len(),
{
    if words.len() == 0 {
        seq![]
    } else {
        run_of(words.drop_last()) + words.last() + seq![' ']
    }
}

/// Does a word read as itself?
spec fn solid(w: Seq<char>) -> bool {
    ||| w == seq!['('] || w == seq![')'] || w == seq![',']
    ||| w.len() > 0 && lex_on(rest(seq![]), w) == within(seq![], w, None)
}

proof fn lemma_words_solid(s: Seq<char>)
    ensures
        ({
            let l = crate::sql::lex(s);
            &&& forall|i: int| 0 <= i < l.words.len() ==> solid(#[trigger] l.words[i])
            &&& lex_on(rest(seq![]), l.current) == within(seq![], l.current, l.quote)
        }),
    decreases s.len(),
{
    if s.len() > 0 {
        lemma_words_solid(s.drop_last());
        let l = crate::sql::lex(s.drop_last());
        let c = s.last();
        let cur = l.current;
        lemma_on_behind(rest(seq![]), cur, seq![c]);
        lemma_on_one(lex_on(rest(seq![]), cur), c);
        assert(cur.push(c) =~= cur + seq![c]);
        let f = crate::sql::flush(l);
        if l.quote is None {
            assert forall|i: int| 0 <= i < f.words.len() implies solid(#[trigger] f.words[i]) by {
                if i < l.words.len() {
                    assert(f.words[i] == l.words[i]);
                } else {
                    assert(f.words[i] == cur);
                }
            }
            assert(solid(seq![c]) || !(c == '(' || c == ')' || c == ','));
            let g = f.words.push(seq![c]);
            assert forall|i: int|
                0 <= i < g.len() && (c == '(' || c == ')' || c == ',') implies solid(
                #[trigger] g[i],
            ) by {
                if i < f.words.len() {
                    assert(g[i] == f.words[i]);
                }
            }
        }
    }
}

/// The words of a closed text read back from their run.
proof fn lemma_run_reads(words: Seq<Seq<char>>)
    requires
        forall|i: int| 0 <= i < words.len() ==> solid(#[trigger] words[i]),
    ensures
        lex_on(rest(seq![]), run_of(words)) == rest(words),
    decreases words.len(),
{
    if words.len() > 0 {
        let d = words.drop_last();
        let w = words.last();
        assert forall|i: int| 0 <= i < d.len() implies solid(#[trigger] d[i]) by {
            assert(d[i] == words[i]);
        }
        assert(solid(words[words.len() - 1]));
        lemma_run_reads(d);
        lemma_on_behind(rest(seq![]), run_of(d) + w, seq![' ']);
        lemma_on_behind(rest(seq![]), run_of(d), w);
        assert(words =~= d.push(w));
        if w == seq!['('] || w == seq![')'] || w == seq![','] {
            lemma_on_one(rest(d), w[0]);
            assert(w =~= seq![w[0]]);
            lemma_on_one(rest(d.push(w)), ' ');
        } else {
            lemma_on_shift(d, seq![], None, w);
            assert(d + Seq::<Seq<char>>::empty() =~= d);
            lemma_on_one(within(d, w, None), ' ');
        }
    } else {
        assert(words =~= seq![]);
    }
}

proof fn lemma_trim_end_words(s: Seq<char>)
    requires
        closed(s),
    ensures
        closed(crate::text::trim_end(s)),
        crate::sql::words(crate::text::trim_end(s)) == crate::sql::words(s),
    decreases s.len(),
{
    if s.len() > 0 && crate::text::white_space(s.last()) {
        let d = s.drop_last();
        let l = crate::sql::lex(d);
        let c = s.last();
        assert(c != '\'' && c != '"' && c != '`');
        if l.quote is Some {
            assert(l.quote == Some('\'') || l.quote == Some('"') || l.quote == Some('`')) by {
                lemma_quote_marks(d);
            }
        }
        assert(l.quote is None);
        lemma_trim_end_words(d);
        assert(crate::sql::flush(crate::sql::flush(l)) == crate::sql::flush(l));
    }
}

proof fn lemma_quote_marks(s: Seq<char>)
    ensures
        crate::sql::lex(s).quote matches Some(q) ==> q == '\'' || q == '"' || q == '`',
    decreases s.len(),
{
    if s.len() > 0 {
        lemma_quote_marks(s.drop_last());
    }
}

proof fn lemma_trim_start_words(s: Seq<char>)
    ensures
        crate::sql::lex(crate::text::trim_start(s)) == crate::sql::lex(s),
    decreases s.len(),
{
    if s.len() > 0 && crate::text::white_space(s[0]) {
        let t = s.drop_first();
        lemma_trim_start_words(t);
        assert(s =~= seq![s[0]] + t);
        lemma_lex_on(s);
        lemma_lex_on(t);
        lemma_on_behind(rest(seq![]), seq![s[0]], t);
        lemma_on_one(rest(seq![]), s[0]);
        let c = s[0];
        assert(c != '\'' && c != '"' && c != '`' && c != '(' && c != ')' && c != ',');
    }
}

/// The words of a closed text, written as an item of a table's body, are its words.
proof fn lemma_item_words(s: Seq<char>)
    requires
        closed(s),
    ensures
        crate::sql::words(crate::text::trimmed(run_of(crate::sql::words(s)))) == crate::sql::words(
            s,
        ),
        closed(crate::text::trimmed(run_of(crate::sql::words(s)))),
{
    let w = crate::sql::words(s);
    let run = run_of(w);
    lemma_words_solid(s);
    let l = crate::sql::lex(s);
    assert forall|i: int| 0 <= i < w.len() implies solid(#[trigger] w[i]) by {
        if i < l.words.len() {
            assert(w[i] == l.words[i]);
        } else {
            assert(w[i] == l.current);
        }
    }
    lemma_run_reads(w);
    lemma_lex_on(run);
    assert(crate::sql::words(run) == w);
    lemma_trim_start_words(run);
    lemma_trim_end_words(crate::text::trim_start(run));
}

// ---------------------------------------------------------------------------
// Items of a body
// ---------------------------------------------------------------------------

/// How many parentheses words leave open.
pub open spec fn depth_after(words: Seq<Seq<char>>) -> int
    decreases words.len(),
{
    if words.len() == 0 {
        0
    } else {
        depth_after(words.drop_last()) + if words.last() == "("@ {
            1int
        } else if words.last() == ")"@ {
            -1int
        } else {
            0int
        }
    }
}

/// Are words one item of a list: parentheses that match, and commas within them alone?
pub open spec fn one_item(words: Seq<Seq<char>>) -> bool {
    &&& words.len() > 0
    &&& depth_after(words) == 0
    &&& forall|k: int| 0 <= k <= words.len() ==> depth_after(#[trigger] words.take(k)) >= 0
    &&& forall|k: int|
        0 <= k < words.len() && #[trigger] words[k] == ","@ ==> depth_after(words.take(k)) > 0
}

/// The item that a text is read as.
pub open spec fn item_of(text: Seq<char>) -> Seq<char> {
    crate::text::trimmed(run_of(crate::sql::words(text)))
}

proof fn lemma_marks()
    ensures
        "("@ == seq!['('],
        ")"@ == seq![')'],
        ","@ == seq![','],
        " "@ == seq![' '],
        "( "@ == "("@ + seq![' '],
        ") "@ == ")"@ + seq![' '],
        ", "@ == ","@ + seq![' '],
        "("@ != ")"@,
        "("@ != ","@,
        ")"@ != ","@,
{
    reveal_strlit("(");
    reveal_strlit(")");
    reveal_strlit(",");
    reveal_strlit(" ");
    reveal_strlit("( ");
    reveal_strlit(") ");
    reveal_strlit(", ");
    assert("("@ =~= seq!['(']);
    assert(")"@ =~= seq![')']);
    assert(","@ =~= seq![',']);
    assert(" "@ =~= seq![' ']);
    assert("( "@ =~= "("@ + seq![' ']);
    assert(") "@ =~= ")"@ + seq![' ']);
    assert(", "@ =~= ","@ + seq![' ']);
    assert(seq!['('][0] == '(' && seq![')'][0] == ')' && seq![','][0] == ',');
}

/// An item is read on to its end.
proof fn lemma_body_run(
    toks: Seq<Seq<char>>,
    i: int,
    w: Seq<Seq<char>>,
    items: Seq<Seq<char>>,
    cur: Seq<char>,
    k: int,
)
    requires
        0 <= i,
        i + w.len() <= toks.len(),
        toks.subrange(i, i + w.len()) == w,
        one_item(w),
        0 <= k <= w.len(),
    ensures
        crate::merge_schema::body_items(toks, i, 1, items, cur) == crate::merge_schema::body_items(
            toks,
            i + k,
            (1 + depth_after(w.take(k))) as nat,
            items,
            cur + run_of(w.take(k)),
        ),
    decreases k,
{
    lemma_marks();
    if k == 0 {
        assert(w.take(0) =~= seq![]);
        assert(cur + run_of(w.take(0)) =~= cur);
    } else {
        let j = k - 1;
        lemma_body_run(toks, i, w, items, cur, j);
        assert(w.take(k).drop_last() =~= w.take(j));
        assert(w.take(k).last() == w[j]);
        assert(toks[i + j] == w[j]) by {
            assert(toks.subrange(i, i + w.len())[j] == w[j]);
        }
        let d = depth_after(w.take(j));
        assert(d >= 0);
        assert(depth_after(w.take(k)) >= 0);
        let now = cur + run_of(w.take(j));
        assert(now + "( "@ =~= now + "("@ + seq![' ']);
        assert(now + ") "@ =~= now + ")"@ + seq![' ']);
        assert(cur + run_of(w.take(k)) =~= now + w[j] + seq![' ']);
    }
}

/// The words of items with commas between them.
spec fn listed_words(parts: Seq<Seq<char>>) -> Seq<Seq<char>>
    decreases parts.len(),
{
    if parts.len() == 0 {
        seq![]
    } else if parts.len() == 1 {
        crate::sql::words(parts[0])
    } else {
        listed_words(parts.drop_last()).push(","@) + crate::sql::words(parts.last())
    }
}

/// Texts with commas between them and a mark behind read as their words.
proof fn lemma_list_reads(words: Seq<Seq<char>>, parts: Seq<Seq<char>>)
    requires
        parts.len() > 0,
        forall|i: int| 0 <= i < parts.len() ==> closed(#[trigger] parts[i]),
    ensures
        lex_on(rest(words), crate::text::joined(parts, ", "@) + seq![',']) == rest(
            (words + listed_words(parts)).push(seq![',']),
        ),
        lex_on(rest(words), crate::text::joined(parts, ", "@) + seq![')']) == rest(
            (words + listed_words(parts)).push(seq![')']),
        ),
    decreases parts.len(),
{
    lemma_marks();
    let text = crate::text::joined(parts, ", "@);
    assert(closed(parts[parts.len() - 1]));
    if parts.len() == 1 {
        lemma_on_spaced(words, parts[0]);
    } else {
        let d = parts.drop_last();
        let last = parts.last();
        assert forall|i: int| 0 <= i < d.len() implies closed(#[trigger] d[i]) by {
            assert(d[i] == parts[i]);
        }
        lemma_list_reads(words, d);
        let front = crate::text::joined(d, ", "@);
        let behind = (words + listed_words(d)).push(seq![',']);
        lemma_on_one(rest(behind), ' ');
        lemma_on_spaced(behind, last);
        lemma_on_behind(rest(words), front + seq![','], seq![' ']);
        let head = front + seq![','] + seq![' '];
        assert(text + seq![','] =~= head + (last + seq![',']));
        assert(text + seq![')'] =~= head + (last + seq![')']));
        lemma_on_behind(rest(words), head, last + seq![',']);
        lemma_on_behind(rest(words), head, last + seq![')']);
        let w = crate::sql::words(last);
        assert(behind + w =~= words + listed_words(parts));
    }
}

/// The items of a body are those that were written, up to the last.
proof fn lemma_body_list(toks: Seq<Seq<char>>, n: int, parts: Seq<Seq<char>>)
    requires
        parts.len() > 0,
        0 <= n,
        n + listed_words(parts).len() <= toks.len(),
        toks.subrange(n, n + listed_words(parts).len()) == listed_words(parts),
        forall|i: int|
            0 <= i < parts.len() ==> one_item(crate::sql::words(#[trigger] parts[i])),
    ensures
        crate::merge_schema::body_items(toks, n, 1, seq![], seq![])
            == crate::merge_schema::body_items(
            toks,
            n + listed_words(parts).len(),
            1,
            parts.drop_last().map_values(|p: Seq<char>| item_of(p)),
            run_of(crate::sql::words(parts.last())),
        ),
    decreases parts.len(),
{
    lemma_marks();
    let f = |p: Seq<char>| item_of(p);
    let all = listed_words(parts);
    let last = parts.last();
    let w = crate::sql::words(last);
    assert(one_item(crate::sql::words(parts[parts.len() - 1])));
    assert(w.take(w.len() as int) =~= w);
    if parts.len() == 1 {
        lemma_body_run(toks, n, w, seq![], seq![], w.len() as int);
        assert(Seq::<char>::empty() + run_of(w) =~= run_of(w));
        assert(parts.drop_last().map_values(f) =~= seq![]);
    } else {
        let d = parts.drop_last();
        assert forall|i: int| 0 <= i < d.len() implies one_item(
            crate::sql::words(#[trigger] d[i]),
        ) by {
            assert(d[i] == parts[i]);
        }
        let front = listed_words(d);
        let whole = toks.subrange(n, n + all.len());
        assert(toks.subrange(n, n + front.len()) =~= front) by {
            assert forall|j: int| 0 <= j < front.len() implies toks[n + j] == front[j] by {
                assert(whole[j] == all[j]);
            }
        }
        lemma_body_list(toks, n, d);
        let at = n + front.len();
        assert(toks[at] == ","@) by {
            assert(whole[front.len() as int] == all[front.len() as int]);
        }
        assert(toks.subrange(at + 1, at + 1 + w.len()) =~= w) by {
            assert forall|j: int| 0 <= j < w.len() implies toks[at + 1 + j] == w[j] by {
                assert(whole[front.len() + 1 + j] == all[front.len() + 1 + j]);
            }
        }
        let items = d.map_values(f);
        assert(d.drop_last().map_values(f).push(item_of(d.last())) =~= items);
        lemma_body_run(toks, at + 1, w, items, seq![], w.len() as int);
        assert(Seq::<char>::empty() + run_of(w) =~= run_of(w));
    }
}

/// The items of a body that closes are those that were written.
proof fn lemma_body_items(toks: Seq<Seq<char>>, n: int, parts: Seq<Seq<char>>)
    requires
        parts.len() > 0,
        0 <= n,
        n + listed_words(parts).len() < toks.len(),
        toks.subrange(n, n + listed_words(parts).len()) == listed_words(parts),
        toks[n + listed_words(parts).len()] == ")"@,
        forall|i: int|
            0 <= i < parts.len() ==> closed(#[trigger] parts[i]) && one_item(
                crate::sql::words(parts[i]),
            ),
    ensures
        crate::merge_schema::body_items(toks, n, 1, seq![], seq![]) == (
            parts.map_values(|p: Seq<char>| item_of(p)),
            n + listed_words(parts).len() + 1,
        ),
{
    lemma_marks();
    let f = |p: Seq<char>| item_of(p);
    lemma_body_list(toks, n, parts);
    let last = parts.last();
    assert(closed(parts[parts.len() - 1]) && one_item(crate::sql::words(parts[parts.len() - 1])));
    lemma_item_words(last);
    if item_of(last).len() == 0 {
        assert(item_of(last) =~= seq![]);
        assert(crate::sql::words(item_of(last)).len() == 0);
    }
    assert(parts.drop_last().map_values(f).push(item_of(last)) =~= parts.map_values(f));
}

// ---------------------------------------------------------------------------
// The statement
// ---------------------------------------------------------------------------

/// A plain word with a space behind it is one word.
proof fn lemma_on_word(words: Seq<Seq<char>>, w: Seq<char>)
    requires
        w.len() > 0,
        forall|i: int| 0 <= i < w.len() ==> plain(#[trigger] w[i]),
    ensures
        lex_on(rest(words), w + seq![' ']) == rest(words.push(w)),
{
    lemma_on_plain(words, seq![], w);
    assert(Seq::<char>::empty() + w =~= w);
    lemma_on_behind(rest(words), w, seq![' ']);
    lemma_on_one(within(words, w, None), ' ');
}

/// The words that statements are written with.
proof fn lemma_keywords()
    ensures
        "CREATE TABLE \""@ == ("CREATE"@ + seq![' ']) + ("TABLE"@ + seq![' ']) + seq!['"'],
        "PRIMARY KEY ("@ == ("PRIMARY"@ + seq![' ']) + ("KEY"@ + seq![' ']) + seq!['('],
        "\" ("@ == seq!['"'] + seq![' '] + seq!['('],
        "\" "@ == seq!['"'] + seq![' '],
        "\""@ == seq!['"'],
        " STRICT"@ == seq![' '] + "STRICT"@,
{
    reveal_strlit("CREATE TABLE \"");
    reveal_strlit("PRIMARY KEY (");
    reveal_strlit("CREATE");
    reveal_strlit("TABLE");
    reveal_strlit("PRIMARY");
    reveal_strlit("KEY");
    reveal_strlit("STRICT");
    reveal_strlit(" STRICT");
    reveal_strlit("\" (");
    reveal_strlit("\" ");
    reveal_strlit("\"");
    assert("CREATE TABLE \""@ =~= ("CREATE"@ + seq![' ']) + ("TABLE"@ + seq![' ']) + seq!['"']);
    assert("PRIMARY KEY ("@ =~= ("PRIMARY"@ + seq![' ']) + ("KEY"@ + seq![' ']) + seq!['(']);
    assert("\" ("@ =~= seq!['"'] + seq![' '] + seq!['(']);
    assert("\" "@ =~= seq!['"'] + seq![' ']);
    assert("\""@ =~= seq!['"']);
    assert(" STRICT"@ =~= seq![' '] + "STRICT"@);
}

/// Each keyword is a plain word.
proof fn lemma_on_keyword(words: Seq<Seq<char>>)
    ensures
        lex_on(rest(words), "CREATE"@ + seq![' ']) == rest(words.push("CREATE"@)),
        lex_on(rest(words), "TABLE"@ + seq![' ']) == rest(words.push("TABLE"@)),
        lex_on(rest(words), "PRIMARY"@ + seq![' ']) == rest(words.push("PRIMARY"@)),
        lex_on(rest(words), "KEY"@ + seq![' ']) == rest(words.push("KEY"@)),
        lex_on(rest(words), "STRICT"@) == within(words, "STRICT"@, None),
        "STRICT"@.len() > 0,
{
    reveal_strlit("CREATE");
    reveal_strlit("TABLE");
    reveal_strlit("PRIMARY");
    reveal_strlit("KEY");
    reveal_strlit("STRICT");
    lemma_on_word(words, "CREATE"@);
    lemma_on_word(words, "TABLE"@);
    lemma_on_word(words, "PRIMARY"@);
    lemma_on_word(words, "KEY"@);
    lemma_on_plain(words, seq![], "STRICT"@);
    assert(Seq::<char>::empty() + "STRICT"@ =~= "STRICT"@);
}

/// A quoted name is one word, which no keyword and no mark is.
proof fn lemma_quoted_name(name: Seq<char>)
    requires
        !name.contains('"'),
    ensures
        closed(crate::table_merge::quoted(name)),
        crate::sql::words(crate::table_merge::quoted(name)) == seq![
            crate::table_merge::quoted(name),
        ],
        crate::sql::unquoted(crate::table_merge::quoted(name)) == name,
        crate::table_merge::quoted(name) != "("@,
        crate::table_merge::quoted(name) != ")"@,
        crate::table_merge::quoted(name) != ","@,
        crate::text::ascii_uppercase(crate::table_merge::quoted(name))
            != crate::text::ascii_uppercase("IF"@),
        crate::text::ascii_uppercase(crate::table_merge::quoted(name))
            != crate::text::ascii_uppercase("PRIMARY"@),
{
    lemma_keywords();
    lemma_marks();
    let q = crate::table_merge::quoted(name);
    assert(q == seq!['"'] + name + seq!['"']);
    lemma_on_name(seq![], name);
    lemma_lex_on(q);
    lemma_unquoted_name(name);
    assert(crate::sql::words(q) =~= seq![q]);
    assert(q[0] == '"');
    assert(seq!['('][0] == '(' && seq![')'][0] == ')' && seq![','][0] == ',');
    reveal_strlit("IF");
    reveal_strlit("PRIMARY");
    assert("IF"@[0] == 'I' && "PRIMARY"@[0] == 'P');
    assert(crate::text::ascii_uppercase(q)[0] == '"');
    assert(crate::text::ascii_uppercase("IF"@)[0] == 'I');
    assert(crate::text::ascii_uppercase("PRIMARY"@)[0] == 'P');
}

/// The names of a list of quoted names are the names.
proof fn lemma_listed_names(toks: Seq<Seq<char>>, n: int, names: Seq<Seq<char>>)
    requires
        forall|i: int| 0 <= i < names.len() ==> !(#[trigger] names[i]).contains('"'),
        ({
            let w = listed_words(
                names.map_values(|p: Seq<char>| crate::table_merge::quoted(p)),
            );
            0 <= n && n + w.len() <= toks.len() && toks.subrange(n, n + w.len()) == w
        }),
    ensures
        ({
            let w = listed_words(
                names.map_values(|p: Seq<char>| crate::table_merge::quoted(p)),
            );
            &&& crate::sql::names_between(toks, n, n + w.len()) == names
            &&& forall|i: int|
                0 <= i < w.len() ==> #[trigger] w[i] != "("@ && w[i] != ")"@
        }),
    decreases names.len(),
{
    lemma_marks();
    let f = |p: Seq<char>| crate::table_merge::quoted(p);
    let parts = names.map_values(f);
    let w = listed_words(parts);
    if names.len() == 0 {
        assert(names =~= seq![]);
    } else {
        let d = names.drop_last();
        let last = names.last();
        assert(!names[names.len() - 1].contains('"'));
        lemma_quoted_name(last);
        assert(parts.drop_last() =~= d.map_values(f));
        assert(parts.last() == crate::table_merge::quoted(last));
        let front = listed_words(d.map_values(f));
        assert forall|i: int| 0 <= i < d.len() implies !(#[trigger] d[i]).contains('"') by {
            assert(d[i] == names[i]);
        }
        let whole = toks.subrange(n, n + w.len());
        if names.len() == 1 {
            assert(w == seq![crate::table_merge::quoted(last)]);
            assert(whole[0] == w[0]);
            reveal_with_fuel(crate::sql::names_between, 2);
            assert(names =~= seq![last]);
            assert(crate::sql::names_between(toks, n, n + 1) =~= names);
        } else {
            assert(w =~= front.push(","@).push(crate::table_merge::quoted(last)));
            assert(toks.subrange(n, n + front.len()) =~= front) by {
                assert forall|j: int| 0 <= j < front.len() implies toks[n + j] == front[j] by {
                    assert(whole[j] == w[j]);
                }
            }
            lemma_listed_names(toks, n, d);
            assert(whole[front.len() as int] == ","@);
            assert(whole[front.len() as int + 1] == crate::table_merge::quoted(last));
            let at = n + front.len();
            assert(toks[at] == ","@ && toks[at + 1] == crate::table_merge::quoted(last));
            assert(crate::sql::names_between(toks, n, at + 1) == d);
            assert(crate::sql::names_between(toks, n, at + 2) == d.push(last));
            assert(d.push(last) =~= names);
        }
    }
}

proof fn lemma_depth_behind(a: Seq<Seq<char>>, b: Seq<Seq<char>>)
    ensures
        depth_after(a + b) == depth_after(a) + depth_after(b),
    decreases b.len(),
{
    if b.len() == 0 {
        assert(a + b =~= a);
    } else {
        assert((a + b).drop_last() =~= a + b.drop_last());
        lemma_depth_behind(a, b.drop_last());
    }
}

proof fn lemma_depth_flat(w: Seq<Seq<char>>)
    requires
        forall|i: int| 0 <= i < w.len() ==> #[trigger] w[i] != "("@ && w[i] != ")"@,
    ensures
        depth_after(w) == 0,
    decreases w.len(),
{
    if w.len() > 0 {
        let d = w.drop_last();
        assert forall|i: int| 0 <= i < d.len() implies #[trigger] d[i] != "("@ && d[i] != ")"@ by {
            assert(d[i] == w[i]);
        }
        assert(w[w.len() - 1] == w.last());
        lemma_depth_flat(d);
    }
}

proof fn lemma_close_at(toks: Seq<Seq<char>>, i: int, j: int)
    requires
        0 <= i <= j < toks.len(),
        toks[j] == ")"@,
        forall|k: int| i <= k < j ==> #[trigger] toks[k] != ")"@,
    ensures
        crate::sql::close_at(toks, i) == j,
    decreases j - i,
{
    if i < j {
        lemma_close_at(toks, i + 1, j);
    }
}

/// A primary-key clause.
spec fn key_text(names: Seq<Seq<char>>) -> Seq<char> {
    "PRIMARY KEY ("@ + crate::text::joined(
        names.map_values(|p: Seq<char>| crate::table_merge::quoted(p)),
        ", "@,
    ) + ")"@
}

/// A primary-key clause is one item, and its columns are those it was written with.
proof fn lemma_key_text(names: Seq<Seq<char>>)
    requires
        names.len() > 0,
        forall|i: int| 0 <= i < names.len() ==> !(#[trigger] names[i]).contains('"'),
    ensures
        closed(key_text(names)),
        one_item(crate::sql::words(key_text(names))),
        crate::merge_schema::table_pk(key_text(names)) == Some(names),
{
    lemma_keywords();
    lemma_marks();
    let f = |p: Seq<char>| crate::table_merge::quoted(p);
    let parts = names.map_values(f);
    assert forall|i: int| 0 <= i < parts.len() implies closed(#[trigger] parts[i]) by {
        assert(parts[i] == crate::table_merge::quoted(names[i]));
        lemma_quoted_name(names[i]);
    }
    let text = key_text(names);
    let head = seq!["PRIMARY"@, "KEY"@, "("@];
    let none = rest(seq![]);
    let a = "PRIMARY"@ + seq![' '];
    let b = "KEY"@ + seq![' '];
    lemma_on_keyword(seq![]);
    lemma_on_keyword(seq!["PRIMARY"@]);
    assert(Seq::<Seq<char>>::empty().push("PRIMARY"@) =~= seq!["PRIMARY"@]);
    lemma_on_behind(none, a, b);
    lemma_on_behind(none, a + b, seq!['(']);
    assert(seq!["PRIMARY"@].push("KEY"@) =~= seq!["PRIMARY"@, "KEY"@]);
    lemma_on_one(rest(seq!["PRIMARY"@, "KEY"@]), '(');
    assert(seq!["PRIMARY"@, "KEY"@].push(seq!['(']) =~= head);
    assert(lex_on(none, "PRIMARY KEY ("@) == rest(head));
    let list = crate::text::joined(parts, ", "@);
    lemma_list_reads(head, parts);
    lemma_on_behind(none, "PRIMARY KEY ("@, list + seq![')']);
    assert(text =~= "PRIMARY KEY ("@ + (list + seq![')']));
    let inner = listed_words(parts);
    let toks = (head + inner).push(")"@);
    lemma_lex_on(text);
    assert(crate::sql::words(text) == toks);
    let n = 3 + inner.len();
    assert(toks.subrange(3, n as int) =~= inner);
    lemma_listed_names(toks, 3, names);
    assert forall|k: int| 3 <= k < n implies #[trigger] toks[k] != ")"@ && toks[k] != "("@ by {
        assert(toks[k] == inner[k - 3]);
    }
    lemma_close_at(toks, 3, n as int);
    assert(toks[0] == "PRIMARY"@ && toks[1] == "KEY"@ && toks[2] == "("@);
    assert(one_item(toks)) by {
        reveal_with_fuel(depth_after, 4);
        reveal_strlit("PRIMARY");
        reveal_strlit("KEY");
        assert("PRIMARY"@.len() == 7 && "KEY"@.len() == 3 && "("@.len() == 1 && ")"@.len() == 1
            && ","@.len() == 1);
        assert forall|k: int| 0 <= k <= toks.len() implies depth_after(#[trigger] toks.take(k))
            == if 3 <= k < toks.len() {
            1int
        } else {
            0int
        } by {
            if k == 0 {
                assert(toks.take(k) =~= seq![]);
            } else if k == 1 {
                assert(toks.take(k) =~= seq!["PRIMARY"@]);
                assert(seq!["PRIMARY"@].drop_last() =~= seq![]);
            } else if k == 2 {
                assert(toks.take(k) =~= seq!["PRIMARY"@, "KEY"@]);
                assert(seq!["PRIMARY"@, "KEY"@].drop_last() =~= seq!["PRIMARY"@]);
                assert(seq!["PRIMARY"@].drop_last() =~= seq![]);
            } else {
                assert(head.drop_last() =~= seq!["PRIMARY"@, "KEY"@]);
                assert(seq!["PRIMARY"@, "KEY"@].drop_last() =~= seq!["PRIMARY"@]);
                assert(seq!["PRIMARY"@].drop_last() =~= seq![]);
                assert(depth_after(head) == 1);
                let m = if k < toks.len() {
                    k - 3
                } else {
                    inner.len() as int
                };
                lemma_depth_flat(inner.take(m));
                lemma_depth_behind(head, inner.take(m));
                if k < toks.len() {
                    assert(toks.take(k) =~= head + inner.take(m));
                } else {
                    assert(toks.take(k).drop_last() =~= head + inner.take(m));
                }
            }
        }
        assert(toks.take(toks.len() as int) =~= toks);
    }
}

/// Can a column be read back from its definition?
pub open spec fn column_readable(c: ColModel) -> bool {
    let text = crate::merge_schema::column_text(c);
    &&& !c.name.contains('"')
    &&& closed(text)
    &&& one_item(crate::sql::words(text))
    &&& !crate::merge_schema::is_constraint(text)
    &&& crate::merge_schema::column_of(text) matches Some(x) && {
        &&& x == (ColModel { pk_pos: x.pk_pos, ..c })
        &&& x.pk_pos is Some <==> crate::table_merge::inline_pk(c)
    }
}

/// Can a constraint be read back word for word?
pub open spec fn constraint_readable(k: Seq<char>) -> bool {
    &&& closed(k)
    &&& one_item(crate::sql::words(k))
    &&& item_of(k) == k
    &&& crate::merge_schema::is_constraint(k)
    &&& crate::merge_schema::table_pk(k) is None
}

/// Can a schema be read back: names without quotes, declarations and
/// constraints that read as themselves, each column placed as the key says, and
/// a key that either a clause or one column declares?
pub open spec fn readable(ir: SchemaModel) -> bool {
    &&& !ir.table.contains('"')
    &&& ir.columns.len() > 0
    &&& forall|i: int| 0 <= i < ir.columns.len() ==> column_readable(#[trigger] ir.columns[i])
    &&& forall|i: int|
        0 <= i < ir.columns.len() ==> (#[trigger] ir.columns[i]).pk_pos
            == crate::merge_schema::key_position(ir.pk, ir.columns[i].name)
    &&& forall|i: int| 0 <= i < ir.pk.len() ==> !(#[trigger] ir.pk[i]).contains('"')
    &&& forall|i: int|
        0 <= i < ir.columns.len() && crate::table_merge::inline_pk(#[trigger] ir.columns[i])
            ==> ir.pk == seq![ir.columns[i].name]
    &&& forall|i: int|
        0 <= i < ir.constraints.len() ==> constraint_readable(#[trigger] ir.constraints[i])
}

/// Items with the same words say the same.
proof fn lemma_same_words(a: Seq<char>, b: Seq<char>)
    requires
        crate::sql::words(a) == crate::sql::words(b),
    ensures
        crate::merge_schema::table_pk(a) == crate::merge_schema::table_pk(b),
        crate::merge_schema::is_constraint(a) == crate::merge_schema::is_constraint(b),
        crate::merge_schema::column_of(a) == crate::merge_schema::column_of(b),
{
}

/// A column definition is no primary-key clause.
proof fn lemma_column_text(c: ColModel)
    requires
        !c.name.contains('"'),
    ensures
        crate::merge_schema::table_pk(crate::merge_schema::column_text(c)) is None,
{
    lemma_keywords();
    let q = crate::table_merge::quoted(c.name);
    let text = crate::merge_schema::column_text(c);
    lemma_quoted_name(c.name);
    assert(text =~= (q + seq![' ']) + c.decl);
    lemma_on_spaced(seq![], q);
    assert(Seq::<Seq<char>>::empty() + seq![q] =~= seq![q]);
    lemma_on_behind(rest(seq![]), q + seq![' '], c.decl);
    lemma_on_shift(seq![q], seq![], None, c.decl);
    lemma_lex_on(text);
    assert(crate::sql::words(text)[0] == q);
}

/// The items of columns declare the columns.
proof fn lemma_body_columns(ir: SchemaModel, k: int)
    requires
        readable(ir),
        0 <= k <= ir.columns.len(),
    ensures
        ({
            let items = ir.columns.take(k).map_values(
                |c: ColModel| item_of(crate::merge_schema::column_text(c)),
            );
            let b = crate::merge_schema::body_of(items);
            &&& b.columns.len() == k
            &&& forall|i: int|
                0 <= i < k ==> (#[trigger] b.columns[i]) == (ColModel {
                    pk_pos: b.columns[i].pk_pos,
                    ..ir.columns[i]
                })
            &&& b.constraints == Seq::<Seq<char>>::empty()
            &&& !b.by_clause
            &&& b.pk == if exists|i: int|
                0 <= i < k && crate::table_merge::inline_pk(#[trigger] ir.columns[i]) {
                ir.pk
            } else {
                seq![]
            }
        }),
    decreases k,
{
    let f = |c: ColModel| item_of(crate::merge_schema::column_text(c));
    let items = ir.columns.take(k).map_values(f);
    if k == 0 {
        assert(items =~= seq![]);
    } else {
        lemma_body_columns(ir, k - 1);
        assert(items.drop_last() =~= ir.columns.take(k - 1).map_values(f));
        let c = ir.columns[k - 1];
        let text = crate::merge_schema::column_text(c);
        assert(items.last() == item_of(text));
        assert(column_readable(c));
        lemma_item_words(text);
        lemma_same_words(item_of(text), text);
        lemma_column_text(c);
        let before = crate::merge_schema::body_of(items.drop_last());
        let b = crate::merge_schema::body_of(items);
        let x = crate::merge_schema::column_of(text)->0;
        assert(b.columns == before.columns.push(x));
        if crate::table_merge::inline_pk(c) {
            assert(ir.pk == seq![c.name]);
            assert(seq![c.name][0] == c.name);
            assert(Seq::<Seq<char>>::empty().insert(0, c.name) =~= seq![c.name]);
            assert(ir.pk.contains(c.name));
            assert(b.pk == ir.pk);
            assert(crate::table_merge::inline_pk(ir.columns[k - 1]));
        } else {
            assert(b.pk == before.pk);
            if exists|i: int| 0 <= i < k && crate::table_merge::inline_pk(#[trigger] ir.columns[i]) {
                let i = choose|i: int|
                    0 <= i < k && crate::table_merge::inline_pk(#[trigger] ir.columns[i]);
                assert(0 <= i < k - 1);
            }
        }
    }
}

/// The items of constraints are the constraints.
proof fn lemma_body_constraints(front: Seq<Seq<char>>, cs: Seq<Seq<char>>)
    requires
        forall|i: int| 0 <= i < cs.len() ==> constraint_readable(#[trigger] cs[i]),
    ensures
        ({
            let a = crate::merge_schema::body_of(front);
            let b = crate::merge_schema::body_of(front + cs);
            &&& b.columns == a.columns
            &&& b.pk == a.pk
            &&& b.constraints == a.constraints + cs
        }),
    decreases cs.len(),
{
    if cs.len() == 0 {
        assert(front + cs =~= front);
        let a = crate::merge_schema::body_of(front);
        assert(a.constraints + cs =~= a.constraints);
    } else {
        let d = cs.drop_last();
        assert forall|i: int| 0 <= i < d.len() implies constraint_readable(#[trigger] d[i]) by {
            assert(d[i] == cs[i]);
        }
        lemma_body_constraints(front, d);
        assert((front + cs).drop_last() =~= front + d);
        assert((front + cs).last() == cs.last());
        assert(constraint_readable(cs[cs.len() - 1]));
        let a = crate::merge_schema::body_of(front);
        assert((a.constraints + d).push(cs.last()) =~= a.constraints + cs);
    }
}

/// What the parts of a statement declare is the schema.
proof fn lemma_body_parts(ir: SchemaModel)
    requires
        readable(ir),
    ensures
        ({
            let b = crate::merge_schema::body_of(
                crate::table_merge::sql_parts(ir).map_values(|p: Seq<char>| item_of(p)),
            );
            &&& b.columns.map_values(|c: ColModel| crate::merge_schema::placed(c, b.pk))
                == ir.columns
            &&& b.pk == ir.pk
            &&& b.constraints == ir.constraints
        }),
        forall|i: int|
            0 <= i < crate::table_merge::sql_parts(ir).len() ==> closed(
                #[trigger] crate::table_merge::sql_parts(ir)[i],
            ) && one_item(crate::sql::words(crate::table_merge::sql_parts(ir)[i])),
{
    let f = |p: Seq<char>| item_of(p);
    let g = |c: ColModel| item_of(crate::merge_schema::column_text(c));
    let texts = ir.columns.map_values(|c: ColModel| crate::merge_schema::column_text(c));
    let parts = crate::table_merge::sql_parts(ir);
    let items = parts.map_values(f);
    let own = exists|i: int|
        0 <= i < ir.columns.len() && crate::table_merge::inline_pk(#[trigger] ir.columns[i]);
    let key = if ir.pk.len() > 0 && !own {
        seq![key_text(ir.pk)]
    } else {
        seq![]
    };
    assert(parts == texts + key + ir.constraints);
    let n = ir.columns.len() as int;
    lemma_body_columns(ir, n);
    assert(ir.columns.take(n) =~= ir.columns);
    let cols = ir.columns.map_values(g);
    assert(texts.map_values(f) =~= cols);
    let keys = key.map_values(f);
    assert(ir.constraints.map_values(f) =~= ir.constraints) by {
        assert forall|i: int| 0 <= i < ir.constraints.len() implies item_of(ir.constraints[i])
            == ir.constraints[i] by {
            assert(constraint_readable(ir.constraints[i]));
        }
    }
    assert(items =~= cols + keys + ir.constraints);
    let a = crate::merge_schema::body_of(cols);
    let m = crate::merge_schema::body_of(cols + keys);
    if ir.pk.len() > 0 {
        lemma_key_text(ir.pk);
        lemma_item_words(key_text(ir.pk));
        lemma_same_words(item_of(key_text(ir.pk)), key_text(ir.pk));
    }
    assert(m.columns == a.columns && m.pk == ir.pk && m.constraints == a.constraints) by {
        if ir.pk.len() > 0 && !own {
            assert(keys =~= seq![item_of(key_text(ir.pk))]);
            assert((cols + keys).drop_last() =~= cols);
            assert((cols + keys).last() == item_of(key_text(ir.pk)));
        } else {
            assert(keys =~= seq![]);
            assert(cols + keys =~= cols);
            if !own {
                assert(ir.pk =~= seq![]);
            }
        }
    }
    lemma_body_constraints(cols + keys, ir.constraints);
    let b = crate::merge_schema::body_of(items);
    assert(a.constraints + ir.constraints =~= ir.constraints);
    assert(b.columns.map_values(|c: ColModel| crate::merge_schema::placed(c, b.pk))
        =~= ir.columns) by {
        assert forall|i: int| 0 <= i < n implies crate::merge_schema::placed(b.columns[i], b.pk)
            == #[trigger] ir.columns[i] by {
            assert(b.columns[i] == a.columns[i]);
            assert(ir.columns[i].pk_pos == crate::merge_schema::key_position(
                ir.pk,
                ir.columns[i].name,
            ));
        }
    }
    assert forall|i: int| 0 <= i < parts.len() implies closed(#[trigger] parts[i]) && one_item(
        crate::sql::words(parts[i]),
    ) by {
        if i < n {
            assert(parts[i] == crate::merge_schema::column_text(ir.columns[i]));
            assert(column_readable(ir.columns[i]));
        } else if i < n + key.len() {
            assert(parts[i] == key_text(ir.pk));
        } else {
            let j = i - n - key.len();
            assert(parts[i] == ir.constraints[j]);
            assert(constraint_readable(ir.constraints[j]));
        }
    }
}

/// The words of a merged statement.
proof fn lemma_statement_words(ir: SchemaModel)
    requires
        !ir.table.contains('"'),
        crate::table_merge::sql_parts(ir).len() > 0,
        forall|i: int|
            0 <= i < crate::table_merge::sql_parts(ir).len() ==> closed(
                #[trigger] crate::table_merge::sql_parts(ir)[i],
            ),
    ensures
        crate::sql::words(crate::table_merge::merged_statement(ir)) == (seq![
            "CREATE"@,
            "TABLE"@,
            crate::table_merge::quoted(ir.table),
            "("@,
        ] + listed_words(crate::table_merge::sql_parts(ir))).push(")"@) + if ir.strict {
            seq!["STRICT"@]
        } else {
            seq![]
        },
{
    lemma_keywords();
    lemma_marks();
    let parts = crate::table_merge::sql_parts(ir);
    let list = crate::text::joined(parts, ", "@);
    let q = crate::table_merge::quoted(ir.table);
    let none = rest(seq![]);
    let a = "CREATE"@ + seq![' '];
    let b = "TABLE"@ + seq![' '];
    let one = seq!["CREATE"@];
    let two = seq!["CREATE"@, "TABLE"@];
    let three = seq!["CREATE"@, "TABLE"@, q];
    let four = seq!["CREATE"@, "TABLE"@, q, "("@];
    lemma_on_keyword(seq![]);
    lemma_on_keyword(one);
    assert(Seq::<Seq<char>>::empty().push("CREATE"@) =~= one);
    assert(one.push("TABLE"@) =~= two);
    lemma_on_behind(none, a, b);
    assert(lex_on(none, a + b) == rest(two));
    lemma_quoted_name(ir.table);
    lemma_on_spaced(two, q);
    assert(two + seq![q] =~= three);
    lemma_on_behind(none, a + b, q + seq![' ']);
    let head = a + b + (q + seq![' ']);
    assert(lex_on(none, head) == rest(three));
    lemma_on_behind(none, head, seq!['(']);
    lemma_on_one(rest(three), '(');
    assert(three.push(seq!['(']) =~= four);
    let open = head + seq!['('];
    assert(lex_on(none, open) == rest(four));
    lemma_list_reads(four, parts);
    lemma_on_behind(none, open, list + seq![')']);
    let body = open + (list + seq![')']);
    let toks = (four + listed_words(parts)).push(")"@);
    assert(lex_on(none, body) == rest(toks));
    let sql = "CREATE TABLE \""@ + ir.table + "\" ("@ + list + ")"@;
    assert(sql =~= body);
    let whole = crate::table_merge::merged_statement(ir);
    lemma_lex_on(whole);
    if ir.strict {
        lemma_on_keyword(toks);
        lemma_on_behind(none, body, seq![' ']);
        lemma_on_one(rest(toks), ' ');
        lemma_on_behind(none, body + seq![' '], "STRICT"@);
        assert(whole =~= body + seq![' '] + "STRICT"@);
        assert(toks.push("STRICT"@) =~= toks + seq!["STRICT"@]);
    } else {
        assert(whole == body);
        assert(toks + Seq::<Seq<char>>::empty() =~= toks);
    }
}

/// The statement written for a merged schema declares that schema: read back
/// it has the same table name, columns, primary key, constraints (each of them,
/// in order) and strictness.
pub proof fn law_merged_statement_reads_back(ir: SchemaModel)
    requires
        readable(ir),
    ensures
        crate::merge_schema::schema_of(crate::table_merge::merged_statement(ir)) == Some(
            SchemaModel { sql: crate::table_merge::merged_statement(ir), ..ir },
        ),
{
    lemma_marks();
    lemma_body_parts(ir);
    let parts = crate::table_merge::sql_parts(ir);
    let sql = crate::table_merge::merged_statement(ir);
    lemma_statement_words(ir);
    lemma_quoted_name(ir.table);
    let inner = listed_words(parts);
    let q = crate::table_merge::quoted(ir.table);
    let toks = crate::sql::words(sql);
    assert(toks[0] == "CREATE"@ && toks[1] == "TABLE"@ && toks[2] == q && toks[3] == "("@);
    let n = 4 + inner.len();
    assert(toks.subrange(4, n as int) =~= inner);
    assert(toks[n as int] == ")"@);
    lemma_body_items(toks, 4, parts);
    assert(crate::merge_schema::after_if(toks, 2) == 2);
    assert(crate::sql::is_word(toks, n as int + 1, "STRICT"@) == ir.strict);
    let x = crate::merge_schema::schema_of(sql)->0;
    assert(x.columns == ir.columns && x.pk == ir.pk && x.constraints == ir.constraints);
}

/// Blanks have no words.
proof fn lemma_blank_words(s: Seq<char>)
    requires
        crate::text::trim_end(s).len() == 0,
    ensures
        crate::sql::lex(s) == rest(seq![]),
    decreases s.len(),
{
    if s.len() > 0 {
        lemma_blank_words(s.drop_last());
    }
}

/// A merge of tables that each side declares: where one side left the schema as it was,
/// the merged table declares what the other side declares, and where both added the
/// table alike, what they declare. No conflict of schemas is reported. The columns and
/// the key of the merged rows are those that its statement declares.
pub proof fn law_merged_table_declares(
    base: TablesModel,
    ours: TablesModel,
    theirs: TablesModel,
    m: MergedModel,
    name: Seq<char>,
    b: SchemaModel,
    o: SchemaModel,
    t: SchemaModel,
)
    requires
        base.dom().finite() && ours.dom().finite() && theirs.dom().finite(),
        crate::table_merge::merge_tables(base, ours, theirs) == Ok::<
            MergedModel,
            Fault,
        >(m),
        ours.dom().contains(name) && theirs.dom().contains(name),
        crate::merge_schema::schema_of(ours[name].schema_sql) == Some(o),
        crate::merge_schema::schema_of(theirs[name].schema_sql) == Some(t),
        base.dom().contains(name) ==> crate::merge_schema::schema_of(base[name].schema_sql)
            == Some(b),
        if base.dom().contains(name) {
            crate::merge_schema::declares_alike(o, b) || crate::merge_schema::declares_alike(t, b)
        } else {
            crate::merge_schema::declares_alike(o, t)
        },
        readable(o) && readable(t) && (base.dom().contains(name) ==> readable(b)),
    ensures
        m.work.dom().contains(name),
        crate::table_merge::schemas_agree(m.conflicts, name),
        crate::merge_schema::schema_of(m.work[name].schema_sql) matches Some(x) && {
            &&& crate::merge_schema::declares_alike(
                x,
                if base.dom().contains(name) && crate::merge_schema::declares_alike(o, b) {
                    t
                } else {
                    o
                },
            )
            &&& m.work[name].pk == x.pk
            &&& m.work[name].columns.len() == x.columns.len()
            &&& forall|i: int|
                0 <= i < x.columns.len() ==> #[trigger] m.work[name].columns[i]
                    == x.columns[i].name
        },
{
    let bs = crate::table_merge::table_in(base, name);
    let os = crate::table_merge::table_in(ours, name);
    let ts = crate::table_merge::table_in(theirs, name);
    lemma_declared(name, ours[name], o);
    lemma_declared(name, theirs[name], t);
    if base.dom().contains(name) {
        lemma_declared(name, base[name], b);
    }
    let own = crate::table_merge::lemma_merged_table(base, ours, theirs, m, name);
    crate::merge_schema::law_merge_takes_the_moved_schema(b, o, t);
    crate::merge_schema::law_merge_takes_the_moved_schema(b, t, o);
    crate::merge_schema::law_same_schemas_declare_alike(o, b);
    crate::merge_schema::law_same_schemas_declare_alike(t, b);
    crate::merge_schema::law_same_schemas_declare_alike(o, t);
    let d = crate::merge_schema::schema_merge(
        crate::table_merge::side_schema(name, bs)->Ok_0,
        Some(o),
        Some(t),
    );
    assert(d is Clean);
    assert forall|i: int|
        0 <= i < m.conflicts.len() && (#[trigger] m.conflicts[i]).table
            == name implies m.conflicts[i].kind is Rows by {
        let e = m.conflicts[i];
        assert(m.conflicts.contains(e));
        assert(own.conflicts.contains(e));
    }
    let ir = crate::table_merge::lemma_merged_rows(base, ours, theirs, m, name);
    law_merged_statement_reads_back(ir);
}

proof fn lemma_declared(name: Seq<char>, snap: SnapModel, x: SchemaModel)
    requires
        crate::merge_schema::schema_of(snap.schema_sql) == Some(x),
    ensures
        crate::table_merge::side_schema(name, Some(snap)) == Ok::<
            Option<SchemaModel>,
            Fault,
        >(Some(x)),
{
    let sql = snap.schema_sql;
    if crate::text::trimmed(sql).len() == 0 {
        lemma_trim_start_words(sql);
        lemma_blank_words(crate::text::trim_start(sql));
        assert(crate::sql::words(sql).len() == 0);
    }
}

/// The columns of a list whose names are in neither of two others.
pub open spec fn new_among(
    columns: Seq<ColModel>,
    known: Seq<ColModel>,
    more: Seq<ColModel>,
) -> Seq<ColModel> {
    columns.filter(
        |c: ColModel|
            !(exists|i: int| 0 <= i < known.len() && (#[trigger] known[i]).name == c.name) && !(
            exists|i: int| 0 <= i < more.len() && (#[trigger] more[i]).name == c.name),
    )
}

proof fn lemma_new_texts(columns: Seq<ColModel>, known: Seq<ColModel>, more: Seq<ColModel>)
    ensures
        crate::merge_schema::new_column_texts(columns, known, more) == new_among(
            columns,
            known,
            more,
        ).map_values(|c: ColModel| crate::merge_schema::column_text(c)),
    decreases columns.len(),
{
    reveal(Seq::filter);
    let f = |c: ColModel| crate::merge_schema::column_text(c);
    if columns.len() > 0 {
        let d = columns.drop_last();
        lemma_new_texts(d, known, more);
        let a = new_among(d, known, more);
        let x = columns.last();
        assert(a.push(x).map_values(f) =~= a.map_values(f).push(f(x)));
    } else {
        assert(new_among(columns, known, more) =~= seq![]);
        assert(new_among(columns, known, more).map_values(f) =~= seq![]);
    }
}

/// A statement with added columns declares the columns of the schema, then those that ours
/// adds to it, then those that theirs adds to both, and the strictness of the schema.
pub proof fn law_rebuilt_statement_reads_back(
    s: SchemaModel,
    ours: Seq<ColModel>,
    theirs: Seq<ColModel>,
    pk: Seq<Seq<char>>,
)
    requires
        ({
            let columns = s.columns + new_among(ours, s.columns, seq![]) + new_among(
                theirs,
                s.columns,
                ours,
            );
            &&& readable(SchemaModel { columns, pk, constraints: seq![], ..s })
            &&& pk.len() == 0 || exists|i: int|
                0 <= i < columns.len() && crate::table_merge::inline_pk(#[trigger] columns[i])
        }),
    ensures
        ({
            let columns = s.columns + new_among(ours, s.columns, seq![]) + new_among(
                theirs,
                s.columns,
                ours,
            );
            crate::merge_schema::schema_of(crate::merge_schema::rebuilt(s, ours, theirs)) == Some(
                SchemaModel {
                    columns,
                    pk,
                    constraints: seq![],
                    sql: crate::merge_schema::rebuilt(s, ours, theirs),
                    ..s
                },
            )
        }),
{
    let none = Seq::<ColModel>::empty();
    let f = |c: ColModel| crate::merge_schema::column_text(c);
    let a = new_among(s.columns, none, none);
    let b = new_among(ours, s.columns, none);
    let c = new_among(theirs, s.columns, ours);
    lemma_new_texts(s.columns, none, none);
    lemma_new_texts(ours, s.columns, none);
    lemma_new_texts(theirs, s.columns, ours);
    lemma_all_new(s.columns);
    let columns = s.columns + b + c;
    let ir = SchemaModel { columns, pk, constraints: seq![], ..s };
    assert(a.map_values(f) + b.map_values(f) + c.map_values(f) =~= columns.map_values(f));
    assert(crate::table_merge::sql_parts(ir) =~= columns.map_values(f));
    assert(crate::merge_schema::rebuilt(s, ours, theirs) == crate::table_merge::merged_statement(
        ir,
    ));
    law_merged_statement_reads_back(ir);
}

proof fn lemma_all_new(columns: Seq<ColModel>)
    ensures
        new_among(columns, seq![], seq![]) == columns,
    decreases columns.len(),
{
    reveal(Seq::filter);
    if columns.len() > 0 {
        lemma_all_new(columns.drop_last());
        assert(columns.drop_last().push(columns.last()) =~= columns);
    } else {
        assert(new_among(columns, seq![], seq![]) =~= columns);
    }
}

} // verus!
