//! Parsing what the renderer wrote gives back the instructions it was given.
use vstd::prelude::*;

use crate::ast::Instruction;
use crate::ast::InstructionView;
use crate::text::dequote_spec;
use crate::text::index_of;
use crate::file::instruction_views;
use crate::file::parse_line;
use crate::file::parse_lines;
use crate::lines::LineMode;
use crate::lines::instruction_shape;
use crate::lines::is_keyword_char;
use crate::lines::is_upper;
use crate::lines::keyword_len;
use crate::lines::line_arguments;
use crate::lines::line_keyword;
use crate::lines::lines_state;
use crate::lines::logical_lines;
use crate::render::join;
use crate::render::rendered;
use crate::text::contains;
use crate::text::is_ws;
use crate::text::occurs_at;
use crate::text::split_spaces;
use crate::text::split_state;
use crate::text::trim;
use crate::text::trim_end;
use crate::text::trim_start;
use crate::text::trim_start_char;
use crate::text::trim_end_char;
use crate::parser::strip_first;
use crate::parser::strip_last;

verus! {

/// A character that a token of a rendered line may hold: no whitespace,
/// backslash or `<`.
pub open spec fn token_char(c: char) -> bool {
    !is_ws(c) && c != '\\' && c != '<'
}

/// A non-empty token of token characters.
pub open spec fn is_token(t: Seq<char>) -> bool {
    t.len() > 0 && forall|j: int| 0 <= j < t.len() ==> token_char(#[trigger] t[j])
}

/// A token that also holds no double quote.
pub open spec fn is_word(t: Seq<char>) -> bool {
    is_token(t) && forall|j: int| 0 <= j < t.len() ==> #[trigger] t[j] != '"'
}

/// A line that the line reconstructor passes on unchanged and alone: no
/// whitespace at its ends, and a comment, or no `<<EOF` and no final backslash.
pub open spec fn inert(t: Seq<char>) -> bool {
    &&& trim(t) == t
    &&& ((t.len() > 0 && t[0] == '#') || (!contains(t, "<<EOF"@) && !(t.len() > 0 && t.last()
        == '\\')))
}

proof fn lemma_trim_same(t: Seq<char>)
    requires
        t.len() == 0 || (!is_ws(t[0]) && !is_ws(t.last())),
    ensures
        trim(t) == t,
{
    assert(trim_start(t) == t);
    assert(trim_end(t) == t);
}

proof fn lemma_no_lt_no_heredoc(t: Seq<char>)
    requires
        forall|j: int| 0 <= j < t.len() ==> #[trigger] t[j] != '<',
    ensures
        !contains(t, "<<EOF"@),
{
    reveal_strlit("<<EOF");
    if contains(t, "<<EOF"@) {
        let i = choose|i: int| occurs_at(t, "<<EOF"@, i);
        assert(t.subrange(i, i + 5)[0] == '<');
        assert(t[i] == '<');
    }
}

proof fn lemma_split_state_append(s: Seq<char>, w: Seq<char>)
    requires
        forall|j: int| 0 <= j < w.len() ==> #[trigger] w[j] != ' ',
    ensures
        split_state(s + w) == (split_state(s).0, split_state(s).1 + w),
    decreases w.len(),
{
    if w.len() > 0 {
        lemma_split_state_append(s, w.drop_last());
        assert((s + w).drop_last() =~= s + w.drop_last());
        assert((s + w).last() == w.last());
        assert(w[w.len() - 1] != ' ');
        assert((split_state(s).1 + w.drop_last()).push(w.last()) =~= split_state(s).1 + w);
    } else {
        assert(s + w =~= s);
        assert(split_state(s).1 + w =~= split_state(s).1);
    }
}

/// A non-empty piece of text without spaces.
pub open spec fn space_free(t: Seq<char>) -> bool {
    t.len() > 0 && forall|j: int| 0 <= j < t.len() ==> #[trigger] t[j] != ' '
}

/// Splitting tokens joined by single spaces gives the tokens back.
proof fn lemma_split_join(ts: Seq<Seq<char>>)
    requires
        forall|i: int| 0 <= i < ts.len() ==> space_free(#[trigger] ts[i]),
    ensures
        split_spaces(join(ts, seq![' '])) == ts,
    decreases ts.len(),
{
    if ts.len() == 0 {
        assert(split_spaces(Seq::<char>::empty()) =~= Seq::<Seq<char>>::empty());
    } else {
        let last = ts.last();
        assert(space_free(ts[ts.len() - 1]));
        if ts.len() == 1 {
            lemma_split_state_append(Seq::<char>::empty(), last);
            assert(Seq::<char>::empty() + last =~= last);
            assert(split_spaces(last) =~= ts);
        } else {
            let init = ts.drop_last();
            assert forall|i: int| 0 <= i < init.len() implies space_free(#[trigger] init[i]) by {
                assert(init[i] == ts[i]);
            }
            lemma_split_join(init);
            let x = join(init, seq![' ']);
            lemma_split_state_append(x.push(' '), last);
            assert(x + seq![' '] + last =~= x.push(' ') + last);
            assert(x.push(' ').drop_last() =~= x);
            assert(split_spaces(x + seq![' '] + last) =~= init.push(last));
            assert(init.push(last) =~= ts);
        }
    }
}

/// Every character of the joined tokens is a token character or a space.
proof fn lemma_join_chars(ts: Seq<Seq<char>>)
    requires
        forall|i: int| 0 <= i < ts.len() ==> is_token(#[trigger] ts[i]),
    ensures
        forall|j: int|
            0 <= j < join(ts, seq![' ']).len() ==> token_char(#[trigger] join(ts, seq![' '])[j])
                || join(ts, seq![' '])[j] == ' ',
        ts.len() > 0 ==> join(ts, seq![' ']).len() > 0 && join(ts, seq![' '])[0] == ts[0][0]
            && join(ts, seq![' ']).last() == ts.last().last(),
    decreases ts.len(),
{
    if ts.len() > 1 {
        let init = ts.drop_last();
        assert forall|i: int| 0 <= i < init.len() implies is_token(#[trigger] init[i]) by {
            assert(init[i] == ts[i]);
        }
        lemma_join_chars(init);
        let x = join(init, seq![' ']);
        let last = ts.last();
        assert(is_token(ts[ts.len() - 1]));
        let y = x + seq![' '] + last;
        assert forall|j: int| 0 <= j < y.len() implies token_char(#[trigger] y[j]) || y[j] == ' ' by {
            if j < x.len() {
                assert(y[j] == x[j]);
            } else if j == x.len() {
            } else {
                assert(y[j] == last[j - x.len() - 1]);
            }
        }
        assert(init[0] == ts[0]);
    } else if ts.len() == 1 {
        assert(is_token(ts[0]));
    }
}

/// A keyword, a space and tokens joined by spaces: a line of instruction
/// shape, whose keyword and arguments are those, and which is inert.
#[verifier::rlimit(100)]
proof fn lemma_keyword_line(kw: Seq<char>, ts: Seq<Seq<char>>)
    requires
        kw.len() > 0,
        is_upper(kw[0]),
        forall|j: int| 0 <= j < kw.len() ==> is_keyword_char(#[trigger] kw[j]),
        ts.len() > 0,
        forall|i: int| 0 <= i < ts.len() ==> is_token(#[trigger] ts[i]),
    ensures
        instruction_shape(kw + seq![' '] + join(ts, seq![' '])),
        line_keyword(kw + seq![' '] + join(ts, seq![' '])) == kw,
        line_arguments(kw + seq![' '] + join(ts, seq![' '])) == ts,
        inert(kw + seq![' '] + join(ts, seq![' '])),
{
    let a = join(ts, seq![' ']);
    let l = kw + seq![' '] + a;
    lemma_join_chars(ts);
    assert(is_token(ts[0]));
    assert(token_char(ts[0][0]));
    assert forall|j: int| 0 <= j < kw.len() implies is_keyword_char(#[trigger] l[j]) by {
        assert(l[j] == kw[j]);
    }
    crate::lines::lemma_keyword_len(l, kw.len() as int);
    assert(l.skip(kw.len() as int) =~= seq![' '] + a);
    assert(l[kw.len() as int] == ' ');
    assert(keyword_len(l.skip(kw.len() as int)) == 0);
    assert(l.take(kw.len() as int) =~= kw);
    assert((seq![' '] + a).drop_first() =~= a);
    assert(trim_start(seq![' '] + a) == trim_start(a));
    assert(trim_start(a) == a);
    assert forall|i: int| 0 <= i < ts.len() implies space_free(#[trigger] ts[i]) by {
        assert(is_token(ts[i]));
        assert forall|j: int| 0 <= j < ts[i].len() implies #[trigger] ts[i][j] != ' ' by {
            assert(token_char(ts[i][j]));
        }
    }
    lemma_split_join(ts);
    assert(is_token(ts[ts.len() - 1]));
    assert(token_char(ts.last().last()));
    assert(l.last() == a.last());
    lemma_trim_same(l);
    assert forall|j: int| 0 <= j < l.len() implies #[trigger] l[j] != '<' by {
        if j < kw.len() {
            assert(l[j] == kw[j]);
        } else if j > kw.len() {
            assert(l[j] == a[j - kw.len() - 1]);
        }
    }
    lemma_no_lt_no_heredoc(l);
}

proof fn lemma_index_of_at(s: Seq<char>, c: char, i: int)
    requires
        0 <= i < s.len(),
        s[i] == c,
        forall|j: int| 0 <= j < i ==> s[j] != c,
    ensures
        index_of(s, c) == i,
{
    crate::text::lemma_index_of(s, c);
}

/// `a`, the character `c`, then `b`, where `a` does not hold `c`: `c` is first found after `a`.
proof fn lemma_split_at(a: Seq<char>, c: char, b: Seq<char>)
    requires
        forall|j: int| 0 <= j < a.len() ==> #[trigger] a[j] != c,
    ensures
        index_of(a + seq![c] + b, c) == a.len(),
        (a + seq![c] + b).take(a.len() as int) == a,
        (a + seq![c] + b).skip(a.len() as int + 1) == b,
{
    let s = a + seq![c] + b;
    assert forall|j: int| 0 <= j < a.len() implies s[j] != c by {
        assert(s[j] == a[j]);
    }
    lemma_index_of_at(s, c, a.len() as int);
    assert(s.take(a.len() as int) =~= a);
    assert(s.skip(a.len() as int + 1) =~= b);
}

/// A word is its own dequoted form.
proof fn lemma_dequote_word(w: Seq<char>)
    requires
        is_word(w),
    ensures
        dequote_spec(w) == w,
{
    assert(w[0] != '"');
}

/// Removing a character distributes over concatenation.
proof fn lemma_without_append(a: Seq<char>, b: Seq<char>, c: char)
    ensures
        crate::text::without(a + b, c) == crate::text::without(a, c) + crate::text::without(b, c),
    decreases b.len(),
{
    if b.len() == 0 {
        assert(a + b =~= a);
        assert(crate::text::without(a, c) + crate::text::without(b, c) =~= crate::text::without(a, c));
    } else {
        lemma_without_append(a, b.drop_last(), c);
        assert((a + b).drop_last() =~= a + b.drop_last());
        assert((a + b).last() == b.last());
        if b.last() != c {
            assert(crate::text::without(a, c) + crate::text::without(b.drop_last(), c).push(b.last())
                =~= (crate::text::without(a, c) + crate::text::without(b.drop_last(), c)).push(b.last()));
        }
    }
}

/// A word without a character that it does not hold is itself.
proof fn lemma_without_absent(w: Seq<char>, c: char)
    requires
        forall|j: int| 0 <= j < w.len() ==> #[trigger] w[j] != c,
    ensures
        crate::text::without(w, c) == w,
    decreases w.len(),
{
    if w.len() > 0 {
        assert forall|j: int| 0 <= j < w.drop_last().len() implies #[trigger] w.drop_last()[j] != c by {
            assert(w.drop_last()[j] == w[j]);
        }
        lemma_without_absent(w.drop_last(), c);
        assert(w[w.len() - 1] != c);
        assert(w.drop_last().push(w.last()) =~= w);
    }
}

/// A word is escaped as itself.
proof fn lemma_escape_word(w: Seq<char>)
    requires
        forall|j: int| 0 <= j < w.len() ==> token_char(#[trigger] w[j]) && w[j] != '"',
    ensures
        crate::render::escape(w) == w,
    decreases w.len(),
{
    if w.len() > 0 {
        assert forall|j: int| 0 <= j < w.drop_last().len() implies token_char(
            #[trigger] w.drop_last()[j],
        ) && w.drop_last()[j] != '"' by {
            assert(w.drop_last()[j] == w[j]);
        }
        lemma_escape_word(w.drop_last());
        let c = w.last();
        assert(token_char(w[w.len() - 1]) && w[w.len() - 1] != '"');
        assert(is_ws('\n') && is_ws('\t') && is_ws('\r'));
        assert(crate::render::escape_char(c) =~= seq![c]);
        assert(w.drop_last().push(c) =~= w);
    }
}

/// Items that are all non-empty are all kept.
proof fn lemma_non_empty_all(ws: Seq<Seq<char>>)
    requires
        forall|i: int| 0 <= i < ws.len() ==> (#[trigger] ws[i]).len() > 0,
    ensures
        crate::render::non_empty(ws) == ws,
    decreases ws.len(),
{
    if ws.len() > 0 {
        assert forall|i: int| 0 <= i < ws.drop_last().len() implies (#[trigger] ws.drop_last()[i]).len() > 0 by {
            assert(ws.drop_last()[i] == ws[i]);
        }
        lemma_non_empty_all(ws.drop_last());
        assert(ws[ws.len() - 1].len() > 0);
        assert(ws.drop_last().push(ws.last()) =~= ws);
    }
}

/// A word in double quotes.
pub open spec fn quoted(w: Seq<char>) -> Seq<char> {
    seq!['"'] + w + seq!['"']
}

/// The space-free tokens of an exec-form list of quoted items, the last one
/// followed by `suf`: `["a",`, `"b",` ... `"z"` + `suf`.
pub open spec fn list_tokens(ws: Seq<Seq<char>>, suf: Seq<char>) -> Seq<Seq<char>>
    decreases ws.len(),
{
    if ws.len() <= 1 {
        seq![seq!['['] + quoted(ws[0]) + suf]
    } else {
        list_tokens(ws.drop_last(), seq![',']).push(quoted(ws.last()) + suf)
    }
}

/// The tokens of the exec-form list of `ws`.
pub open spec fn exec_list_tokens(ws: Seq<Seq<char>>) -> Seq<Seq<char>> {
    if ws.len() == 0 {
        seq![seq!['[', ']']]
    } else {
        list_tokens(ws, seq![']'])
    }
}

/// Whether every item is a word.
pub open spec fn all_words(ws: Seq<Seq<char>>) -> bool {
    forall|i: int| 0 <= i < ws.len() ==> is_word(#[trigger] ws[i])
}

proof fn lemma_all_words_init(ws: Seq<Seq<char>>)
    requires
        all_words(ws),
        ws.len() > 0,
    ensures
        all_words(ws.drop_last()),
        is_word(ws.last()),
{
    assert forall|i: int| 0 <= i < ws.drop_last().len() implies is_word(#[trigger] ws.drop_last()[i]) by {
        assert(ws.drop_last()[i] == ws[i]);
    }
    assert(is_word(ws[ws.len() - 1]));
}

proof fn lemma_quoted_word(w: Seq<char>)
    requires
        is_word(w),
    ensures
        crate::render::quoted_item(w) == quoted(w),
        crate::text::without(quoted(w), '"') == w,
{
    assert forall|j: int| 0 <= j < w.len() implies token_char(#[trigger] w[j]) && w[j] != '"' by {}
    lemma_escape_word(w);
    lemma_without_append(seq!['"'] + w, seq!['"'], '"');
    lemma_without_append(seq!['"'], w, '"');
    lemma_without_absent(w, '"');
    assert(crate::text::without(seq!['"'], '"') =~= Seq::<char>::empty()) by {
        let one = seq!['"'];
        assert(one.len() == 1 && one.last() == '"');
        assert(one.drop_last() =~= Seq::<char>::empty());
        assert(crate::text::without(one.drop_last(), '"') =~= Seq::<char>::empty());
    }
    assert(Seq::<char>::empty() + w + Seq::<char>::empty() =~= w);
}

/// The list text is the list tokens joined by spaces; each is a token; the
/// first starts with `[`; each cleans to its item.
#[verifier::rlimit(100)]
proof fn lemma_list_tokens(ws: Seq<Seq<char>>, suf: Seq<char>)
    requires
        ws.len() > 0,
        all_words(ws),
        suf == seq![','] || suf == seq![']'],
    ensures
        seq!['['] + join(ws.map_values(|w: Seq<char>| quoted(w)), seq![',', ' ']) + suf == join(
            list_tokens(ws, suf),
            seq![' '],
        ),
        list_tokens(ws, suf).len() == ws.len(),
        forall|i: int| 0 <= i < ws.len() ==> is_token(#[trigger] list_tokens(ws, suf)[i]),
        list_tokens(ws, suf)[0][0] == '[',
        list_tokens(ws, suf).last().last() == suf[0],
        forall|i: int|
            0 <= i < ws.len() ==> (#[trigger] list_tokens(ws, suf)[i]).len() > 0 && (i > 0
                ==> list_tokens(ws, suf)[i][0] == '"'),
    decreases ws.len(),
{
    let q = ws.map_values(|w: Seq<char>| quoted(w));
    if ws.len() == 1 {
        assert(is_word(ws[0]));
        let t = seq!['['] + quoted(ws[0]) + suf;
        assert(join(q, seq![',', ' ']) == q[0]);
        assert(seq!['['] + q[0] + suf =~= t);
        assert(join(seq![t], seq![' ']) == t);
        assert forall|j: int| 0 <= j < t.len() implies token_char(#[trigger] t[j]) by {
            if 2 <= j < t.len() - 2 {
                assert(t[j] == ws[0][j - 2]);
            }
        }
    } else {
        lemma_all_words_init(ws);
        let init = ws.drop_last();
        let w = ws.last();
        lemma_list_tokens(init, seq![',']);
        let qi = init.map_values(|w: Seq<char>| quoted(w));
        assert(q.drop_last() =~= qi);
        let ti = list_tokens(init, seq![',']);
        let last = quoted(w) + suf;
        assert(seq!['['] + join(q, seq![',', ' ']) + suf =~= (seq!['['] + join(qi, seq![',', ' '])
            + seq![',']) + seq![' '] + last);
        assert(list_tokens(ws, suf) == ti.push(last));
        assert(ti.push(last).drop_last() =~= ti);
        assert forall|j: int| 0 <= j < last.len() implies token_char(#[trigger] last[j]) by {
            if 1 <= j < last.len() - 2 {
                assert(last[j] == w[j - 1]);
            }
        }
        assert forall|i: int| 0 <= i < ws.len() implies is_token(#[trigger] list_tokens(ws, suf)[i]) by {
            if i < init.len() {
                assert(list_tokens(ws, suf)[i] == ti[i]);
            }
        }
        assert forall|i: int|
            0 <= i < ws.len() implies (#[trigger] list_tokens(ws, suf)[i]).len() > 0 && (i > 0
                ==> list_tokens(ws, suf)[i][0] == '"') by {
            if i < init.len() {
                assert(list_tokens(ws, suf)[i] == ti[i]);
            }
        }
    }
}

/// Each list token cleans to its word.
#[verifier::rlimit(100)]
proof fn lemma_list_tokens_clean(ws: Seq<Seq<char>>, suf: Seq<char>)
    requires
        ws.len() > 0,
        all_words(ws),
        suf == seq![','] || suf == seq![']'],
    ensures
        list_tokens(ws, suf).map_values(|t: Seq<char>| crate::parser::exec_token(t)) == ws,
    decreases ws.len(),
{
    lemma_list_tokens(ws, suf);
    if ws.len() == 1 {
        lemma_exec_token(ws[0], true, suf);
        assert(list_tokens(ws, suf).map_values(|t: Seq<char>| crate::parser::exec_token(t)) =~= ws);
    } else {
        lemma_all_words_init(ws);
        lemma_list_tokens_clean(ws.drop_last(), seq![',']);
        lemma_exec_token(ws.last(), false, suf);
        let ti = list_tokens(ws.drop_last(), seq![',']);
        assert(list_tokens(ws, suf) == ti.push(quoted(ws.last()) + suf));
        assert(list_tokens(ws, suf).map_values(|t: Seq<char>| crate::parser::exec_token(t))
            =~= ti.map_values(|t: Seq<char>| crate::parser::exec_token(t)).push(
            crate::parser::exec_token(quoted(ws.last()) + suf),
        ));
        assert(ws.drop_last().push(ws.last()) =~= ws);
    }
}

/// One list token, with or without the opening bracket, cleans to its word.
proof fn lemma_exec_token(w: Seq<char>, first: bool, suf: Seq<char>)
    requires
        is_word(w),
        suf == seq![','] || suf == seq![']'],
    ensures
        crate::parser::exec_token(
            if first {
                seq!['['] + quoted(w) + suf
            } else {
                quoted(w) + suf
            },
        ) == w,
{
    let t = if first {
        seq!['['] + quoted(w) + suf
    } else {
        quoted(w) + suf
    };
    let body = quoted(w) + suf;
    assert(w[0] != '"');
    if first {
        assert(t.drop_first() =~= body);
    }
    assert(strip_first(t, '[') == body);
    assert(body[0] == '"');
    assert(trim_start_char(body, ',') == body);
    lemma_quoted_word(w);
    let qw = quoted(w);
    assert(body.drop_last() =~= qw);
    if suf == seq![']'] {
        assert(strip_last(body, ']') == qw);
        assert(trim_end_char(qw, ',') == qw);
    } else {
        assert(strip_last(body, ']') == body);
        assert(trim_end_char(body, ',') == trim_end_char(qw, ','));
        assert(trim_end_char(qw, ',') == qw);
    }
}

/// The text of an exec-form list of words is its list tokens joined by
/// spaces, and parsing those tokens gives the words back.
#[verifier::rlimit(100)]
proof fn lemma_exec_list(ws: Seq<Seq<char>>)
    requires
        all_words(ws),
    ensures
        crate::render::exec_list(ws) == join(exec_list_tokens(ws), seq![' ']),
        exec_list_tokens(ws).len() > 0,
        forall|i: int|
            0 <= i < exec_list_tokens(ws).len() ==> is_token(#[trigger] exec_list_tokens(ws)[i]),
        exec_list_tokens(ws)[0][0] == '[',
        crate::parser::exec_form(exec_list_tokens(ws)),
        crate::parser::exec_form_tokens(exec_list_tokens(ws)) == ws,
{
    reveal_strlit("[");
    reveal_strlit("]");
    reveal_strlit(", ");
    assert("["@ =~= seq!['[']);
    assert("]"@ =~= seq![']']);
    assert(", "@ =~= seq![',', ' ']);
    let q = ws.map_values(|s: Seq<char>| crate::render::quoted_item(s));
    if ws.len() == 0 {
        let t = seq!['[', ']'];
        assert(join(q, ", "@) =~= Seq::<char>::empty());
        assert("["@ + Seq::<char>::empty() + "]"@ =~= t);
        assert(join(seq![t], seq![' ']) == t);
        assert(is_token(t)) by {
            assert forall|j: int| 0 <= j < t.len() implies token_char(#[trigger] t[j]) by {}
        }
        let c = crate::parser::exec_token(t);
        assert(crate::parser::strip_first(t, '[') =~= seq![']']);
        assert(crate::text::trim_start_char(seq![']'], ',') == seq![']']);
        assert(crate::parser::strip_last(seq![']'], ']') =~= Seq::<char>::empty());
        assert(c =~= Seq::<char>::empty());
        assert(seq![t].map_values(|t: Seq<char>| crate::parser::exec_token(t)) =~= seq![c]);
        assert(crate::render::non_empty(seq![c]) =~= Seq::<Seq<char>>::empty()) by {
            let one = seq![c];
            assert(one.len() == 1 && one.last().len() == 0);
            assert(one.drop_last() =~= Seq::<Seq<char>>::empty());
            assert(crate::render::non_empty(one.drop_last()) =~= Seq::<Seq<char>>::empty());
        }
        assert(ws =~= Seq::<Seq<char>>::empty());
    } else {
        assert forall|i: int| 0 <= i < ws.len() implies crate::render::quoted_item(ws[i]) == quoted(
            ws[i],
        ) by {
            lemma_quoted_word(ws[i]);
        }
        assert(q =~= ws.map_values(|w: Seq<char>| quoted(w)));
        lemma_list_tokens(ws, seq![']']);
        lemma_list_tokens_clean(ws, seq![']']);
        assert forall|i: int| 0 <= i < ws.len() implies (#[trigger] ws[i]).len() > 0 by {
            assert(is_word(ws[i]));
        }
        lemma_non_empty_all(ws);
    }
}

/// The map of sorted entries is the map of the entries before the last, with the last set.
#[verifier::rlimit(100)]
proof fn lemma_to_map_push<X>(e: Seq<(Seq<char>, X)>)
    requires
        crate::map::keys_sorted(e),
        e.len() > 0,
    ensures
        crate::map::keys_sorted(e.drop_last()),
        crate::map::to_map(e) == crate::map::to_map(e.drop_last()).insert(e.last().0, e.last().1),
{
    let init = e.drop_last();
    let n = e.len() - 1;
    assert forall|i: int, j: int| 0 <= i < j < init.len() implies crate::text::seq_lt(
        #[trigger] init[i].0,
        #[trigger] init[j].0,
    ) by {
        assert(init[i] == e[i] && init[j] == e[j]);
    }
    crate::map::lemma_to_map_at(e, n);
    let m = crate::map::to_map(e);
    let mi = crate::map::to_map(init);
    let r = mi.insert(e.last().0, e.last().1);
    assert forall|k: Seq<char>| #[trigger] m.contains_key(k) == r.contains_key(k) by {
        if k != e.last().0 {
            if crate::map::has_key(e, k) {
                let j = choose|j: int| 0 <= j < e.len() && e[j].0 == k;
                assert(j != n);
                assert(init[j] == e[j]);
                assert(crate::map::has_key(init, k));
            }
            if crate::map::has_key(init, k) {
                let j = choose|j: int| 0 <= j < init.len() && init[j].0 == k;
                assert(e[j] == init[j]);
                assert(crate::map::has_key(e, k));
            }
        }
    }
    assert forall|k: Seq<char>| #[trigger] m.contains_key(k) implies m[k] == r[k] by {
        if k != e.last().0 {
            let j = choose|j: int| 0 <= j < e.len() && e[j].0 == k;
            assert(j != n);
            assert(init[j] == e[j]);
            crate::map::lemma_to_map_at(e, j);
            crate::map::lemma_to_map_at(init, j);
        }
    }
    assert(m =~= r);
}

/// A key that is a word without `=`.
pub open spec fn is_key(k: Seq<char>) -> bool {
    is_word(k) && forall|j: int| 0 <= j < k.len() ==> #[trigger] k[j] != '='
}

/// The token of an `ENV`/`LABEL` entry: `key="value"`.
pub open spec fn pair_token(p: (Seq<char>, Seq<char>)) -> Seq<char> {
    p.0 + seq!['='] + crate::text::enquote_spec(p.1)
}

/// The token of an `ARG` entry: `key=value` or `key`.
pub open spec fn optional_pair_token(p: (Seq<char>, Option<Seq<char>>)) -> Seq<char> {
    match p.1 {
        Some(v) => p.0 + seq!['='] + v,
        None => p.0,
    }
}

/// The tokens of `ENV`/`LABEL` entries.
pub open spec fn pair_tokens(e: Seq<(Seq<char>, Seq<char>)>) -> Seq<Seq<char>> {
    e.map_values(|p: (Seq<char>, Seq<char>)| pair_token(p))
}

/// The tokens of `ARG` entries.
pub open spec fn optional_pair_tokens(e: Seq<(Seq<char>, Option<Seq<char>>)>) -> Seq<Seq<char>> {
    e.map_values(|p: (Seq<char>, Option<Seq<char>>)| optional_pair_token(p))
}

#[verifier::rlimit(100)]
proof fn lemma_pair_tokens(e: Seq<(Seq<char>, Seq<char>)>)
    requires
        crate::map::keys_sorted(e),
        forall|i: int| 0 <= i < e.len() ==> is_key(#[trigger] e[i].0) && is_word(e[i].1),
    ensures
        crate::parser::key_value_pairs(pair_tokens(e)) == crate::map::to_map(e),
        forall|i: int| 0 <= i < e.len() ==> is_token(#[trigger] pair_tokens(e)[i]),
    decreases e.len(),
{
    let ts = pair_tokens(e);
    assert forall|i: int| 0 <= i < e.len() implies is_token(#[trigger] ts[i]) by {
        let k = e[i].0;
        let v = e[i].1;
        assert(is_key(k) && is_word(v));
        let t = ts[i];
        assert(t == k + seq!['='] + (seq!['"'] + v + seq!['"']));
        assert forall|j: int| 0 <= j < t.len() implies token_char(#[trigger] t[j]) by {
            if j < k.len() {
                assert(t[j] == k[j]);
            } else if k.len() + 1 < j < t.len() - 1 {
                assert(t[j] == v[j - k.len() - 2]);
            }
        }
    }
    if e.len() == 0 {
        assert(crate::map::to_map(e) =~= Map::<Seq<char>, Seq<char>>::empty());
    } else {
        lemma_to_map_push(e);
        let init = e.drop_last();
        assert forall|i: int| 0 <= i < init.len() implies is_key(#[trigger] init[i].0) && is_word(
            init[i].1,
        ) by {
            assert(init[i] == e[i]);
        }
        lemma_pair_tokens(init);
        assert(ts.drop_last() =~= pair_tokens(init));
        let (k, v) = e.last();
        assert(is_key(e[e.len() - 1].0) && is_word(e[e.len() - 1].1));
        lemma_split_at(k, '=', crate::text::enquote_spec(v));
        let t = ts.last();
        assert(t == k + seq!['='] + crate::text::enquote_spec(v));
        assert(crate::text::enquote_spec(v).subrange(1, v.len() as int + 1) =~= v);
        assert(dequote_spec(crate::text::enquote_spec(v)) == v);
    }
}

#[verifier::rlimit(100)]
proof fn lemma_optional_pair_tokens(e: Seq<(Seq<char>, Option<Seq<char>>)>)
    requires
        crate::map::keys_sorted(e),
        forall|i: int|
            0 <= i < e.len() ==> is_key(#[trigger] e[i].0) && (e[i].1 matches Some(v) ==> is_word(
                v,
            )),
    ensures
        crate::parser::optional_pairs(optional_pair_tokens(e)) == crate::map::to_map(e),
        forall|i: int| 0 <= i < e.len() ==> is_token(#[trigger] optional_pair_tokens(e)[i]),
    decreases e.len(),
{
    let ts = optional_pair_tokens(e);
    assert forall|i: int| 0 <= i < e.len() implies is_token(#[trigger] ts[i]) by {
        let k = e[i].0;
        assert(is_key(k));
        let t = ts[i];
        if let Some(v) = e[i].1 {
            assert(is_word(v));
            assert(t == k + seq!['='] + v);
            assert forall|j: int| 0 <= j < t.len() implies token_char(#[trigger] t[j]) by {
                if j < k.len() {
                    assert(t[j] == k[j]);
                } else if j > k.len() {
                    assert(t[j] == v[j - k.len() - 1]);
                }
            }
        }
    }
    if e.len() == 0 {
        assert(crate::map::to_map(e) =~= Map::<Seq<char>, Option<Seq<char>>>::empty());
    } else {
        lemma_to_map_push(e);
        let init = e.drop_last();
        assert forall|i: int|
            0 <= i < init.len() implies is_key(#[trigger] init[i].0) && (init[i].1 matches Some(v)
                ==> is_word(v)) by {
            assert(init[i] == e[i]);
        }
        lemma_optional_pair_tokens(init);
        assert(ts.drop_last() =~= optional_pair_tokens(init));
        let (k, o) = e.last();
        assert(is_key(e[e.len() - 1].0));
        match o {
            Some(v) => {
                assert(e[e.len() - 1].1 matches Some(v) ==> is_word(v));
                lemma_split_at(k, '=', v);
                lemma_dequote_word(v);
            },
            None => {
                crate::text::lemma_index_of(k, '=');
            },
        }
    }
}

/// Joining two non-empty sequences of tokens joins their joins with a space.
proof fn lemma_join_concat(a: Seq<Seq<char>>, b: Seq<Seq<char>>)
    requires
        a.len() > 0,
        b.len() > 0,
    ensures
        join(a + b, seq![' ']) == join(a, seq![' ']) + seq![' '] + join(b, seq![' ']),
    decreases b.len(),
{
    if b.len() == 1 {
        assert((a + b).drop_last() =~= a);
        assert((a + b).last() == b[0]);
    } else {
        lemma_join_concat(a, b.drop_last());
        assert((a + b).drop_last() =~= a + b.drop_last());
        assert((a + b).last() == b.last());
        assert(join(a, seq![' ']) + seq![' '] + join(b.drop_last(), seq![' ']) + seq![' '] + b.last()
            =~= join(a, seq![' ']) + seq![' '] + (join(b.drop_last(), seq![' ']) + seq![' ']
            + b.last()));
    }
}

/// The option token `--key=value`.
pub open spec fn option_token(k: Seq<char>, v: Seq<char>) -> Seq<char> {
    seq!['-', '-'] + k + seq!['='] + v
}

/// The rendered options of `(name, value)` pairs.
pub open spec fn option_texts(os: Seq<(Seq<char>, Option<Seq<char>>)>) -> Seq<Seq<char>> {
    os.map_values(|p: (Seq<char>, Option<Seq<char>>)| crate::render::option_text(p.0, p.1))
}

/// Whether option pairs can be rendered and parsed back: distinct names
/// that are words without `=`, and values that are words.
pub open spec fn options_ok(os: Seq<(Seq<char>, Option<Seq<char>>)>) -> bool {
    &&& forall|i: int, j: int| 0 <= i < j < os.len() ==> #[trigger] os[i].0 != #[trigger] os[j].0
    &&& forall|i: int|
        0 <= i < os.len() ==> is_key(#[trigger] os[i].0) && (os[i].1 matches Some(v) ==> is_word(v))
}

proof fn lemma_options_ok_init(os: Seq<(Seq<char>, Option<Seq<char>>)>)
    requires
        options_ok(os),
        os.len() > 0,
    ensures
        options_ok(os.drop_last()),
        is_key(os.last().0),
        os.last().1 matches Some(v) ==> is_word(v),
        forall|i: int| 0 <= i < os.len() - 1 ==> #[trigger] os[i].0 != os.last().0,
{
    let init = os.drop_last();
    assert forall|i: int, j: int| 0 <= i < j < init.len() implies #[trigger] init[i].0
        != #[trigger] init[j].0 by {
        assert(init[i] == os[i] && init[j] == os[j]);
    }
    assert forall|i: int|
        0 <= i < init.len() implies is_key(#[trigger] init[i].0) && (init[i].1 matches Some(v)
            ==> is_word(v)) by {
        assert(init[i] == os[i]);
    }
    assert(is_key(os[os.len() - 1].0));
    assert forall|i: int| 0 <= i < os.len() - 1 implies #[trigger] os[i].0 != os.last().0 by {
        assert(os[i].0 != os[os.len() - 1].0);
    }
}

/// The present options are option tokens, and the options they set are
/// exactly the given ones.
#[verifier::rlimit(100)]
proof fn lemma_option_tokens(os: Seq<(Seq<char>, Option<Seq<char>>)>)
    requires
        options_ok(os),
    ensures
        forall|i: int|
            0 <= i < crate::render::non_empty(option_texts(os)).len() ==> is_token(
                #[trigger] crate::render::non_empty(option_texts(os))[i],
            ) && crate::parser::is_option(crate::render::non_empty(option_texts(os))[i]),
        forall|j: int|
            0 <= j < os.len() ==> crate::instructions::lookup(
                crate::parser::options_of(crate::render::non_empty(option_texts(os))),
                #[trigger] os[j].0,
            ) == os[j].1,
        forall|k: Seq<char>|
            #[trigger] crate::parser::options_of(
                crate::render::non_empty(option_texts(os)),
            ).contains_key(k) ==> exists|j: int| 0 <= j < os.len() && os[j].0 == k,
    decreases os.len(),
{
    reveal_strlit("--");
    reveal_strlit("=");
    assert("--"@ =~= seq!['-', '-']);
    assert("="@ =~= seq!['=']);
    let p = crate::render::non_empty(option_texts(os));
    if os.len() == 0 {
        assert(p =~= Seq::<Seq<char>>::empty());
    } else {
        lemma_options_ok_init(os);
        let init = os.drop_last();
        lemma_option_tokens(init);
        assert(option_texts(os).drop_last() =~= option_texts(init));
        let (k, o) = os.last();
        let pi = crate::render::non_empty(option_texts(init));
        let mi = crate::parser::options_of(pi);
        match o {
            Some(v) => {
                let t = option_token(k, v);
                assert(option_texts(os).last() == "--"@ + k + "="@ + v);
                assert(option_texts(os).last() =~= t);
                assert(p == pi.push(t));
                assert(is_token(t) && crate::parser::is_option(t)) by {
                    assert forall|j: int| 0 <= j < t.len() implies token_char(#[trigger] t[j]) by {
                        if 2 <= j < k.len() + 2 {
                            assert(t[j] == k[j - 2]);
                        } else if j > k.len() + 2 {
                            assert(t[j] == v[j - k.len() - 3]);
                        }
                    }
                }
                assert(t.skip(2) =~= k + seq!['='] + v);
                lemma_split_at(k, '=', v);
                assert(p.drop_last() =~= pi);
                assert(crate::parser::options_of(p) == mi.insert(k, v));
                assert forall|i: int| 0 <= i < p.len() implies is_token(#[trigger] p[i])
                    && crate::parser::is_option(p[i]) by {
                    if i < pi.len() {
                        assert(p[i] == pi[i]);
                    }
                }
                assert forall|j: int| 0 <= j < os.len() implies crate::instructions::lookup(
                    crate::parser::options_of(p),
                    #[trigger] os[j].0,
                ) == os[j].1 by {
                    if j < os.len() - 1 {
                        assert(os[j] == init[j]);
                        assert(os[j].0 != k);
                    }
                }
                assert forall|k2: Seq<char>| #[trigger] crate::parser::options_of(p).contains_key(k2)
                    implies exists|j: int| 0 <= j < os.len() && os[j].0 == k2 by {
                    if k2 != k {
                        assert(mi.contains_key(k2));
                        let j = choose|j: int| 0 <= j < init.len() && init[j].0 == k2;
                        assert(os[j] == init[j]);
                    } else {
                        assert(os[os.len() - 1].0 == k2);
                    }
                }
            },
            None => {
                assert(option_texts(os).last() =~= Seq::<char>::empty());
                assert(p == pi);
                assert forall|j: int| 0 <= j < os.len() implies crate::instructions::lookup(
                    crate::parser::options_of(p),
                    #[trigger] os[j].0,
                ) == os[j].1 by {
                    if j < os.len() - 1 {
                        assert(os[j] == init[j]);
                    } else {
                        if mi.contains_key(k) {
                            let j2 = choose|j2: int| 0 <= j2 < init.len() && init[j2].0 == k;
                            assert(os[j2] == init[j2]);
                        }
                    }
                }
                assert forall|k2: Seq<char>| #[trigger] crate::parser::options_of(p).contains_key(k2)
                    implies exists|j: int| 0 <= j < os.len() && os[j].0 == k2 by {
                    let j = choose|j: int| 0 <= j < init.len() && init[j].0 == k2;
                    assert(os[j] == init[j]);
                }
            },
        }
    }
}

/// Rendered options before other tokens: the line joins the present option
/// tokens and the others, and parsing takes the options back off.
#[verifier::rlimit(100)]
proof fn lemma_options_line(os: Seq<(Seq<char>, Option<Seq<char>>)>, rest: Seq<Seq<char>>)
    requires
        options_ok(os),
        rest.len() > 0,
        forall|i: int| 0 <= i < rest.len() ==> is_token(#[trigger] rest[i]),
        !crate::parser::is_option(rest[0]),
    ensures
        crate::render::options_prefix(option_texts(os)) + join(rest, seq![' ']) == join(
            crate::render::non_empty(option_texts(os)) + rest,
            seq![' '],
        ),
        forall|i: int|
            0 <= i < (crate::render::non_empty(option_texts(os)) + rest).len() ==> is_token(
                #[trigger] (crate::render::non_empty(option_texts(os)) + rest)[i],
            ),
        crate::parser::option_count(crate::render::non_empty(option_texts(os)) + rest)
            == crate::render::non_empty(option_texts(os)).len(),
        (crate::render::non_empty(option_texts(os)) + rest).take(
            crate::render::non_empty(option_texts(os)).len() as int,
        ) == crate::render::non_empty(option_texts(os)),
        (crate::render::non_empty(option_texts(os)) + rest).skip(
            crate::render::non_empty(option_texts(os)).len() as int,
        ) == rest,
        forall|j: int|
            0 <= j < os.len() ==> crate::instructions::lookup(
                crate::parser::options_of(crate::render::non_empty(option_texts(os))),
                #[trigger] os[j].0,
            ) == os[j].1,
{
    lemma_space();
    lemma_option_tokens(os);
    let p = crate::render::non_empty(option_texts(os));
    let all = p + rest;
    if p.len() > 0 {
        lemma_join_concat(p, rest);
    } else {
        assert(all =~= rest);
    }
    assert forall|i: int| 0 <= i < all.len() implies is_token(#[trigger] all[i]) by {
        if i < p.len() {
            assert(all[i] == p[i]);
        } else {
            assert(all[i] == rest[i - p.len()]);
        }
    }
    assert forall|i: int| 0 <= i < p.len() implies crate::parser::is_option(#[trigger] all[i]) by {
        assert(all[i] == p[i]);
    }
    crate::parser::lemma_option_count(all, p.len() as int);
    assert(all.skip(p.len() as int) =~= rest);
    assert(all.take(p.len() as int) =~= p);
}

/// The option names, character by character.
proof fn lemma_option_names()
    ensures
        "checksum"@ == seq!['c', 'h', 'e', 'c', 'k', 's', 'u', 'm'],
        "chown"@ == seq!['c', 'h', 'o', 'w', 'n'],
        "chmod"@ == seq!['c', 'h', 'm', 'o', 'd'],
        "link"@ == seq!['l', 'i', 'n', 'k'],
        "from"@ == seq!['f', 'r', 'o', 'm'],
        "platform"@ == seq!['p', 'l', 'a', 't', 'f', 'o', 'r', 'm'],
        "mount"@ == seq!['m', 'o', 'u', 'n', 't'],
        "network"@ == seq!['n', 'e', 't', 'w', 'o', 'r', 'k'],
        "security"@ == seq!['s', 'e', 'c', 'u', 'r', 'i', 't', 'y'],
        is_key("checksum"@),
        is_key("chown"@),
        is_key("chmod"@),
        is_key("link"@),
        is_key("from"@),
        is_key("platform"@),
        is_key("mount"@),
        is_key("network"@),
        is_key("security"@),
{
    reveal_strlit("checksum");
    reveal_strlit("chown");
    reveal_strlit("chmod");
    reveal_strlit("link");
    reveal_strlit("from");
    reveal_strlit("platform");
    reveal_strlit("mount");
    reveal_strlit("network");
    reveal_strlit("security");
    assert("checksum"@ =~= seq!['c', 'h', 'e', 'c', 'k', 's', 'u', 'm']);
    assert("chown"@ =~= seq!['c', 'h', 'o', 'w', 'n']);
    assert("chmod"@ =~= seq!['c', 'h', 'm', 'o', 'd']);
    assert("link"@ =~= seq!['l', 'i', 'n', 'k']);
    assert("from"@ =~= seq!['f', 'r', 'o', 'm']);
    assert("platform"@ =~= seq!['p', 'l', 'a', 't', 'f', 'o', 'r', 'm']);
    assert("mount"@ =~= seq!['m', 'o', 'u', 'n', 't']);
    assert("network"@ =~= seq!['n', 'e', 't', 'w', 'o', 'r', 'k']);
    assert("security"@ =~= seq!['s', 'e', 'c', 'u', 'r', 'i', 't', 'y']);
    assert forall|k: Seq<char>|
        k == "checksum"@ || k == "chown"@ || k == "chmod"@ || k == "link"@ || k == "from"@ || k
            == "platform"@ || k == "mount"@ || k == "network"@ || k == "security"@ implies is_key(k) by {
        assert forall|j: int| 0 <= j < k.len() implies token_char(#[trigger] k[j]) && k[j] != '"'
            && k[j] != '=' by {}
    }
}

/// Dequoting words leaves them as they are.
proof fn lemma_dequote_all_words(ws: Seq<Seq<char>>)
    requires
        all_words(ws),
    ensures
        crate::instructions::dequote_all(ws) == ws,
{
    assert forall|i: int| 0 <= i < ws.len() implies dequote_spec(ws[i]) == ws[i] by {
        lemma_dequote_word(ws[i]);
    }
    assert(crate::instructions::dequote_all(ws) =~= ws);
}

/// Whether a word may stand first after the options: it does not start with `--`.
pub open spec fn not_option(w: Seq<char>) -> bool {
    !crate::parser::is_option(w)
}

/// The pieces that splitting at spaces gives are free of spaces.
proof fn lemma_split_state_pieces(s: Seq<char>)
    ensures
        forall|i: int| 0 <= i < split_state(s).0.len() ==> space_free(#[trigger] split_state(s).0[i]),
        forall|j: int| 0 <= j < split_state(s).1.len() ==> #[trigger] split_state(s).1[j] != ' ',
    decreases s.len(),
{
    if s.len() > 0 {
        lemma_split_state_pieces(s.drop_last());
        let (done, cur) = split_state(s.drop_last());
        if s.last() != ' ' {
            assert forall|j: int| 0 <= j < cur.push(s.last()).len() implies #[trigger] cur.push(
                s.last(),
            )[j] != ' ' by {
                if j < cur.len() {
                    assert(cur.push(s.last())[j] == cur[j]);
                }
            }
        } else if cur.len() > 0 {
            assert forall|i: int| 0 <= i < done.push(cur).len() implies space_free(
                #[trigger] done.push(cur)[i],
            ) by {
                if i < done.len() {
                    assert(done.push(cur)[i] == done[i]);
                }
            }
        }
    }
}

proof fn lemma_split_spaces_pieces(s: Seq<char>)
    ensures
        forall|i: int| 0 <= i < split_spaces(s).len() ==> space_free(#[trigger] split_spaces(s)[i]),
{
    lemma_split_state_pieces(s);
    let (done, cur) = split_state(s);
    if cur.len() > 0 {
        assert forall|i: int| 0 <= i < done.push(cur).len() implies space_free(
            #[trigger] done.push(cur)[i],
        ) by {
            if i < done.len() {
                assert(done.push(cur)[i] == done[i]);
            }
        }
    }
}

/// Groups of tokens, each followed by the heredoc separator.
pub open spec fn with_separators(gs: Seq<Seq<Seq<char>>>) -> Seq<Seq<char>>
    decreases gs.len(),
{
    if gs.len() == 0 {
        Seq::empty()
    } else {
        with_separators(gs.drop_last()) + gs.last() + seq![crate::lines::heredoc_separator()]
    }
}

/// A group of tokens that heredoc splitting keeps whole: non-empty, without separators.
pub open spec fn group_ok(g: Seq<Seq<char>>) -> bool {
    g.len() > 0 && forall|j: int| 0 <= j < g.len() ==> #[trigger] g[j]
        != crate::lines::heredoc_separator()
}

proof fn lemma_groups_state_append(x: Seq<Seq<char>>, g: Seq<Seq<char>>)
    requires
        forall|j: int| 0 <= j < g.len() ==> #[trigger] g[j] != crate::lines::heredoc_separator(),
    ensures
        crate::lines::heredoc_groups_state(x + g) == (
            crate::lines::heredoc_groups_state(x).0,
            crate::lines::heredoc_groups_state(x).1 + g,
        ),
    decreases g.len(),
{
    if g.len() > 0 {
        lemma_groups_state_append(x, g.drop_last());
        assert((x + g).drop_last() =~= x + g.drop_last());
        assert((x + g).last() == g.last());
        assert(g[g.len() - 1] != crate::lines::heredoc_separator());
        assert((crate::lines::heredoc_groups_state(x).1 + g.drop_last()).push(g.last())
            =~= crate::lines::heredoc_groups_state(x).1 + g);
    } else {
        assert(x + g =~= x);
        assert(crate::lines::heredoc_groups_state(x).1 + g =~= crate::lines::heredoc_groups_state(x).1);
    }
}

/// Splitting groups that each end in a separator gives the groups back.
proof fn lemma_with_separators(gs: Seq<Seq<Seq<char>>>)
    requires
        forall|k: int| 0 <= k < gs.len() ==> group_ok(#[trigger] gs[k]),
    ensures
        crate::lines::heredoc_groups_state(with_separators(gs)) == (gs, Seq::<Seq<char>>::empty()),
        crate::lines::heredoc_groups(with_separators(gs)) == gs,
    decreases gs.len(),
{
    if gs.len() == 0 {
        assert(gs =~= Seq::<Seq<Seq<char>>>::empty());
    } else {
        let init = gs.drop_last();
        assert forall|k: int| 0 <= k < init.len() implies group_ok(#[trigger] init[k]) by {
            assert(init[k] == gs[k]);
        }
        lemma_with_separators(init);
        let g = gs.last();
        assert(group_ok(gs[gs.len() - 1]));
        let x = with_separators(init) + g;
        lemma_groups_state_append(with_separators(init), g);
        assert(Seq::<Seq<char>>::empty() + g =~= g);
        let y = x + seq![crate::lines::heredoc_separator()];
        assert(y.drop_last() =~= x);
        assert(init.push(g) =~= gs);
    }
}

/// The logical line of a heredoc: the first line, then each body line, each
/// followed by the separator.
pub open spec fn heredoc_logical(first: Seq<char>, body: Seq<Seq<char>>) -> Seq<char>
    decreases body.len(),
{
    if body.len() == 0 {
        first + crate::lines::heredoc_newline()
    } else {
        heredoc_logical(first, body.drop_last()) + body.last() + crate::lines::heredoc_newline()
    }
}

/// The line reconstructor reading lines from a given state.
pub open spec fn lines_from(st: crate::lines::LineState, b: Seq<Seq<char>>) -> crate::lines::LineState
    decreases b.len(),
{
    if b.len() == 0 {
        st
    } else {
        crate::lines::line_step(lines_from(st, b.drop_last()), b.last())
    }
}

proof fn lemma_lines_state_concat(a: Seq<Seq<char>>, b: Seq<Seq<char>>)
    ensures
        lines_state(a + b) == lines_from(lines_state(a), b),
    decreases b.len(),
{
    if b.len() == 0 {
        assert(a + b =~= a);
    } else {
        lemma_lines_state_concat(a, b.drop_last());
        assert((a + b).drop_last() =~= a + b.drop_last());
        assert((a + b).last() == b.last());
    }
}

/// A heredoc, read from a state without pending text: its lines gather into
/// one logical line.
#[verifier::rlimit(100)]
proof fn lemma_heredoc_lines(out: Seq<Seq<char>>, first: Seq<char>, body: Seq<Seq<char>>)
    requires
        trim(first) == first,
        !(first.len() > 0 && first[0] == '#'),
        contains(first, "<<EOF"@),
        forall|k: int| 0 <= k < body.len() ==> #[trigger] body[k] != "EOF"@,
    ensures
        lines_from((out, Seq::<char>::empty(), LineMode::Normal), seq![first] + body)
            == (out, heredoc_logical(first, body), LineMode::InHeredoc),
        lines_from((out, Seq::<char>::empty(), LineMode::Normal), seq![first] + body + seq![
            "EOF"@,
        ]) == (out.push(heredoc_logical(first, body)), Seq::<char>::empty(), LineMode::Normal),
    decreases body.len(),
{
    let st = (out, Seq::<char>::empty(), LineMode::Normal);
    if body.len() == 0 {
        assert(seq![first] + body =~= seq![first]);
        assert(seq![first].drop_last() =~= Seq::<Seq<char>>::empty());
        assert(lines_from(st, Seq::<Seq<char>>::empty()) == st);
        assert(lines_from(st, seq![first]) == crate::lines::line_step(st, first));
        assert(Seq::<char>::empty() + first + crate::lines::heredoc_newline() =~= first
            + crate::lines::heredoc_newline());
        assert(crate::lines::line_step(st, first) == (
            out,
            first + crate::lines::heredoc_newline(),
            LineMode::InHeredoc,
        ));
    } else {
        assert forall|k: int| 0 <= k < body.drop_last().len() implies #[trigger] body.drop_last()[k]
            != "EOF"@ by {
            assert(body.drop_last()[k] == body[k]);
        }
        lemma_heredoc_lines(out, first, body.drop_last());
        assert((seq![first] + body).drop_last() =~= seq![first] + body.drop_last());
        assert((seq![first] + body).last() == body.last());
        assert(body[body.len() - 1] != "EOF"@);
        assert(lines_from(st, seq![first] + body) == crate::lines::line_step(
            lines_from(st, seq![first] + body.drop_last()),
            body.last(),
        ));
    }
    let all = seq![first] + body + seq!["EOF"@];
    assert(all.drop_last() =~= seq![first] + body);
    assert(all.last() == "EOF"@);
    assert(lines_from(st, all) == crate::lines::line_step(lines_from(st, seq![first] + body), "EOF"@));
}

/// A token of a heredoc command: non-empty, no whitespace, not the separator.
pub open spec fn command_token(t: Seq<char>) -> bool {
    &&& t.len() > 0
    &&& forall|j: int| 0 <= j < t.len() ==> !is_ws(#[trigger] t[j])
    &&& t != crate::lines::heredoc_separator()
}

/// Whether the command of a heredoc `RUN` can be rendered and parsed back:
/// such tokens, the first not an option, and one of them `<<EOF`.
pub open spec fn heredoc_command_ok(cmd: Seq<Seq<char>>) -> bool {
    &&& cmd.len() > 0
    &&& forall|k: int| 0 <= k < cmd.len() ==> command_token(#[trigger] cmd[k])
    &&& not_option(cmd[0])
    &&& exists|k: int| 0 <= k < cmd.len() && cmd[k] == "<<EOF"@
}

/// Whether a heredoc body line can be rendered and parsed back: not `EOF`,
/// and pieces without spaces or separators joined by single spaces.
pub open spec fn heredoc_line_ok(l: Seq<char>) -> bool {
    &&& l != "EOF"@
    &&& group_ok(split_spaces(l))
    &&& join(split_spaces(l), seq![' ']) == l
}

/// Whether `ENV`/`LABEL` entries can be rendered and parsed back: at least
/// one, with keys that are words without `=` and values that are words.
pub open spec fn pairs_reproducible(m: crate::map::KeyValueMap<String>) -> bool {
    &&& m.wf()
    &&& m.entries().len() > 0
    &&& forall|i: int|
        0 <= i < m.entries().len() ==> is_key(#[trigger] m.entries()[i].0) && is_word(
            m.entries()[i].1,
        )
}

/// Whether rendering an instruction and parsing its text gives it back.
/// Fields are words: non-empty, without whitespace, double quote, backslash
/// or `<`. Besides: a comment starts with `#` and does not end in
/// whitespace; a user name holds no `:` and a port no `/`; key/value
/// arguments have at least one entry, with keys without `=`; the first
/// positional token of `FROM`, `ADD` and `COPY` does not start with `--`; a
/// `RUN` without heredoc has a command of words, written in exec form; a
/// `RUN` with heredoc has a command of tokens without whitespace, one of
/// them `<<EOF`, and body lines of pieces joined by single spaces, none `EOF`.
pub open spec fn reproducible(i: Instruction) -> bool {
    match i {
        Instruction::Empty => true,
        Instruction::Comment(c) => c@.len() > 0 && c@[0] == '#' && !is_ws(c@.last()),
        Instruction::Workdir { path } => is_word(path@),
        Instruction::Stopsignal { signal } => is_word(signal@),
        Instruction::User { user, group } => {
            &&& is_word(user@)
            &&& forall|j: int| 0 <= j < user@.len() ==> #[trigger] user@[j] != ':'
            &&& group matches Some(g) ==> is_word(g@)
        },
        Instruction::Expose { port, protocol } => {
            &&& is_word(port@)
            &&& forall|j: int| 0 <= j < port@.len() ==> #[trigger] port@[j] != '/'
        },
        Instruction::Cmd(c) => all_words(crate::text::views(c@)),
        Instruction::Entrypoint(c) => all_words(crate::text::views(c@)),
        Instruction::Shell(c) => all_words(crate::text::views(c@)),
        Instruction::Volume { mounts } => all_words(crate::text::views(mounts@)),
        Instruction::From { platform, image, alias } => {
            &&& platform matches Some(p) ==> is_word(p@)
            &&& is_word(image@)
            &&& not_option(image@)
            &&& alias matches Some(a) ==> is_word(a@)
        },
        Instruction::Add { checksum, chown, chmod, link, sources, destination } => {
            &&& checksum matches Some(v) ==> is_word(v@)
            &&& chown matches Some(v) ==> is_word(v@)
            &&& chmod matches Some(v) ==> is_word(v@)
            &&& link matches Some(v) ==> is_word(v@)
            &&& sources@.len() > 0
            &&& all_words(crate::text::views(sources@))
            &&& not_option(sources@[0]@)
            &&& is_word(destination@)
        },
        Instruction::Copy { from, chown, chmod, link, sources, destination } => {
            &&& from matches Some(v) ==> is_word(v@)
            &&& chown matches Some(v) ==> is_word(v@)
            &&& chmod matches Some(v) ==> is_word(v@)
            &&& link matches Some(v) ==> is_word(v@)
            &&& sources@.len() > 0
            &&& all_words(crate::text::views(sources@))
            &&& not_option(sources@[0]@)
            &&& is_word(destination@)
        },
        Instruction::Run { mount, network, security, command, heredoc } => {
            &&& mount matches Some(v) ==> is_word(v@)
            &&& network matches Some(v) ==> is_word(v@)
            &&& security matches Some(v) ==> is_word(v@)
            &&& match heredoc {
                None => all_words(crate::text::views(command@)),
                Some(h) => {
                    &&& heredoc_command_ok(crate::text::views(command@))
                    &&& forall|k: int|
                        0 <= k < h@.len() ==> heredoc_line_ok(#[trigger] crate::text::views(h@)[k])
                },
            }
        },
        Instruction::Env(m) => pairs_reproducible(m),
        Instruction::Label(m) => pairs_reproducible(m),
        Instruction::Arg(m) => {
            &&& m.wf()
            &&& m.entries().len() > 0
            &&& forall|i: int|
                0 <= i < m.entries().len() ==> is_key(#[trigger] m.entries()[i].0) && (
                m.entries()[i].1 matches Some(v) ==> is_word(v))
        },
    }
}

/// The keywords, character by character.
proof fn lemma_keywords()
    ensures
        "ADD"@ == seq!['A', 'D', 'D'],
        "ARG"@ == seq!['A', 'R', 'G'],
        "CMD"@ == seq!['C', 'M', 'D'],
        "COPY"@ == seq!['C', 'O', 'P', 'Y'],
        "ENTRYPOINT"@ == seq!['E', 'N', 'T', 'R', 'Y', 'P', 'O', 'I', 'N', 'T'],
        "ENV"@ == seq!['E', 'N', 'V'],
        "EXPOSE"@ == seq!['E', 'X', 'P', 'O', 'S', 'E'],
        "LABEL"@ == seq!['L', 'A', 'B', 'E', 'L'],
        "FROM"@ == seq!['F', 'R', 'O', 'M'],
        "RUN"@ == seq!['R', 'U', 'N'],
        "SHELL"@ == seq!['S', 'H', 'E', 'L', 'L'],
        "STOPSIGNAL"@ == seq!['S', 'T', 'O', 'P', 'S', 'I', 'G', 'N', 'A', 'L'],
        "USER"@ == seq!['U', 'S', 'E', 'R'],
        "VOLUME"@ == seq!['V', 'O', 'L', 'U', 'M', 'E'],
        "WORKDIR"@ == seq!['W', 'O', 'R', 'K', 'D', 'I', 'R'],
{
    reveal_strlit("ADD");
    reveal_strlit("ARG");
    reveal_strlit("CMD");
    reveal_strlit("COPY");
    reveal_strlit("ENTRYPOINT");
    reveal_strlit("ENV");
    reveal_strlit("EXPOSE");
    reveal_strlit("LABEL");
    reveal_strlit("FROM");
    reveal_strlit("RUN");
    reveal_strlit("SHELL");
    reveal_strlit("STOPSIGNAL");
    reveal_strlit("USER");
    reveal_strlit("VOLUME");
    reveal_strlit("WORKDIR");
    assert("ADD"@ =~= seq!['A', 'D', 'D']);
    assert("ARG"@ =~= seq!['A', 'R', 'G']);
    assert("CMD"@ =~= seq!['C', 'M', 'D']);
    assert("COPY"@ =~= seq!['C', 'O', 'P', 'Y']);
    assert("ENTRYPOINT"@ =~= seq!['E', 'N', 'T', 'R', 'Y', 'P', 'O', 'I', 'N', 'T']);
    assert("ENV"@ =~= seq!['E', 'N', 'V']);
    assert("EXPOSE"@ =~= seq!['E', 'X', 'P', 'O', 'S', 'E']);
    assert("LABEL"@ =~= seq!['L', 'A', 'B', 'E', 'L']);
    assert("FROM"@ =~= seq!['F', 'R', 'O', 'M']);
    assert("RUN"@ =~= seq!['R', 'U', 'N']);
    assert("SHELL"@ =~= seq!['S', 'H', 'E', 'L', 'L']);
    assert("STOPSIGNAL"@ =~= seq!['S', 'T', 'O', 'P', 'S', 'I', 'G', 'N', 'A', 'L']);
    assert("USER"@ =~= seq!['U', 'S', 'E', 'R']);
    assert("VOLUME"@ =~= seq!['V', 'O', 'L', 'U', 'M', 'E']);
    assert("WORKDIR"@ =~= seq!['W', 'O', 'R', 'K', 'D', 'I', 'R']);
}

/// `" "`, character by character.
proof fn lemma_space()
    ensures
        " "@ == seq![' '],
{
    reveal_strlit(" ");
    assert(" "@ =~= seq![' ']);
}

proof fn lemma_dispatch_workdir(a: Seq<Seq<char>>)
    ensures
        crate::file::dispatch("WORKDIR"@, a) == crate::instructions::workdir::workdir_spec(a),
{
    lemma_keywords();
}

proof fn lemma_dispatch_stopsignal(a: Seq<Seq<char>>)
    ensures
        crate::file::dispatch("STOPSIGNAL"@, a) == crate::instructions::stopsignal::stopsignal_spec(
            a,
        ),
{
    lemma_keywords();
}

proof fn lemma_dispatch_user(a: Seq<Seq<char>>)
    ensures
        crate::file::dispatch("USER"@, a) == crate::instructions::user::user_spec(a),
{
    lemma_keywords();
}

proof fn lemma_dispatch_expose(a: Seq<Seq<char>>)
    ensures
        crate::file::dispatch("EXPOSE"@, a) == crate::instructions::expose::expose_spec(a),
{
    lemma_keywords();
}

#[verifier::rlimit(100)]
proof fn lemma_empty_round_trip()
    ensures
        inert(Seq::<char>::empty()),
        parse_line(Seq::<char>::empty()) == Ok::<InstructionView, crate::error::ParseErrorView>(
            InstructionView::Empty,
        ),
{
    lemma_trim_same(Seq::<char>::empty());
    lemma_no_lt_no_heredoc(Seq::<char>::empty());
}

#[verifier::rlimit(100)]
proof fn lemma_workdir_round_trip(i: Instruction)
    requires
        i is Workdir,
        reproducible(i),
    ensures
        inert(rendered(i)),
        parse_line(rendered(i)) == Ok::<InstructionView, crate::error::ParseErrorView>(i@),
{
    let path = i->Workdir_path;
    reveal_strlit("WORKDIR ");
    lemma_keywords();
    lemma_dispatch_workdir(line_arguments(rendered(i)));
    lemma_space();
    let kw = "WORKDIR"@;
    lemma_keyword_line(kw, seq![path@]);
    assert("WORKDIR "@ + path@ =~= kw + seq![' '] + join(seq![path@], seq![' ']));
    lemma_dequote_word(path@);
}

#[verifier::rlimit(100)]
proof fn lemma_stopsignal_round_trip(i: Instruction)
    requires
        i is Stopsignal,
        reproducible(i),
    ensures
        inert(rendered(i)),
        parse_line(rendered(i)) == Ok::<InstructionView, crate::error::ParseErrorView>(i@),
{
    let signal = i->Stopsignal_signal;
    reveal_strlit("STOPSIGNAL ");
    lemma_keywords();
    lemma_dispatch_stopsignal(line_arguments(rendered(i)));
    lemma_space();
    let kw = "STOPSIGNAL"@;
    lemma_keyword_line(kw, seq![signal@]);
    assert("STOPSIGNAL "@ + signal@ =~= kw + seq![' '] + join(seq![signal@], seq![' ']));
}

#[verifier::rlimit(100)]
proof fn lemma_user_round_trip(i: Instruction)
    requires
        i is User,
        reproducible(i),
    ensures
        inert(rendered(i)),
        parse_line(rendered(i)) == Ok::<InstructionView, crate::error::ParseErrorView>(i@),
{
    let user = i->User_user;
    let group = i->User_group;
    reveal_strlit("USER ");
    reveal_strlit(":");
    lemma_keywords();
    lemma_dispatch_user(line_arguments(rendered(i)));
    lemma_space();
    let kw = "USER"@;
    let t = match group {
        Some(g) => user@ + seq![':'] + g@,
        None => user@,
    };
    assert(is_token(t)) by {
        if let Some(g) = group {
            assert forall|j: int| 0 <= j < t.len() implies token_char(#[trigger] t[j]) by {
                if j < user@.len() {
                    assert(t[j] == user@[j]);
                } else if j > user@.len() {
                    assert(t[j] == g@[j - user@.len() - 1]);
                }
            }
        }
    }
    lemma_keyword_line(kw, seq![t]);
    assert(rendered(i) =~= kw + seq![' '] + join(seq![t], seq![' ']));
    assert(dequote_spec(t) == t) by {
        assert(t[0] == user@[0]);
    }
    match group {
        Some(g) => {
            lemma_split_at(user@, ':', g@);
        },
        None => {
            crate::text::lemma_index_of(t, ':');
        },
    }
}

#[verifier::rlimit(100)]
proof fn lemma_expose_round_trip(i: Instruction)
    requires
        i is Expose,
        reproducible(i),
    ensures
        inert(rendered(i)),
        parse_line(rendered(i)) == Ok::<InstructionView, crate::error::ParseErrorView>(i@),
{
    let port = i->Expose_port;
    let protocol = i->Expose_protocol;
    reveal_strlit("EXPOSE ");
    reveal_strlit("/");
    reveal_strlit("tcp");
    reveal_strlit("udp");
    assert("tcp"@ =~= seq!['t', 'c', 'p']);
    assert("udp"@ =~= seq!['u', 'd', 'p']);
    lemma_keywords();
    lemma_dispatch_expose(line_arguments(rendered(i)));
    lemma_space();
    let kw = "EXPOSE"@;
    let t = match protocol {
        Some(p) => port@ + seq!['/'] + crate::render::protocol_text(p),
        None => port@,
    };
    assert(is_token(t)) by {
        if let Some(p) = protocol {
            let q = crate::render::protocol_text(p);
            assert forall|j: int| 0 <= j < t.len() implies token_char(#[trigger] t[j]) by {
                if j < port@.len() {
                    assert(t[j] == port@[j]);
                } else if j > port@.len() {
                    assert(t[j] == q[j - port@.len() - 1]);
                }
            }
        }
    }
    lemma_keyword_line(kw, seq![t]);
    assert(rendered(i) =~= kw + seq![' '] + join(seq![t], seq![' ']));
    match protocol {
        Some(p) => {
            lemma_split_at(port@, '/', crate::render::protocol_text(p));
        },
        None => {
            crate::text::lemma_index_of(t, '/');
        },
    }
}

proof fn lemma_dispatch_cmd(a: Seq<Seq<char>>)
    ensures
        crate::file::dispatch("CMD"@, a) == (Ok::<InstructionView, crate::error::ParseErrorView>(InstructionView::Cmd(crate::instructions::cmd::command_tokens(a)))),
{
    lemma_keywords();
}

#[verifier::rlimit(100)]
proof fn lemma_cmd_round_trip(i: Instruction)
    requires
        i is Cmd,
        reproducible(i),
    ensures
        inert(rendered(i)),
        parse_line(rendered(i)) == Ok::<InstructionView, crate::error::ParseErrorView>(i@),
{
    let ws = crate::text::views(i->Cmd_0@);
    reveal_strlit("CMD ");
    lemma_keywords();
    lemma_space();
    let kw = "CMD"@;
    lemma_exec_list(ws);
    let ts = exec_list_tokens(ws);
    lemma_keyword_line(kw, ts);
    assert(rendered(i) =~= kw + seq![' '] + join(ts, seq![' ']));
    lemma_dispatch_cmd(ts);
}

proof fn lemma_dispatch_entrypoint(a: Seq<Seq<char>>)
    ensures
        crate::file::dispatch("ENTRYPOINT"@, a) == (Ok::<InstructionView, crate::error::ParseErrorView>(InstructionView::Entrypoint(crate::instructions::cmd::command_tokens(a)))),
{
    lemma_keywords();
}

#[verifier::rlimit(100)]
proof fn lemma_entrypoint_round_trip(i: Instruction)
    requires
        i is Entrypoint,
        reproducible(i),
    ensures
        inert(rendered(i)),
        parse_line(rendered(i)) == Ok::<InstructionView, crate::error::ParseErrorView>(i@),
{
    let ws = crate::text::views(i->Entrypoint_0@);
    reveal_strlit("ENTRYPOINT ");
    lemma_keywords();
    lemma_space();
    let kw = "ENTRYPOINT"@;
    lemma_exec_list(ws);
    let ts = exec_list_tokens(ws);
    lemma_keyword_line(kw, ts);
    assert(rendered(i) =~= kw + seq![' '] + join(ts, seq![' ']));
    lemma_dispatch_entrypoint(ts);
}

proof fn lemma_dispatch_shell(a: Seq<Seq<char>>)
    ensures
        crate::file::dispatch("SHELL"@, a) == (crate::instructions::shell::shell_spec(a)),
{
    lemma_keywords();
}

#[verifier::rlimit(100)]
proof fn lemma_shell_round_trip(i: Instruction)
    requires
        i is Shell,
        reproducible(i),
    ensures
        inert(rendered(i)),
        parse_line(rendered(i)) == Ok::<InstructionView, crate::error::ParseErrorView>(i@),
{
    let ws = crate::text::views(i->Shell_0@);
    reveal_strlit("SHELL ");
    lemma_keywords();
    lemma_space();
    let kw = "SHELL"@;
    lemma_exec_list(ws);
    let ts = exec_list_tokens(ws);
    lemma_keyword_line(kw, ts);
    assert(rendered(i) =~= kw + seq![' '] + join(ts, seq![' ']));
    lemma_dispatch_shell(ts);
}

proof fn lemma_dispatch_volume(a: Seq<Seq<char>>)
    ensures
        crate::file::dispatch("VOLUME"@, a) == (Ok::<InstructionView, crate::error::ParseErrorView>(InstructionView::Volume { mounts: crate::instructions::cmd::command_tokens(a) })),
{
    lemma_keywords();
}

#[verifier::rlimit(100)]
proof fn lemma_volume_round_trip(i: Instruction)
    requires
        i is Volume,
        reproducible(i),
    ensures
        inert(rendered(i)),
        parse_line(rendered(i)) == Ok::<InstructionView, crate::error::ParseErrorView>(i@),
{
    let ws = crate::text::views(i->Volume_mounts@);
    reveal_strlit("VOLUME ");
    lemma_keywords();
    lemma_space();
    let kw = "VOLUME"@;
    lemma_exec_list(ws);
    let ts = exec_list_tokens(ws);
    lemma_keyword_line(kw, ts);
    assert(rendered(i) =~= kw + seq![' '] + join(ts, seq![' ']));
    lemma_dispatch_volume(ts);
}

proof fn lemma_dispatch_env(a: Seq<Seq<char>>)
    ensures
        crate::file::dispatch("ENV"@, a) == Ok::<InstructionView, crate::error::ParseErrorView>(
            InstructionView::Env(crate::parser::key_value_pairs(a)),
        ),
{
    lemma_keywords();
}

#[verifier::rlimit(100)]
proof fn lemma_env_round_trip(i: Instruction)
    requires
        i is Env,
        reproducible(i),
    ensures
        inert(rendered(i)),
        parse_line(rendered(i)) == Ok::<InstructionView, crate::error::ParseErrorView>(i@),
{
    let m = i->Env_0;
    let e = m.entries();
    reveal_strlit("ENV ");
    reveal_strlit("=");
    assert("="@ =~= seq!['=']);
    lemma_keywords();
    lemma_space();
    let kw = "ENV"@;
    lemma_pair_tokens(e);
    let ts = pair_tokens(e);
    assert(e.map_values(
        |p: (Seq<char>, Seq<char>)| p.0 + "="@ + crate::text::enquote_spec(p.1),
    ) =~= ts);
    lemma_keyword_line(kw, ts);
    assert(rendered(i) =~= kw + seq![' '] + join(ts, seq![' ']));
    lemma_dispatch_env(ts);
}

proof fn lemma_dispatch_label(a: Seq<Seq<char>>)
    ensures
        crate::file::dispatch("LABEL"@, a) == Ok::<InstructionView, crate::error::ParseErrorView>(
            InstructionView::Label(crate::parser::key_value_pairs(a)),
        ),
{
    lemma_keywords();
}

#[verifier::rlimit(100)]
proof fn lemma_label_round_trip(i: Instruction)
    requires
        i is Label,
        reproducible(i),
    ensures
        inert(rendered(i)),
        parse_line(rendered(i)) == Ok::<InstructionView, crate::error::ParseErrorView>(i@),
{
    let m = i->Label_0;
    let e = m.entries();
    reveal_strlit("LABEL ");
    reveal_strlit("=");
    assert("="@ =~= seq!['=']);
    lemma_keywords();
    lemma_space();
    let kw = "LABEL"@;
    lemma_pair_tokens(e);
    let ts = pair_tokens(e);
    assert(e.map_values(
        |p: (Seq<char>, Seq<char>)| p.0 + "="@ + crate::text::enquote_spec(p.1),
    ) =~= ts);
    lemma_keyword_line(kw, ts);
    assert(rendered(i) =~= kw + seq![' '] + join(ts, seq![' ']));
    lemma_dispatch_label(ts);
}

proof fn lemma_dispatch_arg(a: Seq<Seq<char>>)
    ensures
        crate::file::dispatch("ARG"@, a) == crate::instructions::arg::arg_spec(a),
{
    lemma_keywords();
}

#[verifier::rlimit(100)]
proof fn lemma_arg_round_trip(i: Instruction)
    requires
        i is Arg,
        reproducible(i),
    ensures
        inert(rendered(i)),
        parse_line(rendered(i)) == Ok::<InstructionView, crate::error::ParseErrorView>(i@),
{
    let m = i->Arg_0;
    let e = m.entries();
    reveal_strlit("ARG ");
    reveal_strlit("=");
    assert("="@ =~= seq!['=']);
    lemma_keywords();
    lemma_space();
    let kw = "ARG"@;
    lemma_optional_pair_tokens(e);
    let ts = optional_pair_tokens(e);
    assert(e.map_values(
        |p: (Seq<char>, Option<Seq<char>>)|
            match p.1 {
                Some(v) => p.0 + "="@ + v,
                None => p.0,
            },
    ) =~= ts);
    lemma_keyword_line(kw, ts);
    assert(rendered(i) =~= kw + seq![' '] + join(ts, seq![' ']));
    lemma_dispatch_arg(ts);
}

proof fn lemma_dispatch_from(a: Seq<Seq<char>>)
    ensures
        crate::file::dispatch("FROM"@, a) == crate::instructions::from::from_spec(a),
{
    lemma_keywords();
}

#[verifier::rlimit(100)]
proof fn lemma_from_round_trip(i: Instruction)
    requires
        i is From,
        reproducible(i),
    ensures
        inert(rendered(i)),
        parse_line(rendered(i)) == Ok::<InstructionView, crate::error::ParseErrorView>(i@),
{
    let platform = i->From_platform;
    let image = i->From_image;
    let alias = i->From_alias;
    reveal_strlit("FROM ");
    reveal_strlit(" AS ");
    reveal_strlit("AS");
    assert(" AS "@ =~= seq![' ', 'A', 'S', ' ']);
    lemma_keywords();
    lemma_space();
    lemma_option_names();
    let kw = "FROM"@;
    let os = seq![("platform"@, crate::ast::opt_view(platform))];
    assert(option_texts(os) =~= seq![
        crate::render::option_text("platform"@, crate::ast::opt_view(platform)),
    ]);
    let rest = match alias {
        Some(a) => seq![image@, seq!['A', 'S'], a@],
        None => seq![image@],
    };
    assert forall|k: int| 0 <= k < rest.len() implies is_token(#[trigger] rest[k]) by {
        if k == 1 && alias is Some {
            let t = seq!['A', 'S'];
            assert forall|j: int| 0 <= j < t.len() implies token_char(#[trigger] t[j]) by {}
        }
    }
    assert(options_ok(os));
    lemma_options_line(os, rest);
    let p = crate::render::non_empty(option_texts(os));
    let ts = p + rest;
    assert(join(rest, seq![' ']) =~= image@ + match alias {
        Some(a) => " AS "@ + a@,
        None => Seq::<char>::empty(),
    }) by {
        if let Some(a) = alias {
            let two = seq![image@, seq!['A', 'S']];
            assert(rest.drop_last() =~= two);
            assert(two.drop_last() =~= seq![image@]);
            assert(join(seq![image@], seq![' ']) == image@);
            assert(join(two, seq![' ']) == image@ + seq![' '] + seq!['A', 'S']);
            assert(join(rest, seq![' ']) == join(two, seq![' ']) + seq![' '] + a@);
        } else {
            assert(join(seq![image@], seq![' ']) == image@);
        }
    }
    lemma_keyword_line(kw, ts);
    assert(rendered(i) =~= kw + seq![' '] + join(ts, seq![' ']));
    lemma_dispatch_from(ts);
}

proof fn lemma_dispatch_add(a: Seq<Seq<char>>)
    ensures
        crate::file::dispatch("ADD"@, a) == crate::instructions::add::add_spec(a),
{
    lemma_keywords();
}

proof fn lemma_dispatch_copy(a: Seq<Seq<char>>)
    ensures
        crate::file::dispatch("COPY"@, a) == crate::instructions::copy::copy_spec(a),
{
    lemma_keywords();
}

proof fn lemma_files_rest(sources: Seq<Seq<char>>, destination: Seq<char>)
    requires
        sources.len() > 0,
        all_words(sources),
        is_word(destination),
    ensures
        forall|k: int|
            0 <= k < sources.push(destination).len() ==> is_word(#[trigger] sources.push(destination)[k]),
        join(sources.push(destination), seq![' ']) == join(sources, seq![' ']) + seq![' '] + destination,
        sources.push(destination).drop_last() == sources,
{
    let rest = sources.push(destination);
    assert(rest.drop_last() =~= sources);
    assert forall|k: int| 0 <= k < rest.len() implies is_word(#[trigger] rest[k]) by {
        if k < sources.len() {
            assert(rest[k] == sources[k]);
        }
    }
}

#[verifier::rlimit(100)]
proof fn lemma_add_round_trip(i: Instruction)
    requires
        i is Add,
        reproducible(i),
    ensures
        inert(rendered(i)),
        parse_line(rendered(i)) == Ok::<InstructionView, crate::error::ParseErrorView>(i@),
{
    let sources = crate::text::views(i->Add_sources@);
    let destination = i->Add_destination@;
    reveal_strlit("ADD ");
    reveal_strlit("true");
    lemma_keywords();
    lemma_space();
    lemma_option_names();
    let kw = "ADD"@;
    let os = seq![
        ("checksum"@, crate::ast::opt_view(i->Add_checksum)),
        ("chown"@, crate::ast::opt_view(i->Add_chown)),
        ("chmod"@, crate::ast::opt_view(i->Add_chmod)),
        ("link"@, crate::ast::opt_view(i->Add_link)),
    ];
    assert(option_texts(os) =~= seq![
        crate::render::option_text("checksum"@, crate::ast::opt_view(i->Add_checksum)),
        crate::render::option_text("chown"@, crate::ast::opt_view(i->Add_chown)),
        crate::render::option_text("chmod"@, crate::ast::opt_view(i->Add_chmod)),
        crate::render::option_text("link"@, crate::ast::opt_view(i->Add_link)),
    ]);
    assert(options_ok(os));
    lemma_files_rest(sources, destination);
    let rest = sources.push(destination);
    assert forall|k: int| 0 <= k < rest.len() implies is_token(#[trigger] rest[k]) by {
        assert(is_word(rest[k]));
    }
    assert(rest[0] == sources[0]);
    lemma_options_line(os, rest);
    let p = crate::render::non_empty(option_texts(os));
    let ts = p + rest;
    lemma_keyword_line(kw, ts);
    assert(rendered(i) =~= kw + seq![' '] + join(ts, seq![' ']));
    lemma_dispatch_add(ts);
    lemma_dequote_all_words(sources);
    lemma_dequote_word(destination);
    assert(os[3].0 == "link"@);
}

#[verifier::rlimit(100)]
proof fn lemma_copy_round_trip(i: Instruction)
    requires
        i is Copy,
        reproducible(i),
    ensures
        inert(rendered(i)),
        parse_line(rendered(i)) == Ok::<InstructionView, crate::error::ParseErrorView>(i@),
{
    let sources = crate::text::views(i->Copy_sources@);
    let destination = i->Copy_destination@;
    reveal_strlit("COPY ");
    reveal_strlit("true");
    lemma_keywords();
    lemma_space();
    lemma_option_names();
    let kw = "COPY"@;
    let os = seq![
        ("from"@, crate::ast::opt_view(i->Copy_from)),
        ("chown"@, crate::ast::opt_view(i->Copy_chown)),
        ("chmod"@, crate::ast::opt_view(i->Copy_chmod)),
        ("link"@, crate::ast::opt_view(i->Copy_link)),
    ];
    assert(option_texts(os) =~= seq![
        crate::render::option_text("from"@, crate::ast::opt_view(i->Copy_from)),
        crate::render::option_text("chown"@, crate::ast::opt_view(i->Copy_chown)),
        crate::render::option_text("chmod"@, crate::ast::opt_view(i->Copy_chmod)),
        crate::render::option_text("link"@, crate::ast::opt_view(i->Copy_link)),
    ]);
    assert(options_ok(os));
    lemma_files_rest(sources, destination);
    let rest = sources.push(destination);
    assert forall|k: int| 0 <= k < rest.len() implies is_token(#[trigger] rest[k]) by {
        assert(is_word(rest[k]));
    }
    assert(rest[0] == sources[0]);
    lemma_options_line(os, rest);
    let p = crate::render::non_empty(option_texts(os));
    let ts = p + rest;
    lemma_keyword_line(kw, ts);
    assert(rendered(i) =~= kw + seq![' '] + join(ts, seq![' ']));
    lemma_dispatch_copy(ts);
    lemma_dequote_all_words(sources);
    lemma_dequote_word(destination);
    assert(os[3].0 == "link"@);
}

proof fn lemma_dispatch_run(a: Seq<Seq<char>>)
    ensures
        crate::file::dispatch("RUN"@, a) == crate::instructions::run::run_spec(a),
{
    lemma_keywords();
}

#[verifier::rlimit(100)]
proof fn lemma_run_round_trip(i: Instruction)
    requires
        i is Run,
        i->Run_heredoc is None,
        reproducible(i),
    ensures
        inert(rendered(i)),
        parse_line(rendered(i)) == Ok::<InstructionView, crate::error::ParseErrorView>(i@),
{
    let ws = crate::text::views(i->Run_command@);
    reveal_strlit("RUN ");
    reveal_strlit("<<EOF");
    lemma_keywords();
    lemma_space();
    lemma_option_names();
    let kw = "RUN"@;
    let os = seq![
        ("mount"@, crate::ast::opt_view(i->Run_mount)),
        ("network"@, crate::ast::opt_view(i->Run_network)),
        ("security"@, crate::ast::opt_view(i->Run_security)),
    ];
    assert(option_texts(os) =~= seq![
        crate::render::option_text("mount"@, crate::ast::opt_view(i->Run_mount)),
        crate::render::option_text("network"@, crate::ast::opt_view(i->Run_network)),
        crate::render::option_text("security"@, crate::ast::opt_view(i->Run_security)),
    ]);
    assert(options_ok(os));
    lemma_exec_list(ws);
    let rest = exec_list_tokens(ws);
    lemma_options_line(os, rest);
    let p = crate::render::non_empty(option_texts(os));
    let ts = p + rest;
    lemma_keyword_line(kw, ts);
    assert(rendered(i) =~= kw + seq![' '] + join(ts, seq![' ']));
    lemma_dispatch_run(ts);
    assert(!crate::instructions::run::has_heredoc_start(rest)) by {
        assert forall|k: int| 0 <= k < rest.len() implies rest[k] != "<<EOF"@ by {
            assert(is_token(rest[k]));
            assert(token_char(rest[k][0]));
        }
    }
}

proof fn lemma_join_ends(ts: Seq<Seq<char>>)
    requires
        ts.len() > 0,
        forall|i: int| 0 <= i < ts.len() ==> (#[trigger] ts[i]).len() > 0,
    ensures
        join(ts, seq![' ']).len() > 0,
        join(ts, seq![' '])[0] == ts[0][0],
        join(ts, seq![' ']).last() == ts.last().last(),
    decreases ts.len(),
{
    if ts.len() > 1 {
        let init = ts.drop_last();
        assert forall|i: int| 0 <= i < init.len() implies (#[trigger] init[i]).len() > 0 by {
            assert(init[i] == ts[i]);
        }
        lemma_join_ends(init);
        assert(ts[ts.len() - 1].len() > 0);
        assert(init[0] == ts[0]);
    } else {
        assert(ts[0].len() > 0);
    }
}

/// Each token occurs in the tokens joined.
proof fn lemma_join_contains(ts: Seq<Seq<char>>, k: int)
    requires
        0 <= k < ts.len(),
    ensures
        exists|off: int| occurs_at(join(ts, seq![' ']), ts[k], off),
    decreases ts.len(),
{
    let j = join(ts, seq![' ']);
    if ts.len() == 1 {
        assert(j.subrange(0, ts[0].len() as int) =~= ts[0]);
        assert(occurs_at(j, ts[k], 0));
    } else if k == ts.len() - 1 {
        let x = join(ts.drop_last(), seq![' ']);
        let off = x.len() as int + 1;
        assert(j.subrange(off, off + ts[k].len()) =~= ts[k]);
        assert(occurs_at(j, ts[k], off));
    } else {
        let init = ts.drop_last();
        lemma_join_contains(init, k);
        let x = join(init, seq![' ']);
        let tk = init[k];
        let off = choose|off: int| #[trigger] occurs_at(x, tk, off);
        assert(j.subrange(off, off + ts[k].len()) =~= x.subrange(off, off + ts[k].len()));
        assert(occurs_at(j, ts[k], off));
    }
}

proof fn lemma_with_separators_front(g: Seq<Seq<char>>, gs: Seq<Seq<Seq<char>>>)
    ensures
        with_separators(seq![g] + gs) == g + seq![crate::lines::heredoc_separator()]
            + with_separators(gs),
    decreases gs.len(),
{
    if gs.len() == 0 {
        assert(seq![g] + gs =~= seq![g]);
        assert(seq![g].drop_last() =~= Seq::<Seq<Seq<char>>>::empty());
        assert(with_separators(Seq::<Seq<Seq<char>>>::empty()) =~= Seq::<Seq<char>>::empty());
        assert(with_separators(seq![g]) == with_separators(seq![g].drop_last()) + seq![g].last()
            + seq![crate::lines::heredoc_separator()]);
        assert(with_separators(gs) =~= Seq::<Seq<char>>::empty());
        assert(Seq::<Seq<char>>::empty() + g + seq![crate::lines::heredoc_separator()]
            =~= g + seq![crate::lines::heredoc_separator()] + Seq::<Seq<char>>::empty());
    } else {
        lemma_with_separators_front(g, gs.drop_last());
        assert((seq![g] + gs).drop_last() =~= seq![g] + gs.drop_last());
        assert((seq![g] + gs).last() == gs.last());
        assert(g + seq![crate::lines::heredoc_separator()] + with_separators(gs.drop_last())
            + gs.last() + seq![crate::lines::heredoc_separator()] =~= g + seq![
            crate::lines::heredoc_separator(),
        ] + with_separators(gs));
    }
}

/// The first line of a `RUN` with a heredoc: keyword, options and command.
pub open spec fn heredoc_first_line(i: Instruction) -> Seq<char> {
    "RUN "@ + crate::render::options_prefix(
        seq![
            crate::render::option_text("mount"@, crate::ast::opt_view(i->Run_mount)),
            crate::render::option_text("network"@, crate::ast::opt_view(i->Run_network)),
            crate::render::option_text("security"@, crate::ast::opt_view(i->Run_security)),
        ],
    ) + join(crate::text::views(i->Run_command@), " "@)
}

/// The logical line of a heredoc, as tokens: a keyword, a space, the tokens
/// joined by spaces, and a final space.
#[verifier::rlimit(100)]
proof fn lemma_heredoc_logical_tokens(
    first_tokens: Seq<Seq<char>>,
    cmd: Seq<Seq<char>>,
    body: Seq<Seq<char>>,
)
    requires
        first_tokens.len() > 0,
        forall|k: int| 0 <= k < body.len() ==> heredoc_line_ok(#[trigger] body[k]),
    ensures
        heredoc_logical(seq!['R', 'U', 'N', ' '] + join(first_tokens, seq![' ']), body) == seq![
            'R',
            'U',
            'N',
            ' ',
        ] + join(
            first_tokens + seq![crate::lines::heredoc_separator()] + with_separators(
                body.map_values(|l: Seq<char>| split_spaces(l)),
            ),
            seq![' '],
        ) + seq![' '],
    decreases body.len(),
{
    reveal_strlit(" --NEWLINE-- ");
    reveal_strlit("--NEWLINE--");
    let sep = crate::lines::heredoc_separator();
    assert(crate::lines::heredoc_newline() =~= seq![' '] + sep + seq![' ']);
    let kw = seq!['R', 'U', 'N', ' '];
    let hts = body.map_values(|l: Seq<char>| split_spaces(l));
    if body.len() == 0 {
        assert(hts =~= Seq::<Seq<Seq<char>>>::empty());
        lemma_join_concat(first_tokens, seq![sep]);
        assert(first_tokens + seq![sep] + with_separators(hts) =~= first_tokens + seq![sep]);
        assert(join(seq![sep], seq![' ']) == sep);
        assert(kw + join(first_tokens, seq![' ']) + crate::lines::heredoc_newline() =~= kw + join(
            first_tokens + seq![sep],
            seq![' '],
        ) + seq![' ']);
    } else {
        let init = body.drop_last();
        assert forall|k: int| 0 <= k < init.len() implies heredoc_line_ok(#[trigger] init[k]) by {
            assert(init[k] == body[k]);
        }
        lemma_heredoc_logical_tokens(first_tokens, cmd, init);
        let hi = init.map_values(|l: Seq<char>| split_spaces(l));
        assert(hts.drop_last() =~= hi);
        let l = body.last();
        assert(heredoc_line_ok(body[body.len() - 1]));
        let tk = split_spaces(l);
        assert(hts.last() == tk);
        let a = first_tokens + seq![sep] + with_separators(hi);
        assert(with_separators(hts) == with_separators(hi) + tk + seq![sep]);
        assert(first_tokens + seq![sep] + with_separators(hts) =~= a + tk + seq![sep]);
        lemma_join_concat(a, tk);
        lemma_join_concat(a + tk, seq![sep]);
        assert(join(seq![sep], seq![' ']) == sep);
        assert(kw + join(a, seq![' ']) + seq![' '] + l + crate::lines::heredoc_newline() =~= kw
            + join(a + tk + seq![sep], seq![' ']) + seq![' ']);
    }
}

/// The options of a `RUN`, by name.
pub open spec fn run_options(i: Instruction) -> Seq<(Seq<char>, Option<Seq<char>>)> {
    seq![
        ("mount"@, crate::ast::opt_view(i->Run_mount)),
        ("network"@, crate::ast::opt_view(i->Run_network)),
        ("security"@, crate::ast::opt_view(i->Run_security)),
    ]
}

/// The tokens of the first line of a heredoc `RUN`, after its keyword.
pub open spec fn heredoc_first_tokens(i: Instruction) -> Seq<Seq<char>> {
    crate::render::non_empty(option_texts(run_options(i))) + crate::text::views(i->Run_command@)
}

/// The first line of a heredoc `RUN`: its tokens joined, and what the line
/// reconstructor needs of it.
#[verifier::rlimit(100)]
proof fn lemma_heredoc_first_line(i: Instruction)
    requires
        i is Run,
        i->Run_heredoc is Some,
        reproducible(i),
    ensures
        trim(heredoc_first_line(i)) == heredoc_first_line(i),
        heredoc_first_line(i)[0] == 'R',
        contains(heredoc_first_line(i), "<<EOF"@),
        heredoc_first_line(i) == seq!['R', 'U', 'N', ' '] + join(heredoc_first_tokens(i), seq![' ']),
        heredoc_first_tokens(i).len() > 0,
        forall|k: int|
            0 <= k < heredoc_first_tokens(i).len() ==> space_free(
                #[trigger] heredoc_first_tokens(i)[k],
            ) && !is_ws(heredoc_first_tokens(i)[k][0]),
        forall|k: int|
            0 <= k < crate::render::non_empty(option_texts(run_options(i))).len()
                ==> crate::parser::is_option(
                #[trigger] crate::render::non_empty(option_texts(run_options(i)))[k],
            ),
        forall|j: int|
            0 <= j < run_options(i).len() ==> crate::instructions::lookup(
                crate::parser::options_of(crate::render::non_empty(option_texts(run_options(i)))),
                #[trigger] run_options(i)[j].0,
            ) == run_options(i)[j].1,
{
    let cmd = crate::text::views(i->Run_command@);
    let body = crate::text::views(i->Run_heredoc->0@);
    reveal_strlit("RUN ");
    reveal_strlit("--NEWLINE--");
    reveal_strlit("<<EOF");
    reveal_strlit("EOF");
    lemma_keywords();
    lemma_space();
    lemma_option_names();
    let sep = crate::lines::heredoc_separator();
    let os = run_options(i);
    assert(option_texts(os) =~= seq![
        crate::render::option_text("mount"@, crate::ast::opt_view(i->Run_mount)),
        crate::render::option_text("network"@, crate::ast::opt_view(i->Run_network)),
        crate::render::option_text("security"@, crate::ast::opt_view(i->Run_security)),
    ]);
    assert(options_ok(os));
    lemma_option_tokens(os);
    let p = crate::render::non_empty(option_texts(os));
    let first_tokens = p + cmd;
    assert forall|k: int| 0 <= k < first_tokens.len() implies space_free(#[trigger] first_tokens[k])
        && !is_ws(first_tokens[k][0]) by {
        if k < p.len() {
            assert(first_tokens[k] == p[k]);
            assert(is_token(p[k]) && crate::parser::is_option(p[k]));
            assert forall|j: int| 0 <= j < p[k].len() implies #[trigger] p[k][j] != ' ' by {
                assert(token_char(p[k][j]));
            }
            assert(token_char(p[k][0]));
        } else {
            assert(first_tokens[k] == cmd[k - p.len()]);
            assert(command_token(cmd[k - p.len()]));
            assert forall|j: int| 0 <= j < cmd[k - p.len()].len() implies #[trigger] cmd[k
                - p.len()][j] != ' ' by {
                assert(!is_ws(cmd[k - p.len()][j]));
            }
        }
    }
    // the first line
    if p.len() > 0 {
        lemma_join_concat(p, cmd);
    } else {
        assert(first_tokens =~= cmd);
    }
    assert(heredoc_first_line(i) =~= seq!['R', 'U', 'N', ' '] + join(first_tokens, seq![' ']));
    assert forall|k: int| 0 <= k < first_tokens.len() implies (#[trigger] first_tokens[k]).len() > 0 by {
        assert(space_free(first_tokens[k]));
    }
    lemma_join_ends(first_tokens);
    let fl = heredoc_first_line(i);
    let fj = join(first_tokens, seq![' ']);
    assert(fl.last() == fj.last());
    assert(fj.last() == first_tokens.last().last());
    assert(!is_ws(fl.last())) by {
        let lt = first_tokens.last();
        assert(first_tokens[first_tokens.len() - 1] == lt);
        if first_tokens.len() - 1 < p.len() {
            assert(is_token(lt));
            assert(token_char(lt[lt.len() - 1]));
        } else {
            assert(command_token(lt));
            assert(!is_ws(lt[lt.len() - 1]));
        }
    }
    lemma_trim_same(fl);
    let k0 = choose|k: int| 0 <= k < cmd.len() && cmd[k] == "<<EOF"@;
    lemma_join_contains(first_tokens, p.len() + k0);
    let tok = first_tokens[p.len() + k0];
    let off = choose|off: int| #[trigger] occurs_at(fj, tok, off);
    assert(fl.subrange(off + 4, off + 4 + 5) =~= fj.subrange(off, off + 5));
    assert(occurs_at(fl, "<<EOF"@, off + 4));
    assert forall|k: int| 0 <= k < body.len() implies #[trigger] body[k] != "EOF"@ by {
        assert(heredoc_line_ok(body[k]));
    }
    assert forall|k: int| 0 <= k < p.len() implies crate::parser::is_option(#[trigger] p[k]) by {}
}

/// A `RUN` with a heredoc: its first line and body lines gather into a
/// logical line that parses back to it.
#[verifier::rlimit(100)]
proof fn lemma_run_heredoc_round_trip(i: Instruction)
    requires
        i is Run,
        i->Run_heredoc is Some,
        reproducible(i),
    ensures
        trim(heredoc_first_line(i)) == heredoc_first_line(i),
        heredoc_first_line(i)[0] == 'R',
        contains(heredoc_first_line(i), "<<EOF"@),
        forall|k: int|
            0 <= k < i->Run_heredoc->0@.len() ==> #[trigger] crate::text::views(
                i->Run_heredoc->0@,
            )[k] != "EOF"@,
        parse_line(heredoc_logical(heredoc_first_line(i), crate::text::views(i->Run_heredoc->0@)))
            == Ok::<InstructionView, crate::error::ParseErrorView>(i@),
{
    lemma_heredoc_first_line(i);
    let cmd = crate::text::views(i->Run_command@);
    let body = crate::text::views(i->Run_heredoc->0@);
    reveal_strlit("--NEWLINE--");
    reveal_strlit("<<EOF");
    reveal_strlit("EOF");
    lemma_keywords();
    lemma_space();
    let sep = crate::lines::heredoc_separator();
    let os = run_options(i);
    let p = crate::render::non_empty(option_texts(os));
    let first_tokens = heredoc_first_tokens(i);
    let fl = heredoc_first_line(i);
    let k0 = choose|k: int| 0 <= k < cmd.len() && cmd[k] == "<<EOF"@;
    assert forall|k: int| 0 <= k < body.len() implies #[trigger] body[k] != "EOF"@ by {
        assert(heredoc_line_ok(body[k]));
    }
    // the logical line
    lemma_heredoc_logical_tokens(first_tokens, cmd, body);
    let hts = body.map_values(|l: Seq<char>| split_spaces(l));
    let all = first_tokens + seq![sep] + with_separators(hts);
    let j = join(all, seq![' ']);
    let line = seq!['R', 'U', 'N', ' '] + j + seq![' '];
    assert(heredoc_logical(fl, body) == line);
    assert forall|k: int| 0 <= k < hts.len() implies group_ok(#[trigger] hts[k]) by {
        assert(heredoc_line_ok(body[k]));
    }
    lemma_with_separators_front(cmd, hts);
    let rest = with_separators(seq![cmd] + hts);
    assert(rest == cmd + seq![sep] + with_separators(hts));
    assert(all =~= p + rest);
    // every token is free of spaces
    assert forall|k: int| 0 <= k < all.len() implies space_free(#[trigger] all[k]) by {
        if k < first_tokens.len() {
            assert(all[k] == first_tokens[k]);
        } else if k == first_tokens.len() {
            assert(all[k] == sep);
            assert forall|jj: int| 0 <= jj < sep.len() implies #[trigger] sep[jj] != ' ' by {}
        } else {
            assert forall|m: int| 0 <= m < hts.len() implies group_ok(#[trigger] hts[m]) && forall|jj: int|
                0 <= jj < hts[m].len() ==> space_free(#[trigger] hts[m][jj]) by {
                assert(heredoc_line_ok(body[m]));
                lemma_split_spaces_pieces(body[m]);
            }
            lemma_with_separators_pieces(hts);
            assert(all[k] == with_separators(hts)[k - first_tokens.len() - 1]);
        }
    }
    lemma_split_join(all);
    lemma_join_ends(all);
    assert(all[0] == first_tokens[0]);
    // line shape
    let kw = "RUN"@;
    assert forall|jj: int| 0 <= jj < 3 implies is_keyword_char(#[trigger] line[jj]) by {}
    crate::lines::lemma_keyword_len(line, 3);
    assert(line.skip(3) =~= seq![' '] + (j + seq![' ']));
    assert(keyword_len(line.skip(3)) == 0);
    assert(line.take(3) =~= kw);
    assert((seq![' '] + (j + seq![' '])).drop_first() =~= j + seq![' ']);
    assert(j + seq![' '] =~= j.push(' '));
    assert(trim_start(j.push(' ')) == j.push(' '));
    assert(j.push(' ').drop_last() =~= j);
    assert(split_spaces(j.push(' ')) == split_spaces(j));
    assert(line_arguments(line) == all);
    lemma_dispatch_run(all);
    // options and the rest
    assert forall|k: int| 0 <= k < p.len() implies crate::parser::is_option(#[trigger] all[k]) by {
        assert(all[k] == p[k]);
    }
    crate::parser::lemma_option_count(all, p.len() as int);
    assert(all.skip(p.len() as int) =~= rest);
    assert(all.take(p.len() as int) =~= p);
    assert(rest[0] == cmd[0]);
    assert(crate::parser::option_count(rest) == 0);
    assert(crate::instructions::run::has_heredoc_start(rest)) by {
        assert(rest[k0] == cmd[k0]);
    }
    assert forall|k: int| 0 <= k < (seq![cmd] + hts).len() implies group_ok(
        #[trigger] (seq![cmd] + hts)[k],
    ) by {
        if k == 0 {
            assert((seq![cmd] + hts)[0] == cmd);
            assert forall|jj: int| 0 <= jj < cmd.len() implies #[trigger] cmd[jj] != sep by {
                assert(command_token(cmd[jj]));
            }
        } else {
            assert((seq![cmd] + hts)[k] == hts[k - 1]);
        }
    }
    lemma_with_separators(seq![cmd] + hts);
    let groups = seq![cmd] + hts;
    assert(groups.skip(1) =~= hts);
    assert(crate::instructions::run::heredoc_lines(groups) =~= body) by {
        assert forall|k: int| 0 <= k < body.len() implies join(hts[k], " "@) == body[k] by {
            assert(heredoc_line_ok(body[k]));
        }
    }
    assert(groups[0] == cmd);
    assert(crate::lines::heredoc_groups(rest) == groups);
    assert(os[0].0 == "mount"@ && os[1].0 == "network"@ && os[2].0 == "security"@);
    let opts = crate::parser::options_of(p);
    assert(crate::instructions::lookup(opts, os[0].0) == os[0].1);
    assert(crate::instructions::lookup(opts, os[1].0) == os[1].1);
    assert(crate::instructions::lookup(opts, os[2].0) == os[2].1);
    assert(instruction_shape(line));
    assert(line_keyword(line) == kw);
    assert(crate::instructions::run::run_spec(all) == Ok::<
        InstructionView,
        crate::error::ParseErrorView,
    >(i@));
}

/// Every token of groups followed by separators is free of spaces.
proof fn lemma_with_separators_pieces(gs: Seq<Seq<Seq<char>>>)
    requires
        forall|k: int| 0 <= k < gs.len() ==> group_ok(#[trigger] gs[k]) && forall|j: int|
            0 <= j < gs[k].len() ==> space_free(#[trigger] gs[k][j]),
    ensures
        forall|i: int|
            0 <= i < with_separators(gs).len() ==> space_free(#[trigger] with_separators(gs)[i]),
    decreases gs.len(),
{
    reveal_strlit("--NEWLINE--");
    if gs.len() > 0 {
        let init = gs.drop_last();
        assert forall|k: int| 0 <= k < init.len() implies group_ok(#[trigger] init[k]) && forall|j: int|
            0 <= j < init[k].len() ==> space_free(#[trigger] init[k][j]) by {
            assert(init[k] == gs[k]);
        }
        lemma_with_separators_pieces(init);
        let w = with_separators(init);
        let g = gs.last();
        assert(group_ok(gs[gs.len() - 1]));
        let sep = crate::lines::heredoc_separator();
        assert forall|i: int| 0 <= i < with_separators(gs).len() implies space_free(
            #[trigger] with_separators(gs)[i],
        ) by {
            if i < w.len() {
                assert(with_separators(gs)[i] == w[i]);
            } else if i < w.len() + g.len() {
                assert(with_separators(gs)[i] == g[i - w.len()]);
            } else {
                assert(with_separators(gs)[i] == sep);
                assert forall|jj: int| 0 <= jj < sep.len() implies #[trigger] sep[jj] != ' ' by {}
            }
        }
    }
}

/// Whether an instruction is a `RUN` with a heredoc, rendered on several lines.
pub open spec fn has_heredoc(i: Instruction) -> bool {
    i is Run && i->Run_heredoc is Some
}

/// One reproducible instruction on one line: its text is inert and parses back to it.
pub proof fn lemma_line_round_trip(i: Instruction)
    requires
        reproducible(i),
        !has_heredoc(i),
    ensures
        inert(rendered(i)),
        parse_line(rendered(i)) == Ok::<InstructionView, crate::error::ParseErrorView>(i@),
{
    match i {
        Instruction::Empty => lemma_empty_round_trip(),
        Instruction::Comment(c) => lemma_trim_same(c@),
        Instruction::Workdir { .. } => lemma_workdir_round_trip(i),
        Instruction::Stopsignal { .. } => lemma_stopsignal_round_trip(i),
        Instruction::User { .. } => lemma_user_round_trip(i),
        Instruction::Expose { .. } => lemma_expose_round_trip(i),
        Instruction::Cmd(_) => lemma_cmd_round_trip(i),
        Instruction::Entrypoint(_) => lemma_entrypoint_round_trip(i),
        Instruction::Shell(_) => lemma_shell_round_trip(i),
        Instruction::Volume { .. } => lemma_volume_round_trip(i),
        Instruction::From { .. } => lemma_from_round_trip(i),
        Instruction::Add { .. } => lemma_add_round_trip(i),
        Instruction::Copy { .. } => lemma_copy_round_trip(i),
        Instruction::Run { .. } => lemma_run_round_trip(i),
        Instruction::Env(_) => lemma_env_round_trip(i),
        Instruction::Label(_) => lemma_label_round_trip(i),
        Instruction::Arg(_) => lemma_arg_round_trip(i),
    }
}

/// Sorted entries are determined by the map they stand for.
#[verifier::rlimit(100)]
proof fn lemma_sorted_unique<X>(e1: Seq<(Seq<char>, X)>, e2: Seq<(Seq<char>, X)>)
    requires
        crate::map::keys_sorted(e1),
        crate::map::keys_sorted(e2),
        crate::map::to_map(e1) == crate::map::to_map(e2),
    ensures
        e1 == e2,
    decreases e1.len() + e2.len(),
{
    let m = crate::map::to_map(e1);
    if e1.len() == 0 || e2.len() == 0 {
        if e1.len() > 0 {
            crate::map::lemma_to_map_at(e1, 0);
        }
        if e2.len() > 0 {
            crate::map::lemma_to_map_at(e2, 0);
        }
        assert(e1 =~= e2);
    } else {
        let n1 = e1.len() - 1;
        let n2 = e2.len() - 1;
        let k1 = e1[n1].0;
        let k2 = e2[n2].0;
        crate::map::lemma_to_map_at(e1, n1);
        crate::map::lemma_to_map_at(e2, n2);
        if k1 != k2 {
            let j = choose|j: int| 0 <= j < e2.len() && e2[j].0 == k1;
            let i = choose|i: int| 0 <= i < e1.len() && e1[i].0 == k2;
            assert(j != n2 && i != n1);
            assert(crate::text::seq_lt(e2[j].0, e2[n2].0));
            assert(crate::text::seq_lt(e1[i].0, e1[n1].0));
            crate::text::lemma_seq_lt_total(k1, k2);
        }
        lemma_to_map_push(e1);
        lemma_to_map_push(e2);
        let i1 = e1.drop_last();
        let i2 = e2.drop_last();
        assert(!crate::map::to_map(i1).contains_key(k1)) by {
            if crate::map::has_key(i1, k1) {
                let j = choose|j: int| 0 <= j < i1.len() && i1[j].0 == k1;
                assert(crate::text::seq_lt(e1[j].0, e1[n1].0));
                crate::text::lemma_seq_lt_total(k1, k1);
            }
        }
        assert(!crate::map::to_map(i2).contains_key(k2)) by {
            if crate::map::has_key(i2, k2) {
                let j = choose|j: int| 0 <= j < i2.len() && i2[j].0 == k2;
                assert(crate::text::seq_lt(e2[j].0, e2[n2].0));
                crate::text::lemma_seq_lt_total(k2, k2);
            }
        }
        assert(crate::map::to_map(i1) =~= m.remove(k1));
        assert(crate::map::to_map(i2) =~= m.remove(k1));
        lemma_sorted_unique(i1, i2);
        assert(e1 =~= i1.push(e1[n1]));
        assert(e2 =~= i2.push(e2[n2]));
    }
}

/// Whether the key/value arguments of an instruction are well formed (they
/// always are for values built by this library).
pub open spec fn maps_wf(i: Instruction) -> bool {
    match i {
        Instruction::Arg(m) => m.wf(),
        Instruction::Env(m) => m.wf(),
        Instruction::Label(m) => m.wf(),
        _ => true,
    }
}

proof fn lemma_rendered_by_view_add(i: Instruction, j: Instruction)
    requires
        i is Add,
        j is Add,
        i@ == j@,
        maps_wf(i),
        maps_wf(j),
    ensures
        rendered(i) == rendered(j),
{
}

proof fn lemma_rendered_by_view_arg(i: Instruction, j: Instruction)
    requires
        i is Arg,
        j is Arg,
        i@ == j@,
        maps_wf(i),
        maps_wf(j),
    ensures
        rendered(i) == rendered(j),
{
    lemma_sorted_unique(i->Arg_0.entries(), j->Arg_0.entries());
}

proof fn lemma_rendered_by_view_cmd(i: Instruction, j: Instruction)
    requires
        i is Cmd,
        j is Cmd,
        i@ == j@,
        maps_wf(i),
        maps_wf(j),
    ensures
        rendered(i) == rendered(j),
{
}

proof fn lemma_rendered_by_view_comment(i: Instruction, j: Instruction)
    requires
        i is Comment,
        j is Comment,
        i@ == j@,
        maps_wf(i),
        maps_wf(j),
    ensures
        rendered(i) == rendered(j),
{
}

proof fn lemma_rendered_by_view_copy(i: Instruction, j: Instruction)
    requires
        i is Copy,
        j is Copy,
        i@ == j@,
        maps_wf(i),
        maps_wf(j),
    ensures
        rendered(i) == rendered(j),
{
}

proof fn lemma_rendered_by_view_empty(i: Instruction, j: Instruction)
    requires
        i is Empty,
        j is Empty,
        i@ == j@,
        maps_wf(i),
        maps_wf(j),
    ensures
        rendered(i) == rendered(j),
{
}

proof fn lemma_rendered_by_view_entrypoint(i: Instruction, j: Instruction)
    requires
        i is Entrypoint,
        j is Entrypoint,
        i@ == j@,
        maps_wf(i),
        maps_wf(j),
    ensures
        rendered(i) == rendered(j),
{
}

proof fn lemma_rendered_by_view_env(i: Instruction, j: Instruction)
    requires
        i is Env,
        j is Env,
        i@ == j@,
        maps_wf(i),
        maps_wf(j),
    ensures
        rendered(i) == rendered(j),
{
    lemma_sorted_unique(i->Env_0.entries(), j->Env_0.entries());
}

proof fn lemma_rendered_by_view_expose(i: Instruction, j: Instruction)
    requires
        i is Expose,
        j is Expose,
        i@ == j@,
        maps_wf(i),
        maps_wf(j),
    ensures
        rendered(i) == rendered(j),
{
}

proof fn lemma_rendered_by_view_from(i: Instruction, j: Instruction)
    requires
        i is From,
        j is From,
        i@ == j@,
        maps_wf(i),
        maps_wf(j),
    ensures
        rendered(i) == rendered(j),
{
}

proof fn lemma_rendered_by_view_label(i: Instruction, j: Instruction)
    requires
        i is Label,
        j is Label,
        i@ == j@,
        maps_wf(i),
        maps_wf(j),
    ensures
        rendered(i) == rendered(j),
{
    lemma_sorted_unique(i->Label_0.entries(), j->Label_0.entries());
}

proof fn lemma_rendered_by_view_run(i: Instruction, j: Instruction)
    requires
        i is Run,
        j is Run,
        i@ == j@,
        maps_wf(i),
        maps_wf(j),
    ensures
        rendered(i) == rendered(j),
{
}

proof fn lemma_rendered_by_view_shell(i: Instruction, j: Instruction)
    requires
        i is Shell,
        j is Shell,
        i@ == j@,
        maps_wf(i),
        maps_wf(j),
    ensures
        rendered(i) == rendered(j),
{
}

proof fn lemma_rendered_by_view_stopsignal(i: Instruction, j: Instruction)
    requires
        i is Stopsignal,
        j is Stopsignal,
        i@ == j@,
        maps_wf(i),
        maps_wf(j),
    ensures
        rendered(i) == rendered(j),
{
}

proof fn lemma_rendered_by_view_user(i: Instruction, j: Instruction)
    requires
        i is User,
        j is User,
        i@ == j@,
        maps_wf(i),
        maps_wf(j),
    ensures
        rendered(i) == rendered(j),
{
}

proof fn lemma_rendered_by_view_volume(i: Instruction, j: Instruction)
    requires
        i is Volume,
        j is Volume,
        i@ == j@,
        maps_wf(i),
        maps_wf(j),
    ensures
        rendered(i) == rendered(j),
{
}

proof fn lemma_rendered_by_view_workdir(i: Instruction, j: Instruction)
    requires
        i is Workdir,
        j is Workdir,
        i@ == j@,
        maps_wf(i),
        maps_wf(j),
    ensures
        rendered(i) == rendered(j),
{
}

/// The text of an instruction depends on its model alone.
pub proof fn lemma_rendered_by_view(i: Instruction, j: Instruction)
    requires
        i@ == j@,
        maps_wf(i),
        maps_wf(j),
    ensures
        rendered(i) == rendered(j),
{
    match i {
        Instruction::Add { .. } => lemma_rendered_by_view_add(i, j),
        Instruction::Arg(_) => lemma_rendered_by_view_arg(i, j),
        Instruction::Cmd(_) => lemma_rendered_by_view_cmd(i, j),
        Instruction::Comment(_) => lemma_rendered_by_view_comment(i, j),
        Instruction::Copy { .. } => lemma_rendered_by_view_copy(i, j),
        Instruction::Empty => lemma_rendered_by_view_empty(i, j),
        Instruction::Entrypoint(_) => lemma_rendered_by_view_entrypoint(i, j),
        Instruction::Env(_) => lemma_rendered_by_view_env(i, j),
        Instruction::Expose { .. } => lemma_rendered_by_view_expose(i, j),
        Instruction::From { .. } => lemma_rendered_by_view_from(i, j),
        Instruction::Label(_) => lemma_rendered_by_view_label(i, j),
        Instruction::Run { .. } => lemma_rendered_by_view_run(i, j),
        Instruction::Shell(_) => lemma_rendered_by_view_shell(i, j),
        Instruction::Stopsignal { .. } => lemma_rendered_by_view_stopsignal(i, j),
        Instruction::User { .. } => lemma_rendered_by_view_user(i, j),
        Instruction::Volume { .. } => lemma_rendered_by_view_volume(i, j),
        Instruction::Workdir { .. } => lemma_rendered_by_view_workdir(i, j),
    }
}

/// The physical lines of an instruction: one line, or for a heredoc the
/// first line, the body lines and `EOF`.
pub open spec fn physical_lines(i: Instruction) -> Seq<Seq<char>> {
    if has_heredoc(i) {
        seq![heredoc_first_line(i)] + crate::text::views(i->Run_heredoc->0@) + seq!["EOF"@]
    } else {
        seq![rendered(i)]
    }
}

/// The logical line that the line reconstructor makes of an instruction's physical lines.
pub open spec fn logical_line(i: Instruction) -> Seq<char> {
    if has_heredoc(i) {
        heredoc_logical(heredoc_first_line(i), crate::text::views(i->Run_heredoc->0@))
    } else {
        rendered(i)
    }
}

/// The physical lines of a document, in order.
pub open spec fn document_lines(d: Seq<Instruction>) -> Seq<Seq<char>>
    decreases d.len(),
{
    if d.len() == 0 {
        Seq::empty()
    } else {
        document_lines(d.drop_last()) + physical_lines(d.last())
    }
}

#[verifier::rlimit(100)]
proof fn lemma_document_state(d: Seq<Instruction>)
    requires
        forall|i: int| 0 <= i < d.len() ==> reproducible(#[trigger] d[i]),
    ensures
        lines_state(document_lines(d)) == (
            d.map_values(|i: Instruction| logical_line(i)),
            Seq::<char>::empty(),
            LineMode::Normal,
        ),
    decreases d.len(),
{
    if d.len() == 0 {
        assert(d.map_values(|i: Instruction| logical_line(i)) =~= Seq::<Seq<char>>::empty());
    } else {
        let init = d.drop_last();
        assert forall|i: int| 0 <= i < init.len() implies reproducible(#[trigger] init[i]) by {
            assert(init[i] == d[i]);
        }
        lemma_document_state(init);
        let out = init.map_values(|i: Instruction| logical_line(i));
        let x = d.last();
        assert(reproducible(d[d.len() - 1]));
        lemma_lines_state_concat(document_lines(init), physical_lines(x));
        let st = (out, Seq::<char>::empty(), LineMode::Normal);
        if has_heredoc(x) {
            lemma_run_heredoc_round_trip(x);
            lemma_heredoc_lines(out, heredoc_first_line(x), crate::text::views(x->Run_heredoc->0@));
        } else {
            lemma_line_round_trip(x);
            let t = rendered(x);
            assert(seq![t].drop_last() =~= Seq::<Seq<char>>::empty());
            assert(lines_from(st, Seq::<Seq<char>>::empty()) == st);
            assert(lines_from(st, seq![t]) == crate::lines::line_step(st, t));
            assert(Seq::<char>::empty() + t =~= t);
        }
        assert(out.push(logical_line(x)) =~= d.map_values(|i: Instruction| logical_line(i)));
    }
}

proof fn lemma_parse_lines_ok(d: Seq<Instruction>)
    requires
        forall|i: int| 0 <= i < d.len() ==> reproducible(#[trigger] d[i]),
    ensures
        parse_lines(d.map_values(|i: Instruction| logical_line(i))) == Ok::<
            Seq<InstructionView>,
            crate::error::ParseErrorView,
        >(instruction_views(d)),
    decreases d.len(),
{
    if d.len() > 0 {
        let init = d.drop_last();
        assert forall|i: int| 0 <= i < init.len() implies reproducible(#[trigger] init[i]) by {
            assert(init[i] == d[i]);
        }
        lemma_parse_lines_ok(init);
        assert(d.map_values(|i: Instruction| logical_line(i)).drop_last() =~= init.map_values(
            |i: Instruction| logical_line(i),
        ));
        assert(reproducible(d[d.len() - 1]));
        if has_heredoc(d.last()) {
            lemma_run_heredoc_round_trip(d.last());
        } else {
            lemma_line_round_trip(d.last());
        }
        assert(instruction_views(init).push(d.last()@) =~= instruction_views(d));
    } else {
        assert(d.map_values(|i: Instruction| logical_line(i)) =~= Seq::<Seq<char>>::empty());
        assert(instruction_views(d) =~= Seq::<InstructionView>::empty());
    }
}

proof fn lemma_join_lines(first: Seq<char>, body: Seq<Seq<char>>)
    ensures
        join(seq![first] + body, "\n"@) == first + join(
            body.map_values(|l: Seq<char>| "\n"@ + l),
            Seq::empty(),
        ),
    decreases body.len(),
{
    if body.len() == 0 {
        assert(seq![first] + body =~= seq![first]);
        assert(body.map_values(|l: Seq<char>| "\n"@ + l) =~= Seq::<Seq<char>>::empty());
        assert(first + Seq::<char>::empty() =~= first);
    } else {
        lemma_join_lines(first, body.drop_last());
        let all = seq![first] + body;
        assert(all.drop_last() =~= seq![first] + body.drop_last());
        assert(all.last() == body.last());
        let m = body.map_values(|l: Seq<char>| "\n"@ + l);
        assert(m.drop_last() =~= body.drop_last().map_values(|l: Seq<char>| "\n"@ + l));
        if body.len() == 1 {
            assert(m.drop_last() =~= Seq::<Seq<char>>::empty());
            assert(join(m, Seq::empty()) == m[0]);
        } else {
            assert(join(m, Seq::empty()) == join(m.drop_last(), Seq::empty()) + Seq::<char>::empty()
                + m.last());
        }
        assert(join(all, "\n"@) =~= first + join(m, Seq::empty()));
    }
}

/// The text of an instruction is its physical lines joined by line breaks.
pub proof fn lemma_rendered_lines(i: Instruction)
    ensures
        rendered(i) == join(physical_lines(i), "\n"@),
{
    if has_heredoc(i) {
        reveal_strlit("\n");
        reveal_strlit("\nEOF");
        reveal_strlit("EOF");
        assert("\nEOF"@ =~= "\n"@ + "EOF"@);
        let first = heredoc_first_line(i);
        let body = crate::text::views(i->Run_heredoc->0@);
        lemma_join_lines(first, body);
        let all = seq![first] + body + seq!["EOF"@];
        assert(all.drop_last() =~= seq![first] + body);
        assert(all.len() >= 2);
        assert(rendered(i) =~= join(all, "\n"@));
    }
}

/// Round trip: for instructions that the renderer can reproduce exactly,
/// the text of each is its physical lines joined by line breaks, and those
/// lines, read back as a Dockerfile, parse to the same instructions.
pub proof fn lemma_round_trip(d: Seq<Instruction>)
    requires
        forall|i: int| 0 <= i < d.len() ==> reproducible(#[trigger] d[i]),
    ensures
        forall|k: int|
            0 <= k < d.len() ==> rendered(#[trigger] d[k]) == join(physical_lines(d[k]), "\n"@),
        logical_lines(document_lines(d)) == d.map_values(|i: Instruction| logical_line(i)),
        parse_lines(logical_lines(document_lines(d))) == Ok::<
            Seq<InstructionView>,
            crate::error::ParseErrorView,
        >(instruction_views(d)),
{
    assert forall|k: int| 0 <= k < d.len() implies rendered(#[trigger] d[k]) == join(
        physical_lines(d[k]),
        "\n"@,
    ) by {
        lemma_rendered_lines(d[k]);
    }
    lemma_document_state(d);
    lemma_parse_lines_ok(d);
}

/// Rendering what was parsed from the lines of reproducible instructions
/// gives the same text, instruction for instruction.
pub proof fn lemma_render_after_parse(d: Seq<Instruction>, e: Seq<Instruction>)
    requires
        forall|i: int| 0 <= i < d.len() ==> reproducible(#[trigger] d[i]),
        forall|i: int| 0 <= i < e.len() ==> maps_wf(#[trigger] e[i]),
        parse_lines(logical_lines(document_lines(d))) == Ok::<
            Seq<InstructionView>,
            crate::error::ParseErrorView,
        >(instruction_views(e)),
    ensures
        e.map_values(|i: Instruction| rendered(i)) == d.map_values(|i: Instruction| rendered(i)),
{
    lemma_round_trip(d);
    assert(instruction_views(e) == instruction_views(d));
    assert(e.len() == d.len()) by {
        assert(instruction_views(e).len() == e.len());
        assert(instruction_views(d).len() == d.len());
    }
    assert forall|k: int| 0 <= k < d.len() implies rendered(e[k]) == rendered(d[k]) by {
        assert(instruction_views(e)[k] == e[k]@);
        assert(instruction_views(d)[k] == d[k]@);
        assert(reproducible(d[k]));
        assert(maps_wf(e[k]));
        lemma_rendered_by_view(e[k], d[k]);
    }
    assert(e.map_values(|i: Instruction| rendered(i)) =~= d.map_values(|i: Instruction| rendered(i)));
}

} // verus!
