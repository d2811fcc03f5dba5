//! From physical lines to logical lines, and from a logical line to its
//! keyword and argument tokens.
use vstd::prelude::*;

use crate::error::ParseError;
use crate::error::ParseErrorView;
use crate::text::chars_of;
use crate::text::contains;
use crate::text::contains_exec;
use crate::text::is_ws;
use crate::text::leading_ws;
use crate::text::push_all;
use crate::text::split_on_spaces;
use crate::text::split_spaces;
use crate::text::string_of;
use crate::text::string_of_range;
use crate::text::trim;
use crate::text::trim_chars;
use crate::text::trim_start;
use crate::text::views;

verus! {

/// The state of the line reconstructor.
#[derive(Debug, Clone, Copy, PartialEq, Eq, Structural)]
pub enum LineMode {
    /// No logical line is pending.
    Normal,
    /// A line ended in a backslash; the logical line goes on.
    Continuing,
    /// Inside a heredoc body, until a line `EOF`.
    InHeredoc,
}

/// The logical lines so far, the pending text, and the mode.
pub type LineState = (Seq<Seq<char>>, Seq<char>, LineMode);

/// The separator that stands for a line break of a heredoc body within a logical line.
pub open spec fn heredoc_newline() -> Seq<char> {
    " --NEWLINE-- "@
}

/// One physical line read in a given state.
pub open spec fn line_step(st: LineState, line: Seq<char>) -> LineState {
    let (out, cur, mode) = st;
    let t = trim(line);
    match mode {
        LineMode::InHeredoc => if line == "EOF"@ {
            (out.push(cur), Seq::empty(), LineMode::Normal)
        } else {
            (out, cur + line + heredoc_newline(), LineMode::InHeredoc)
        },
        _ => if t.len() > 0 && t[0] == '#' {
            if mode == LineMode::Normal {
                (out.push(t), cur, LineMode::Normal)
            } else {
                st
            }
        } else if contains(t, "<<EOF"@) {
            (out, cur + t + heredoc_newline(), LineMode::InHeredoc)
        } else if t.len() > 0 && t.last() == '\\' {
            (out, cur + t.drop_last() + seq![' '], LineMode::Continuing)
        } else {
            (out.push(cur + t), Seq::empty(), LineMode::Normal)
        },
    }
}

/// The state after reading the lines from the start.
pub open spec fn lines_state(lines: Seq<Seq<char>>) -> LineState
    decreases lines.len(),
{
    if lines.len() == 0 {
        (Seq::empty(), Seq::empty(), LineMode::Normal)
    } else {
        line_step(lines_state(lines.drop_last()), lines.last())
    }
}

/// The logical lines of a sequence of physical lines.
pub open spec fn logical_lines(lines: Seq<Seq<char>>) -> Seq<Seq<char>> {
    lines_state(lines).0
}

/// Appends the separator that stands for a heredoc line break.
pub fn add_heredoc_newline(string: &mut String)
    ensures
        final(string)@ == old(string)@ + heredoc_newline(),
{
    push_all(string, " --NEWLINE-- ");
}

/// Joins continued lines, gathers each heredoc with its body, keeps comment
/// lines that stand alone and drops those inside a continuation.
pub fn process_dockerfile_content(lines: &[String]) -> (r: Vec<String>)
    ensures
        views(r@) == logical_lines(views(lines@)),
{
    let ghost a = views(lines@);
    let mut result: Vec<String> = Vec::new();
    let mut current = String::new();
    let mut mode = LineMode::Normal;
    let eof = chars_of("EOF");
    let start = chars_of("<<EOF");
    let mut i: usize = 0;
    assert(a.take(0) =~= Seq::<Seq<char>>::empty());
    while i < lines.len()
        invariant
            i <= lines@.len(),
            a == views(lines@),
            eof@ == "EOF"@,
            start@ == "<<EOF"@,
            lines_state(a.take(i as int)) == (views(result@), current@, mode),
        decreases lines.len() - i,
    {
        assert(a.take(i + 1).drop_last() =~= a.take(i as int));
        assert(a.take(i + 1).last() == a[i as int]);
        let raw = chars_of(lines[i].as_str());
        let ghost before = views(result@);
        match mode {
            LineMode::InHeredoc => {
                if crate::text::chars_eq(raw.as_slice(), eof.as_slice()) {
                    let mut done = String::new();
                    core::mem::swap(&mut current, &mut done);
                    result.push(done);
                    assert(views(result@) =~= before.push(lines_state(a.take(i as int)).1));
                    mode = LineMode::Normal;
                } else {
                    push_all(&mut current, lines[i].as_str());
                    add_heredoc_newline(&mut current);
                }
            },
            _ => {
                let t = trim_chars(raw.as_slice());
                let n = t.len();
                if n > 0 && t[0] == '#' {
                    if mode == LineMode::Normal {
                        result.push(string_of(t.as_slice()));
                        assert(views(result@) =~= before.push(t@));
                    }
                } else if contains_exec(t.as_slice(), start.as_slice()) {
                    let ts = string_of(t.as_slice());
                    push_all(&mut current, ts.as_str());
                    add_heredoc_newline(&mut current);
                    mode = LineMode::InHeredoc;
                } else if n > 0 && t[n - 1] == '\\' {
                    let ts = string_of_range(t.as_slice(), 0, n - 1);
                    push_all(&mut current, ts.as_str());
                    current.push(' ');
                    assert(ts@ =~= t@.drop_last());
                    mode = LineMode::Continuing;
                } else {
                    let ts = string_of(t.as_slice());
                    push_all(&mut current, ts.as_str());
                    let mut done = String::new();
                    core::mem::swap(&mut current, &mut done);
                    result.push(done);
                    assert(views(result@) =~= before.push(done@));
                    mode = LineMode::Normal;
                }
            },
        }
        i += 1;
    }
    assert(a.take(i as int) =~= a);
    result
}

/// The token that separates heredoc lines among the argument tokens.
pub open spec fn heredoc_separator() -> Seq<char> {
    "--NEWLINE--"@
}

/// The groups finished so far and the group being read.
pub open spec fn heredoc_groups_state(toks: Seq<Seq<char>>) -> (Seq<Seq<Seq<char>>>, Seq<Seq<char>>)
    decreases toks.len(),
{
    if toks.len() == 0 {
        (Seq::empty(), Seq::empty())
    } else {
        let (groups, cur) = heredoc_groups_state(toks.drop_last());
        if toks.last() == heredoc_separator() {
            if cur.len() > 0 {
                (groups.push(cur), Seq::empty())
            } else {
                (groups, Seq::empty())
            }
        } else {
            (groups, cur.push(toks.last()))
        }
    }
}

/// The tokens cut at each separator, empty groups dropped.
pub open spec fn heredoc_groups(toks: Seq<Seq<char>>) -> Seq<Seq<Seq<char>>> {
    let (groups, cur) = heredoc_groups_state(toks);
    if cur.len() > 0 {
        groups.push(cur)
    } else {
        groups
    }
}

/// The views of groups of strings.
pub open spec fn group_views(g: Seq<Vec<String>>) -> Seq<Seq<Seq<char>>> {
    g.map_values(|v: Vec<String>| views(v@))
}

/// Cuts the tokens at each heredoc separator, dropping empty groups.
pub fn split_heredoc(strings: Vec<String>) -> (r: Vec<Vec<String>>)
    ensures
        group_views(r@) == heredoc_groups(views(strings@)),
{
    let ghost a = views(strings@);
    let sep = chars_of("--NEWLINE--");
    let mut result: Vec<Vec<String>> = Vec::new();
    let mut current: Vec<String> = Vec::new();
    let mut i: usize = 0;
    assert(a.take(0) =~= Seq::<Seq<char>>::empty());
    while i < strings.len()
        invariant
            i <= strings@.len(),
            a == views(strings@),
            sep@ == heredoc_separator(),
            heredoc_groups_state(a.take(i as int)) == (group_views(result@), views(current@)),
        decreases strings.len() - i,
    {
        assert(a.take(i + 1).drop_last() =~= a.take(i as int));
        assert(a.take(i + 1).last() == a[i as int]);
        let s = chars_of(strings[i].as_str());
        let ghost before = group_views(result@);
        let ghost cur_before = views(current@);
        if crate::text::chars_eq(s.as_slice(), sep.as_slice()) {
            let mut done: Vec<String> = Vec::new();
            core::mem::swap(&mut current, &mut done);
            if done.len() > 0 {
                result.push(done);
                assert(group_views(result@) =~= before.push(cur_before));
            }
            assert(views(current@) =~= Seq::<Seq<char>>::empty());
        } else {
            current.push(strings[i].clone());
            assert(views(current@) =~= cur_before.push(a[i as int]));
        }
        i += 1;
    }
    assert(a.take(i as int) =~= a);
    if current.len() > 0 {
        let ghost before = group_views(result@);
        let ghost cur_before = views(current@);
        result.push(current);
        assert(group_views(result@) =~= before.push(cur_before));
    }
    result
}

/// An upper-case ASCII letter.
pub open spec fn is_upper(c: char) -> bool {
    'A' <= c <= 'Z'
}

/// A character that may follow the first letter of a keyword.
pub open spec fn is_keyword_char(c: char) -> bool {
    is_upper(c) || ('0' <= c <= '9')
}

/// The number of leading keyword characters of `s`.
pub open spec fn keyword_len(s: Seq<char>) -> nat
    decreases s.len(),
{
    if s.len() > 0 && is_keyword_char(s[0]) {
        1 + keyword_len(s.drop_first())
    } else {
        0
    }
}

pub(crate) proof fn lemma_keyword_len(s: Seq<char>, i: int)
    requires
        0 <= i <= s.len(),
        forall|j: int| 0 <= j < i ==> is_keyword_char(#[trigger] s[j]),
    ensures
        keyword_len(s) == i + keyword_len(s.skip(i)),
    decreases i,
{
    if i > 0 {
        assert forall|j: int| 0 <= j < i - 1 implies is_keyword_char(#[trigger] s.drop_first()[j]) by {
            assert(is_keyword_char(s[j + 1]));
        }
        lemma_keyword_len(s.drop_first(), i - 1);
        assert(s.drop_first().skip(i - 1) =~= s.skip(i));
    } else {
        assert(s.skip(0) =~= s);
    }
}

/// Whether a logical line has the shape of an instruction: an upper-case
/// keyword of letters and digits, whitespace, then at least one argument character.
pub open spec fn instruction_shape(s: Seq<char>) -> bool {
    let k = keyword_len(s);
    &&& s.len() > 0
    &&& is_upper(s[0])
    &&& k < s.len()
    &&& is_ws(s[k as int])
    &&& trim_start(s.skip(k as int)).len() > 0
}

/// The keyword of a line of that shape.
pub open spec fn line_keyword(s: Seq<char>) -> Seq<char> {
    s.take(keyword_len(s) as int)
}

/// The argument tokens of a line of that shape: its argument text split at spaces.
pub open spec fn line_arguments(s: Seq<char>) -> Seq<Seq<char>> {
    split_spaces(trim_start(s.skip(keyword_len(s) as int)))
}

/// Splits a line into its keyword and its argument tokens.
pub fn split_instruction_and_arguments(line: &str) -> (r: Result<(String, Vec<String>), ParseError>)
    ensures
        r is Ok <==> instruction_shape(line@),
        r matches Ok((k, a)) ==> k@ == line_keyword(line@) && views(a@) == line_arguments(line@),
        r matches Err(e) ==> e@ == ParseErrorView::SyntaxError(line@),
{
    let s = chars_of(line);
    let n = s.len();
    if n == 0 || !('A' <= s[0] && s[0] <= 'Z') {
        return Err(ParseError::SyntaxError(line.to_owned()));
    }
    let mut k: usize = 0;
    while k < n && (('A' <= s[k] && s[k] <= 'Z') || ('0' <= s[k] && s[k] <= '9'))
        invariant
            k <= n,
            n == s@.len(),
            forall|j: int| 0 <= j < k ==> is_keyword_char(#[trigger] s@[j]),
        decreases n - k,
    {
        k += 1;
    }
    proof {
        lemma_keyword_len(s@, k as int);
        assert(keyword_len(s@.skip(k as int)) == 0);
    }
    if k == n || !crate::text::is_whitespace(s[k]) {
        return Err(ParseError::SyntaxError(line.to_owned()));
    }
    let rest = string_of_range(s.as_slice(), k, n);
    let rv = chars_of(rest.as_str());
    assert(rv@ =~= s@.skip(k as int));
    let w = leading_ws(rv.as_slice());
    if w == rv.len() {
        return Err(ParseError::SyntaxError(line.to_owned()));
    }
    let keyword = string_of_range(s.as_slice(), 0, k);
    let arguments = split_on_spaces(rv.as_slice(), w);
    assert(s@.subrange(0, k as int) =~= s@.take(k as int));
    Ok((keyword, arguments))
}

} // verus!
