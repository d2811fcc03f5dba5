//! A whole Dockerfile: parsing its lines into instructions, rendering them
//! back, and counting them.
use vstd::prelude::*;

use crate::ast::Instruction;
use crate::ast::InstructionView;
use crate::error::ParseError;
use crate::error::ParseErrorView;
use crate::instructions::add;
use crate::instructions::arg;
use crate::instructions::cmd;
use crate::instructions::copy;
use crate::instructions::entrypoint;
use crate::instructions::env;
use crate::instructions::expose;
use crate::instructions::from;
use crate::instructions::label;
use crate::instructions::result_view;
use crate::instructions::run;
use crate::instructions::shell;
use crate::instructions::stopsignal;
use crate::instructions::user;
use crate::instructions::volume;
use crate::instructions::workdir;
use crate::lines::instruction_shape;
use crate::lines::line_arguments;
use crate::lines::line_keyword;
use crate::lines::logical_lines;
use crate::lines::process_dockerfile_content;
use crate::lines::split_instruction_and_arguments;
use crate::parser::key_value_pairs;
use crate::render::rendered;
use crate::text::chars_of;
use crate::text::str_eq;
use crate::text::string_of_range;
use crate::text::views;

verus! {

/// The instruction that a keyword and its argument tokens stand for.
pub open spec fn dispatch(k: Seq<char>, a: Seq<Seq<char>>) -> Result<InstructionView, ParseErrorView> {
    if k == "ADD"@ {
        add::add_spec(a)
    } else if k == "ARG"@ {
        arg::arg_spec(a)
    } else if k == "CMD"@ {
        Ok(InstructionView::Cmd(cmd::command_tokens(a)))
    } else if k == "COPY"@ {
        copy::copy_spec(a)
    } else if k == "ENTRYPOINT"@ {
        Ok(InstructionView::Entrypoint(cmd::command_tokens(a)))
    } else if k == "ENV"@ {
        Ok(InstructionView::Env(key_value_pairs(a)))
    } else if k == "EXPOSE"@ {
        expose::expose_spec(a)
    } else if k == "LABEL"@ {
        Ok(InstructionView::Label(key_value_pairs(a)))
    } else if k == "FROM"@ {
        from::from_spec(a)
    } else if k == "RUN"@ {
        run::run_spec(a)
    } else if k == "SHELL"@ {
        shell::shell_spec(a)
    } else if k == "STOPSIGNAL"@ {
        stopsignal::stopsignal_spec(a)
    } else if k == "USER"@ {
        user::user_spec(a)
    } else if k == "VOLUME"@ {
        Ok(InstructionView::Volume { mounts: cmd::command_tokens(a) })
    } else if k == "WORKDIR"@ {
        workdir::workdir_spec(a)
    } else {
        Err(ParseErrorView::UnknownInstruction(k))
    }
}

/// The instruction of one logical line: an empty line, a comment, or a
/// keyword with its arguments.
pub open spec fn parse_line(l: Seq<char>) -> Result<InstructionView, ParseErrorView> {
    if l.len() == 0 {
        Ok(InstructionView::Empty)
    } else if l[0] == '#' {
        Ok(InstructionView::Comment(l))
    } else if !instruction_shape(l) {
        Err(ParseErrorView::SyntaxError(l))
    } else {
        dispatch(line_keyword(l), line_arguments(l))
    }
}

/// The instructions of the logical lines, or the error of the first line that has one.
pub open spec fn parse_lines(ls: Seq<Seq<char>>) -> Result<Seq<InstructionView>, ParseErrorView>
    decreases ls.len(),
{
    if ls.len() == 0 {
        Ok(Seq::empty())
    } else {
        match parse_lines(ls.drop_last()) {
            Err(e) => Err(e),
            Ok(v) => match parse_line(ls.last()) {
                Err(e) => Err(e),
                Ok(i) => Ok(v.push(i)),
            },
        }
    }
}

/// The views of a sequence of instructions.
pub open spec fn instruction_views(v: Seq<Instruction>) -> Seq<InstructionView> {
    v.map_values(|i: Instruction| i@)
}

/// The instruction of one logical line.
#[verifier::rlimit(100)]
pub fn parse_logical_line(line: &String) -> (r: Result<Instruction, ParseError>)
    ensures
        result_view(r) == parse_line(line@),
{
    let v = chars_of(line.as_str());
    if v.len() == 0 {
        return Ok(Instruction::Empty);
    }
    if v[0] == '#' {
        return Ok(Instruction::Comment(line.clone()));
    }
    let (k, a) = match split_instruction_and_arguments(line.as_str()) {
        Ok(p) => p,
        Err(e) => {
            return Err(e);
        },
    };
    let k = k.as_str();
    let a = a.as_slice();
    if str_eq(k, "ADD") {
        add::parse(a)
    } else if str_eq(k, "ARG") {
        arg::parse(a)
    } else if str_eq(k, "CMD") {
        Ok(cmd::parse(a))
    } else if str_eq(k, "COPY") {
        copy::parse(a)
    } else if str_eq(k, "ENTRYPOINT") {
        Ok(entrypoint::parse(a))
    } else if str_eq(k, "ENV") {
        Ok(env::parse(a))
    } else if str_eq(k, "EXPOSE") {
        expose::parse(a)
    } else if str_eq(k, "LABEL") {
        Ok(label::parse(a))
    } else if str_eq(k, "FROM") {
        from::parse(a)
    } else if str_eq(k, "RUN") {
        run::parse(a)
    } else if str_eq(k, "SHELL") {
        shell::parse(a)
    } else if str_eq(k, "STOPSIGNAL") {
        stopsignal::parse(a)
    } else if str_eq(k, "USER") {
        user::parse(a)
    } else if str_eq(k, "VOLUME") {
        Ok(volume::parse(a))
    } else if str_eq(k, "WORKDIR") {
        workdir::parse(a)
    } else {
        Err(ParseError::UnknownInstruction(k.to_owned()))
    }
}

/// The instructions of the logical lines, stopping at the first error.
pub fn parse(lines: &[String]) -> (r: Result<Vec<Instruction>, ParseError>)
    ensures
        match r {
            Ok(v) => parse_lines(views(lines@)) == Ok::<Seq<InstructionView>, ParseErrorView>(
                instruction_views(v@),
            ),
            Err(e) => parse_lines(views(lines@)) == Err::<Seq<InstructionView>, ParseErrorView>(
                e@,
            ),
        },
{
    let ghost a = views(lines@);
    let mut instructions: Vec<Instruction> = Vec::new();
    let mut i: usize = 0;
    assert(a.take(0) =~= Seq::<Seq<char>>::empty());
    assert(instruction_views(instructions@) =~= Seq::<InstructionView>::empty());
    while i < lines.len()
        invariant
            i <= lines@.len(),
            a == views(lines@),
            parse_lines(a.take(i as int)) == Ok::<Seq<InstructionView>, ParseErrorView>(
                instruction_views(instructions@),
            ),
        decreases lines.len() - i,
    {
        assert(a.take(i + 1).drop_last() =~= a.take(i as int));
        assert(a.take(i + 1).last() == a[i as int]);
        match parse_logical_line(&lines[i]) {
            Ok(instruction) => {
                let ghost before = instruction_views(instructions@);
                instructions.push(instruction);
                assert(instruction_views(instructions@) =~= before.push(instruction@));
            },
            Err(e) => {
                proof {
                    lemma_parse_lines_error(a, i as int + 1);
                }
                return Err(e);
            },
        }
        i += 1;
    }
    assert(a.take(i as int) =~= a);
    Ok(instructions)
}

/// An error on a prefix of the lines is the error of all of them.
proof fn lemma_parse_lines_error(ls: Seq<Seq<char>>, n: int)
    requires
        0 <= n <= ls.len(),
        parse_lines(ls.take(n)) is Err,
    ensures
        parse_lines(ls) == parse_lines(ls.take(n)),
    decreases ls.len() - n,
{
    if n < ls.len() {
        assert(ls.take(n + 1).drop_last() =~= ls.take(n));
        lemma_parse_lines_error(ls, n + 1);
    } else {
        assert(ls.take(n) =~= ls);
    }
}

/// The lines of a text: cut at each `\n`, a `\r` before it removed, and no
/// last empty line after a final line break.
pub open spec fn text_lines_state(s: Seq<char>) -> (Seq<Seq<char>>, Seq<char>)
    decreases s.len(),
{
    if s.len() == 0 {
        (Seq::empty(), Seq::empty())
    } else {
        let (done, cur) = text_lines_state(s.drop_last());
        if s.last() == '\n' {
            (done.push(strip_cr(cur)), Seq::empty())
        } else {
            (done, cur.push(s.last()))
        }
    }
}

/// A line without the `\r` of a `\r\n` line break.
pub open spec fn strip_cr(l: Seq<char>) -> Seq<char> {
    if l.len() > 0 && l.last() == '\r' {
        l.drop_last()
    } else {
        l
    }
}

/// The lines of a text.
pub open spec fn text_lines(s: Seq<char>) -> Seq<Seq<char>> {
    let (done, cur) = text_lines_state(s);
    if cur.len() > 0 {
        done.push(cur)
    } else {
        done
    }
}

/// The lines of a text, as `str::lines` cuts them.
pub fn lines_of(s: &str) -> (r: Vec<String>)
    ensures
        views(r@) == text_lines(s@),
{
    let v = chars_of(s);
    let mut r: Vec<String> = Vec::new();
    let mut start: usize = 0;
    let mut i: usize = 0;
    assert(v@.take(0) =~= Seq::<char>::empty());
    while i < v.len()
        invariant
            start <= i <= v@.len(),
            v@ == s@,
            views(r@) == text_lines_state(v@.take(i as int)).0,
            v@.subrange(start as int, i as int) == text_lines_state(v@.take(i as int)).1,
        decreases v.len() - i,
    {
        assert(v@.take(i + 1).drop_last() =~= v@.take(i as int));
        if v[i] == '\n' {
            let end = if i > start && v[i - 1] == '\r' {
                i - 1
            } else {
                i
            };
            let line = string_of_range(v.as_slice(), start, end);
            assert(line@ =~= strip_cr(v@.subrange(start as int, i as int)));
            let ghost before = views(r@);
            r.push(line);
            assert(views(r@) =~= before.push(strip_cr(v@.subrange(start as int, i as int))));
            start = i + 1;
            assert(v@.subrange(start as int, i + 1) =~= Seq::<char>::empty());
        } else {
            assert(v@.subrange(start as int, i + 1) =~= v@.subrange(start as int, i as int).push(
                v@[i as int],
            ));
        }
        i += 1;
    }
    assert(v@.take(i as int) =~= v@);
    if start < v.len() {
        let line = string_of_range(v.as_slice(), start, v.len());
        let ghost before = views(r@);
        r.push(line);
        assert(views(r@) =~= before.push(v@.subrange(start as int, v@.len() as int)));
    }
    r
}

/// The instructions of a Dockerfile, in order.
#[derive(Debug, Clone, PartialEq, Eq)]
pub struct Dockerfile {
    pub instructions: Vec<Instruction>,
}

impl View for Dockerfile {
    type V = Seq<InstructionView>;

    open spec fn view(&self) -> Seq<InstructionView> {
        instruction_views(self.instructions@)
    }
}

/// Whether an instruction is a build step: anything but an empty line or a comment.
pub open spec fn is_step(i: InstructionView) -> bool {
    !(i is Empty || i is Comment)
}

/// Whether an instruction adds a layer: `ADD`, `COPY` or `RUN`.
pub open spec fn is_layer(i: InstructionView) -> bool {
    i is Add || i is Copy || i is Run
}

/// Whether an instruction starts a stage: `FROM`.
pub open spec fn is_stage(i: InstructionView) -> bool {
    i is From
}

/// What a count of instructions counts.
#[derive(Debug, Clone, Copy, PartialEq, Eq, Structural)]
pub enum Tally {
    Steps,
    Layers,
    Stages,
}

/// Whether an instruction counts for `k`.
pub open spec fn counts_for(k: Tally, i: InstructionView) -> bool {
    match k {
        Tally::Steps => is_step(i),
        Tally::Layers => is_layer(i),
        Tally::Stages => is_stage(i),
    }
}

/// The number of instructions of `s` that count for `k`.
pub open spec fn tally(s: Seq<InstructionView>, k: Tally) -> nat
    decreases s.len(),
{
    if s.len() == 0 {
        0
    } else {
        tally(s.drop_last(), k) + if counts_for(k, s.last()) {
            1nat
        } else {
            0nat
        }
    }
}

proof fn lemma_tally_bound(s: Seq<InstructionView>, k: Tally)
    ensures
        tally(s, k) <= s.len(),
    decreases s.len(),
{
    if s.len() > 0 {
        lemma_tally_bound(s.drop_last(), k);
    }
}

impl Dockerfile {
    /// A Dockerfile of the given instructions.
    pub fn new(instructions: Vec<Instruction>) -> (r: Self)
        ensures
            r.instructions == instructions,
    {
        Dockerfile { instructions }
    }

    /// A Dockerfile without instructions.
    pub fn empty() -> (r: Self)
        ensures
            r@.len() == 0,
    {
        let r = Dockerfile::new(Vec::new());
        assert(r@ =~= Seq::<InstructionView>::empty());
        r
    }

    /// Parses physical lines: rebuilds the logical lines, then parses each.
    pub fn from_lines(lines: &[String]) -> (r: Result<Self, ParseError>)
        ensures
            match r {
                Ok(d) => parse_lines(logical_lines(views(lines@)))
                    == Ok::<Seq<InstructionView>, ParseErrorView>(d@),
                Err(e) => parse_lines(logical_lines(views(lines@)))
                    == Err::<Seq<InstructionView>, ParseErrorView>(e@),
            },
    {
        let logical = process_dockerfile_content(lines);
        match parse(logical.as_slice()) {
            Ok(instructions) => Ok(Dockerfile::new(instructions)),
            Err(e) => Err(e),
        }
    }

    /// Parses the text of a Dockerfile.
    pub fn from_str(s: &str) -> (r: Result<Self, ParseError>)
        ensures
            match r {
                Ok(d) => parse_lines(logical_lines(text_lines(s@)))
                    == Ok::<Seq<InstructionView>, ParseErrorView>(d@),
                Err(e) => parse_lines(logical_lines(text_lines(s@)))
                    == Err::<Seq<InstructionView>, ParseErrorView>(e@),
            },
    {
        let lines = lines_of(s);
        Dockerfile::from_lines(lines.as_slice())
    }

    /// The canonical text of each instruction, in order.
    pub fn to_lines(&self) -> (r: Vec<String>)
        ensures
            r@.len() == self.instructions@.len(),
            forall|i: int| 0 <= i < r@.len() ==> #[trigger] r@[i]@ == rendered(
                self.instructions@[i],
            ),
    {
        let mut r: Vec<String> = Vec::new();
        let mut i: usize = 0;
        while i < self.instructions.len()
            invariant
                i <= self.instructions@.len(),
                r@.len() == i,
                forall|j: int| 0 <= j < i ==> #[trigger] r@[j]@ == rendered(self.instructions@[j]),
            decreases self.instructions.len() - i,
        {
            r.push(self.instructions[i].to_string());
            i += 1;
        }
        r
    }

    /// The number of build steps: instructions other than empty lines and comments.
    pub fn steps(&self) -> (r: usize)
        ensures
            r == tally(self@, Tally::Steps),
    {
        self.count(Tally::Steps)
    }

    /// The number of instructions that add a layer.
    pub fn layers(&self) -> (r: usize)
        ensures
            r == tally(self@, Tally::Layers),
    {
        self.count(Tally::Layers)
    }

    /// The number of stages.
    pub fn stages(&self) -> (r: usize)
        ensures
            r == tally(self@, Tally::Stages),
    {
        self.count(Tally::Stages)
    }

    /// The number of instructions that count for `what`.
    pub fn count(&self, what: Tally) -> (r: usize)
        ensures
            r == tally(self@, what),
    {
        let ghost s = self@;
        let mut n: usize = 0;
        let mut i: usize = 0;
        assert(s.take(0) =~= Seq::<InstructionView>::empty());
        while i < self.instructions.len()
            invariant
                i <= self.instructions@.len(),
                s == self@,
                n == tally(s.take(i as int), what),
            decreases self.instructions.len() - i,
        {
            assert(s.take(i + 1).drop_last() =~= s.take(i as int));
            proof {
                lemma_tally_bound(s.take(i as int), what);
            }
            let hit = match &self.instructions[i] {
                Instruction::Empty | Instruction::Comment(_) => false,
                Instruction::Add { .. } | Instruction::Copy { .. } | Instruction::Run { .. } => what
                    != Tally::Stages,
                Instruction::From { .. } => what != Tally::Layers,
                _ => what == Tally::Steps,
            };
            assert(s[i as int] == self.instructions@[i as int]@);
            assert(hit == counts_for(what, s[i as int]));
            assert(s.take(i + 1).last() == s[i as int]);
            if hit {
                n += 1;
            }
            i += 1;
        }
        assert(s.take(i as int) =~= s);
        n
    }
}

} // verus!
