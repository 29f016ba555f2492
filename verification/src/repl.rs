use crate::compilation_error::CompErr;
use crate::compiler::{run_source, source_run, Dataset};
use crate::grammar::statements_from;
use crate::lexer::{tokens_from, TokView};
use crate::parser::written;
use crate::syntax::{spelled_program, Statement};
use crate::v::V;
use crate::g::G;
use crate::int_seq::{symbols_of, IntSeq, A};
use crate::parser_state::{variable_at, ParserState};
use crate::parser_utils::{
    chars_of_symbols, message, split_whitespace, symbols_of_str, symbols_to_chars, word_scalar,
    words, words_scalar, words_view,
};
use crate::pipeline::ExternalStage;
use crate::ranged_evaluation::evaluate;
use crate::solomonoff::Solomonoff;
use crate::repl_command::{
    args_to_optional_value, args_to_value, args_to_value_value, format_list, list_text,
    args_view, strings_view, ArgView, ReplArg, ReplCommand,
};
use crate::text::{push_str, string_from_chars};
use vstd::prelude::*;
use vstd::utf8::is_scalar;

verus! {

/// Whether the text `a` stands before the text `b` or is the same: texts are
/// compared character by character, by the numbers of the characters, and a
/// text stands before every longer text that begins with it.
pub open spec fn text_le(a: Seq<char>, b: Seq<char>) -> bool
    decreases a.len(),
{
    if a.len() == 0 {
        true
    } else if b.len() == 0 {
        false
    } else if a[0] != b[0] {
        (a[0] as u32) < (b[0] as u32)
    } else {
        text_le(a.drop_first(), b.drop_first())
    }
}

/// `slice::sort` of std on strings: afterwards the vector holds the strings
/// that it held, each as often as before, in the order of `text_le`.
#[verifier::external_body]
pub(crate) fn sort_strings(names: &mut Vec<String>)
    ensures
        strings_view(final(names)@).to_multiset() == strings_view(old(names)@).to_multiset(),
        forall|i: int, j: int|
            0 <= i <= j < final(names)@.len() ==> text_le(
                #[trigger] final(names)@[i]@,
                #[trigger] final(names)@[j]@,
            ),
{
    names.sort();
}

/// An interactive session: names that are bound, and the commands that can
/// be given.
pub struct Repl<X: ExternalStage> {
    pub state: ParserState<X>,
    pub cmds: Vec<(String, ReplCommand)>,
}

/// The place of the first command with the given name, if there is one.
pub open spec fn command_at(cmds: Seq<(String, ReplCommand)>, name: Seq<char>) -> Option<int>
    decreases cmds.len(),
{
    if cmds.len() == 0 {
        None
    } else {
        match command_at(cmds.drop_last(), name) {
            Some(i) => Some(i),
            None => if cmds.last().0@ == name {
                Some(cmds.len() - 1)
            } else {
                None
            },
        }
    }
}

/// A name that is found among the first commands is found there among all.
pub proof fn lemma_command_at_prefix(cmds: Seq<(String, ReplCommand)>, name: Seq<char>, n: int)
    requires
        0 <= n <= cmds.len(),
        command_at(cmds.subrange(0, n), name).is_some(),
    ensures
        command_at(cmds, name) == command_at(cmds.subrange(0, n), name),
    decreases cmds.len() - n,
{
    if n < cmds.len() {
        assert(cmds.subrange(0, n + 1).drop_last() =~= cmds.subrange(0, n));
        lemma_command_at_prefix(cmds, name, n + 1);
    } else {
        assert(cmds.subrange(0, n) =~= cmds);
    }
}

/// The help text of the first `n` commands: for each its name, a line break,
/// a tab, what it does, and a line break.
pub open spec fn help_text(cmds: Seq<(String, ReplCommand)>, n: nat) -> Seq<char>
    decreases n,
{
    if n == 0 || n > cmds.len() {
        Seq::empty()
    } else {
        help_text(cmds, (n - 1) as nat) + cmds[n - 1].0@ + seq!['\n', '\t'] + command_text(
            cmds[n - 1].1,
        ) + seq!['\n']
    }
}

/// What a command does, for the help text.
pub open spec fn command_text(cmd: ReplCommand) -> Seq<char> {
    match cmd {
        ReplCommand::PrintHelp => "Prints help"@,
        ReplCommand::Eval => "Evaluates a transducer"@,
        ReplCommand::Ls => "Lists all defined transducers"@,
        ReplCommand::Funcs => "Lists all external functions"@,
        ReplCommand::Unset => "Removes a previously defined transducer"@,
        ReplCommand::UnsetAll => "Removes all defined transducers"@,
    }
}

/// The argument that a word of a command line gives: a word with an equals
/// sign in it, but not at its start, is a key and a value, any other a value.
pub open spec fn first_equals(w: Seq<A>, n: int) -> int
    decreases n,
{
    if n <= 0 {
        0
    } else {
        let before = first_equals(w, n - 1);
        if before < n - 1 {
            before
        } else if w[n - 1] == 0x3D {
            n - 1
        } else {
            n
        }
    }
}

/// An equals sign that was found first stays the first.
pub proof fn lemma_first_equals(w: Seq<A>, h: int, n: int)
    requires
        0 <= h <= n <= w.len(),
        first_equals(w, h) == h,
        h < w.len() ==> w[h] == 0x3D,
        h == w.len() || n > h,
    ensures
        first_equals(w, n) == h,
    decreases n - h,
{
    if n > h {
        if n - 1 > h {
            lemma_first_equals(w, h, n - 1);
        }
    }
}

/// What running a command with its arguments makes of the session, and
/// what it returns to be shown. `funcs` lists the external functions and
/// `ls` the names that are bound, in order; `unset` frees a name and
/// `unset_all` all of them; `eval` gives what the transducer that is bound
/// to a name gives for an input, after its ranged graph was made; `?`
/// describes one command or all of them. Arguments that a command cannot
/// take, and a name that is not bound, are errors.
pub open spec fn ran<X: ExternalStage>(
    cmd: ReplCommand,
    args: Seq<ArgView>,
    before: Repl<X>,
    after: Repl<X>,
    r: Result<Option<String>, CompErr>,
) -> bool {
    &&& (cmd == ReplCommand::Funcs ==> r.is_ok() && r.unwrap().is_some() && r.unwrap().unwrap()@
        == list_text(strings_view(before.state.external_functions@)) && after.state == before.state)
    &&& (cmd == ReplCommand::UnsetAll ==> r == Ok::<Option<String>, CompErr>(None) && after.state.variables@.len() == 0)
    &&& (cmd == ReplCommand::Unset ==> if args.len() == 1 && args[0] is Value {
        match variable_at(before.state.variables@, args[0]->Value_0) {
            Some(i) => r == Ok::<Option<String>, CompErr>(None) && after.state.variables@ == before.state.variables@.remove(i),
            None => (r matches Err(CompErr::NonexistentTransducer(n)) && n@
                == args[0]->Value_0) && after.state.variables == before.state.variables,
        }
    } else {
        (r matches Err(CompErr::IncorrectCommandArguments(m)) && m@ == "Expected "@
            + "ID"@) && after.state == before.state
    })
    &&& (cmd == ReplCommand::Eval ==> if args.len() == 2 && args[0] is Value
        && args[1] is Value {
        match variable_at(before.state.variables@, args[0]->Value_0) {
            Some(i) => r.is_ok() && r.unwrap().is_some()
                && after.state.variables@.len() == before.state.variables@.len()
                && after.state.variables@[i].r.is_some() && match evaluate(
                after.state.variables@[i].r.unwrap()@,
                symbols_of(args[1]->Value_0),
            ) {
                Some(out) => symbols_of(r.unwrap().unwrap()@) == out,
                None => r.unwrap().unwrap()@ == "No match!"@,
            },
            None => r matches Err(CompErr::NonexistentTransducer(n)) && n@
                == args[0]->Value_0,
        }
    } else {
        r matches Err(CompErr::IncorrectCommandArguments(m)) && m@ == "Expected "@ + "ID"@
            + " and "@ + "INPUT"@
    })
    &&& (cmd == ReplCommand::Ls ==> r.is_ok() && r.unwrap().is_some() && after.state
        == before.state && exists|names: Seq<String>|
        {
            &&& #[trigger] list_text(strings_view(names)) == r.unwrap().unwrap()@
            &&& names.len() == before.state.variables@.len()
            &&& strings_view(names).to_multiset() == Seq::new(
                names.len(),
                |i: int| before.state.variables@[i].name@,
            ).to_multiset()
            &&& forall|i: int, j: int|
                0 <= i <= j < names.len() ==> text_le(
                    #[trigger] names[i]@,
                    #[trigger] names[j]@,
                )
        })
    &&& (cmd == ReplCommand::PrintHelp ==> if args.len() == 0 {
        r.is_ok() && r.unwrap().is_some() && r.unwrap().unwrap()@ == help_text(
            before.cmds@,
            before.cmds@.len(),
        )
    } else if args.len() == 1 && args[0] is Value {
        r.is_ok() && r.unwrap().is_some() && r.unwrap().unwrap()@ == match command_at(
            before.cmds@,
            args[0]->Value_0,
        ) {
            Some(i) => args[0]->Value_0 + seq!['\n', '\t'] + command_text(
                before.cmds@[i].1,
            ),
            None => "No such command!"@,
        }
    } else {
        r matches Err(CompErr::IncorrectCommandArguments(m)) && m@ == "Expected "@ + "CMD"@
            + " or nothing"@
    })
}

impl<X: ExternalStage> Repl<X> {
    /// The session without names and without commands, in which the
    /// external functions of the library are known.
    pub fn new() -> (r: Self)
        ensures
            r.state.wf(),
            r.state.variables@.len() == 0,
            r.state.pipelines@.len() == 0,
            r.state.external_functions@.len() == 2,
            r.state.external_functions@[0]@ == "ostiaCompress"@,
            r.state.external_functions@[1]@ == "activeLearningFromDataset"@,
            r.cmds@.len() == 0,
    {
        Repl { state: ParserState::new_with_standard_library(), cmds: Vec::new() }
    }

    /// The session without names, in which the external functions of the
    /// library are known, with the commands of the library: `?`, `eval`,
    /// `ls`, `funcs`, `unset` and `unset_all`.
    pub fn new_with_standard_commands() -> (r: Self)
        ensures
            r.state.wf(),
            r.state.variables@.len() == 0,
            r.state.pipelines@.len() == 0,
            r.state.external_functions@.len() == 2,
            r.state.external_functions@[0]@ == "ostiaCompress"@,
            r.state.external_functions@[1]@ == "activeLearningFromDataset"@,
            r.cmds@.len() == 6,
            r.cmds@[0].0@ == "?"@ && r.cmds@[0].1 == ReplCommand::PrintHelp,
            r.cmds@[1].0@ == "eval"@ && r.cmds@[1].1 == ReplCommand::Eval,
            r.cmds@[2].0@ == "ls"@ && r.cmds@[2].1 == ReplCommand::Ls,
            r.cmds@[3].0@ == "funcs"@ && r.cmds@[3].1 == ReplCommand::Funcs,
            r.cmds@[4].0@ == "unset"@ && r.cmds@[4].1 == ReplCommand::Unset,
            r.cmds@[5].0@ == "unset_all"@ && r.cmds@[5].1 == ReplCommand::UnsetAll,
    {
        let mut me = Self::new();
        me.attach_standard_commands();
        me
    }

    /// Makes a command known under a name.
    pub fn attach_cmd(&mut self, name: String, cmd: ReplCommand)
        ensures
            final(self).state == old(self).state,
            final(self).cmds@ == old(self).cmds@.push((name, cmd)),
    {
        self.cmds.push((name, cmd));
    }

    /// Makes the commands of the library known: `?`, `eval`, `ls`, `funcs`,
    /// `unset` and `unset_all`.
    pub fn attach_standard_commands(&mut self)
        ensures
            final(self).state == old(self).state,
            final(self).cmds@.len() == old(self).cmds@.len() + 6,
            final(self).cmds@.subrange(0, old(self).cmds@.len() as int) == old(self).cmds@,
            final(self).cmds@[old(self).cmds@.len() as int].0@ == "?"@,
            final(self).cmds@[old(self).cmds@.len() as int].1 == ReplCommand::PrintHelp,
            final(self).cmds@[old(self).cmds@.len() as int + 1].0@ == "eval"@,
            final(self).cmds@[old(self).cmds@.len() as int + 1].1 == ReplCommand::Eval,
            final(self).cmds@[old(self).cmds@.len() as int + 2].0@ == "ls"@,
            final(self).cmds@[old(self).cmds@.len() as int + 2].1 == ReplCommand::Ls,
            final(self).cmds@[old(self).cmds@.len() as int + 3].0@ == "funcs"@,
            final(self).cmds@[old(self).cmds@.len() as int + 3].1 == ReplCommand::Funcs,
            final(self).cmds@[old(self).cmds@.len() as int + 4].0@ == "unset"@,
            final(self).cmds@[old(self).cmds@.len() as int + 4].1 == ReplCommand::Unset,
            final(self).cmds@[old(self).cmds@.len() as int + 5].0@ == "unset_all"@,
            final(self).cmds@[old(self).cmds@.len() as int + 5].1 == ReplCommand::UnsetAll,
    {
        self.cmds.push(("?".to_owned(), ReplCommand::PrintHelp));
        self.cmds.push(("eval".to_owned(), ReplCommand::Eval));
        self.cmds.push(("ls".to_owned(), ReplCommand::Ls));
        self.cmds.push(("funcs".to_owned(), ReplCommand::Funcs));
        self.cmds.push(("unset".to_owned(), ReplCommand::Unset));
        self.cmds.push(("unset_all".to_owned(), ReplCommand::UnsetAll));
        assert(self.cmds@.subrange(0, old(self).cmds@.len() as int) =~= old(self).cmds@);
    }

    /// The command that is known under the name.
    pub fn get_cmd(&self, name: &String) -> (r: Option<ReplCommand>)
        ensures
            match command_at(self.cmds@, name@) {
                Some(i) => r == Some(self.cmds@[i].1),
                None => r.is_none(),
            },
    {
        let mut i: usize = 0;
        while i < self.cmds.len()
            invariant
                i <= self.cmds.len(),
                command_at(self.cmds@.subrange(0, i as int), name@).is_none(),
            decreases self.cmds.len() - i,
        {
            let found = self.cmds[i].0.eq(name);
            proof {
                assert(self.cmds@.subrange(0, i + 1).drop_last() =~= self.cmds@.subrange(
                    0,
                    i as int,
                ));
                assert(self.cmds@.subrange(0, i + 1).last() == self.cmds@[i as int]);
            }
            if found {
                proof {
                    lemma_command_at_prefix(self.cmds@, name@, i + 1);
                }
                return Some(self.cmds[i].1);
            }
            i = i + 1;
        }
        assert(self.cmds@.subrange(0, i as int) =~= self.cmds@);
        None
    }

    /// The commands that are known, each with its name.
    pub fn iter_cmds(&self) -> (r: &Vec<(String, ReplCommand)>)
        ensures
            *r == self.cmds,
    {
        &self.cmds
    }

    pub fn state(&self) -> (r: &ParserState<X>)
        ensures
            *r == self.state,
    {
        &self.state
    }

    pub fn state_mut(&mut self) -> (r: &mut ParserState<X>)
        ensures
            *r == old(self).state,
            final(self).state == *final(r),
            final(self).cmds == old(self).cmds,
    {
        &mut self.state
    }

    /// Frees every name of a transducer.
    pub fn delete_all(&mut self)
        ensures
            final(self).state.variables@.len() == 0,
            final(self).cmds == old(self).cmds,
    {
        self.state.delete_all()
    }

    /// What the transducer that is bound to the name gives for the input:
    /// its ranged graph is made, unless it was made before, and evaluated. A
    /// name that is not bound is an error.
    pub fn eval(&mut self, name: &String, input: &str) -> (r: Result<Option<IntSeq>, ()>)
        requires
            old(self).state.wf(),
        ensures
            final(self).state.wf(),
            final(self).cmds == old(self).cmds,
            final(self).state.variables@.len() == old(self).state.variables@.len(),
            match variable_at(old(self).state.variables@, name@) {
                None => r.is_err(),
                Some(i) => r.is_ok() && final(self).state.variables@[i].g == old(self).state.variables@[i].g && final(self).state.variables@[i].r.is_some()
                    && match evaluate(
                    final(self).state.variables@[i].r.unwrap()@,
                    symbols_of(input@),
                ) {
                    Some(out) => r.unwrap().is_some() && r.unwrap().unwrap().symbols() == out,
                    None => r.unwrap().is_none(),
                },
            },
    {
        let ghost before = self.state.variables@;
        proof {
            crate::parser_state::lemma_variable_at(before, name@);
        }
        if !self.state.optimise(name) {
            Err(())
        } else {
            proof {
                crate::parser_state::lemma_variable_at_same_names(
                    before,
                    self.state.variables@,
                    name@,
                );
            }
            match self.state.get_optimised(name) {
                Some(rg) => Ok(rg.evaluate_to_int_seq(input)),
                None => Err(()),
            }
        }
    }

    /// The text of the help for the commands that are known.
    pub fn help(&self) -> (r: String)
        ensures
            r@ == help_text(self.cmds@, self.cmds@.len()),
    {
        let mut out: Vec<char> = Vec::new();
        let mut i: usize = 0;
        while i < self.cmds.len()
            invariant
                i <= self.cmds.len(),
                out@ == help_text(self.cmds@, i as nat),
            decreases self.cmds.len() - i,
        {
            let ghost before = out@;
            push_str(self.cmds[i].0.as_str(), &mut out);
            out.push('\n');
            out.push('\t');
            push_str(self.cmds[i].1.description(), &mut out);
            out.push('\n');
            assert(out@ =~= before + self.cmds@[i as int].0@ + seq!['\n', '\t'] + command_text(
                self.cmds@[i as int].1,
            ) + seq!['\n']);
            i = i + 1;
        }
        string_from_chars(out.as_slice())
    }

    /// Runs a command with its arguments and returns what is to be shown;
    /// see `ran`.
    pub fn run(&mut self, cmd: ReplCommand, args: Vec<ReplArg>) -> (r: Result<
        Option<String>,
        CompErr,
    >)
        requires
            old(self).state.wf(),
        ensures
            final(self).state.wf(),
            final(self).cmds == old(self).cmds,
            ran(cmd, args_view(args@), *old(self), *final(self), r),
    {
        match cmd {
            ReplCommand::Funcs => Ok(Some(format_list(self.state.iter_functions()))),
            ReplCommand::UnsetAll => {
                self.state.delete_all();
                assert(self.state.wf());
                Ok(None)
            },
            ReplCommand::Unset => {
                let name = match args_to_value(args, "ID") {
                    Ok(name) => name,
                    Err(e) => {
                        return Err(e);
                    },
                };
                if !self.state.delete_variable(name.clone()) {
                    Err(CompErr::NonexistentTransducer(name))
                } else {
                    Ok(None)
                }
            },
            ReplCommand::Eval => {
                let (name, input) = match args_to_value_value(args, "ID", "INPUT") {
                    Ok(x) => x,
                    Err(e) => {
                        return Err(e);
                    },
                };
                match self.eval(&name, input.as_str()) {
                    Ok(out) => Ok(
                        Some(
                            match out {
                                Some(v) => v.as_str().to_owned(),
                                None => "No match!".to_owned(),
                            },
                        ),
                    ),
                    Err(()) => Err(CompErr::NonexistentTransducer(name)),
                }
            },
            ReplCommand::Ls => {
                let mut names = self.state.iter_variables();
                let ghost unsorted = names@;
                sort_strings(&mut names);
                proof {
                    assert(strings_view(unsorted) =~= Seq::new(
                        unsorted.len(),
                        |i: int| self.state.variables@[i].name@,
                    ));
                    vstd::seq_lib::lemma_multiset_commutative(strings_view(names@), Seq::empty());
                    strings_view(names@).to_multiset_ensures();
                    strings_view(unsorted).to_multiset_ensures();
                }
                let text = format_list(&names);
                Ok(Some(text))
            },
            ReplCommand::PrintHelp => {
                match args_to_optional_value(args, "CMD") {
                    Err(e) => Err(e),
                    Ok(Some(name)) => {
                        match self.get_cmd(&name) {
                            Some(c) => {
                                let mut middle: Vec<char> = Vec::new();
                                middle.push('\n');
                                middle.push('\t');
                                let text = message(name.as_str(), &middle, c.description());
                                assert(text@ =~= name@ + seq!['\n', '\t'] + command_text(c));
                                Ok(Some(text))
                            },
                            None => Ok(Some("No such command!".to_owned())),
                        }
                    },
                    Ok(None) => Ok(Some(self.help())),
                }
            },
        }
    }

    /// Runs the command that is known under the name; see `ran`. A name
    /// under which no command is known is an error.
    pub fn repl_cmd(&mut self, name: String, args: Vec<ReplArg>) -> (r: Result<
        Option<String>,
        CompErr,
    >)
        requires
            old(self).state.wf(),
        ensures
            final(self).state.wf(),
            final(self).cmds == old(self).cmds,
            match command_at(old(self).cmds@, name@) {
                Some(i) => ran(
                    old(self).cmds@[i].1,
                    args_view(args@),
                    *old(self),
                    *final(self),
                    r,
                ),
                None => (r matches Err(CompErr::UnrecognisedCommand(n)) && n@ == name@)
                    && final(self).state == old(self).state,
            },
    {
        match self.get_cmd(&name) {
            Some(cmd) => self.run(cmd, args),
            None => Err(CompErr::UnrecognisedCommand(name)),
        }
    }
}


/// What a line of the session asks for.
pub enum ReplLine {
    /// A statement of the source language, to be read by the parser.
    Statement(String),
    /// The command with this name and these arguments.
    Command(String, Vec<ReplArg>),
}

/// What is to be done after a line of the session was taken up.
pub enum ReplStep {
    /// This is to be shown, if it is anything.
    Output(Option<String>),
    /// This statement of the source language is to be read by the parser.
    Statement(String),
}

/// Whether `r` hands on what the command returned: what is to be shown, or
/// the error.
pub open spec fn shown(out: Result<Option<String>, CompErr>, r: Result<ReplStep, CompErr>) -> bool {
    match out {
        Ok(o) => r matches Ok(ReplStep::Output(x)) && x == o,
        Err(e) => r matches Err(x) && x == e,
    }
}

/// What the words of a command line behind the name give as arguments.
pub open spec fn word_is_key_value(w: Seq<A>) -> bool {
    0 < first_equals(w, w.len() as int) < w.len()
}

/// The argument that a word of a command line gives: a word with an equals
/// sign in it, but not at its start or its end, gives the key before the
/// first equals sign and the value behind it; any other word is a value.
pub open spec fn arg_of(w: Seq<A>) -> ArgView {
    if word_is_key_value(w) {
        ArgView::KeyValue(
            chars_of_symbols(w.subrange(0, first_equals(w, w.len() as int))),
            chars_of_symbols(w.subrange(first_equals(w, w.len() as int) + 1, w.len() as int)),
        )
    } else {
        ArgView::Value(chars_of_symbols(w))
    }
}

/// The arguments that the words of a command line behind the first give.
pub open spec fn line_args(ws: Seq<Seq<A>>) -> Seq<ArgView> {
    Seq::new((ws.len() - 1) as nat, |k: int| arg_of(ws[k + 1]))
}

/// Reads one argument of a command line; see `arg_of`.
pub fn parse_arg(w: &[A]) -> (r: ReplArg)
    requires
        word_scalar(w@),
    ensures
        r@ == arg_of(w@),
        word_is_key_value(w@) ==> r is KeyValue && r->KeyValue_0@ == chars_of_symbols(
            w@.subrange(0, first_equals(w@, w@.len() as int)),
        ) && r->KeyValue_1@ == chars_of_symbols(
            w@.subrange(first_equals(w@, w@.len() as int) + 1, w@.len() as int),
        ),
        !word_is_key_value(w@) ==> r is Value && r->Value_0@ == chars_of_symbols(w@),
{
    let n = w.len();
    let mut h: usize = 0;
    while h < n && w[h] != 0x3D
        invariant
            h <= n,
            n == w@.len(),
            first_equals(w@, h as int) == h,
        decreases n - h,
    {
        h = h + 1;
    }
    proof {
        lemma_first_equals(w@, h as int, n as int);
    }
    if 0 < h && h < n {
        let left = vstd::slice::slice_subrange(w, 0, h);
        let right = vstd::slice::slice_subrange(w, h + 1, n);
        let key = symbols_to_chars(left);
        let value = symbols_to_chars(right);
        ReplArg::KeyValue(string_from_chars(key.as_slice()), string_from_chars(value.as_slice()))
    } else {
        let value = symbols_to_chars(w);
        ReplArg::Value(string_from_chars(value.as_slice()))
    }
}

/// Takes a line of the session apart. A line that does not begin with a slash
/// is a statement, and so is what stands behind a slash that is followed by
/// white space or by nothing. Of any other line the first word, without the
/// slash, is the name of a command, and the words behind it are its arguments.
pub fn parse_line(line: &str) -> (r: ReplLine)
    ensures
        symbols_of(line@).len() == 0 || symbols_of(line@)[0] != 0x2F ==> r is Statement
            && r->Statement_0@ == line@,
        symbols_of(line@).len() > 0 && symbols_of(line@)[0] == 0x2F ==> {
            let rest = symbols_of(line@).subrange(1, symbols_of(line@).len() as int);
            let ws = words(symbols_of(line@));
            if rest.len() == 0 || crate::parser_utils::is_space(rest[0]) {
                r is Statement && r->Statement_0@ == chars_of_symbols(rest)
            } else {
                r is Command && ws.len() >= 1 && r->Command_0@ == chars_of_symbols(
                    ws[0].subrange(1, ws[0].len() as int),
                ) && r->Command_1@.len() == ws.len() - 1 && args_view(r->Command_1@)
                    == line_args(ws)
            }
        },
{
    let symbols = symbols_of_str(line);
    let n = symbols.len();
    if n == 0 || symbols[0] != 0x2F {
        return ReplLine::Statement(line.to_owned());
    }
    let c = if n > 1 {
        symbols[1]
    } else {
        0x20
    };
    let space = (0x09 <= c && c <= 0x0D) || c == 0x20 || c == 0x85 || c == 0xA0 || c == 0x1680
        || (0x2000 <= c && c <= 0x200A) || c == 0x2028 || c == 0x2029 || c == 0x202F || c
        == 0x205F || c == 0x3000;
    if n == 1 || space {
        let rest = vstd::slice::slice_subrange(symbols.as_slice(), 1, n);
        let text = symbols_to_chars(rest);
        return ReplLine::Statement(string_from_chars(text.as_slice()));
    }
    let tokens = split_whitespace(symbols.as_slice());
    proof {
        crate::parser_utils::lemma_words_scalars(symbols@);
        lemma_words_first(symbols@, n as int);
    }
    let ghost ws = words(symbols@);
    let first = tokens[0].as_slice();
    assert(first@ == ws[0]);
    let name_symbols = vstd::slice::slice_subrange(first, 1, first.len());
    proof {
        assert forall|i: int| 0 <= i < name_symbols@.len() implies is_scalar(
            #[trigger] name_symbols@[i],
        ) by {
            assert(ws[0][i + 1] == name_symbols@[i]);
        }
    }
    let name = symbols_to_chars(name_symbols);
    let mut args: Vec<ReplArg> = Vec::new();
    let mut i: usize = 1;
    while i < tokens.len()
        invariant
            1 <= i <= tokens.len(),
            ws == words_view(tokens@),
            words_scalar(ws),
            args@.len() == i - 1,
            forall|k: int| 0 <= k < i - 1 ==> (#[trigger] args@[k])@ == arg_of(ws[k + 1]),
        decreases tokens.len() - i,
    {
        proof {
            assert forall|x: int| 0 <= x < tokens@[i as int]@.len() implies is_scalar(
                #[trigger] tokens@[i as int]@[x],
            ) by {
                assert(ws[i as int][x] == tokens@[i as int]@[x]);
            }
        }
        let ghost before = args@;
        let arg = parse_arg(tokens[i].as_slice());
        args.push(arg);
        proof {
            assert(tokens@[i as int]@ == ws[i as int]);
            assert forall|k: int| 0 <= k < i implies (#[trigger] args@[k])@ == arg_of(
                ws[k + 1],
            ) by {
                if k < i - 1 {
                    assert(args@[k] == before[k]);
                }
            }
        }
        i = i + 1;
    }
    assert(args_view(args@) =~= line_args(ws));
    ReplLine::Command(string_from_chars(name.as_slice()), args)
}

/// A text that begins with a symbol that is no white space has a first word,
/// which begins with that symbol.
pub proof fn lemma_words_first(s: Seq<A>, n: int)
    requires
        1 <= n <= s.len(),
        !crate::parser_utils::is_space(s[0]),
    ensures
        ({
            let (done, current) = crate::parser_utils::words_state(s.subrange(0, n));
            if done.len() > 0 {
                done[0].len() > 0 && done[0][0] == s[0]
            } else {
                current.len() > 0 && current[0] == s[0]
            }
        }),
        n == s.len() ==> words(s).len() >= 1 && words(s)[0].len() >= 1 && words(s)[0][0] == s[0],
    decreases n,
{
    let here = s.subrange(0, n);
    if n == 1 {
        assert(here.drop_last() =~= Seq::<A>::empty());
        assert(here.last() == s[0]);
        let (d0, c0) = crate::parser_utils::words_state(here.drop_last());
        assert(d0.len() == 0 && c0.len() == 0);
    } else {
        lemma_words_first(s, n - 1);
        assert(here.drop_last() =~= s.subrange(0, n - 1));
    }
    if n == s.len() {
        assert(here =~= s);
    }
}

impl<X: ExternalStage> Repl<X> {
    /// Takes up a line of the session: a statement is handed back for the
    /// parser, and a command is run with the arguments that the words of the
    /// line give; see `parse_line`, `line_args` and `ran`.
    pub fn repl(&mut self, line: &str) -> (r: Result<ReplStep, CompErr>)
        requires
            old(self).state.wf(),
        ensures
            final(self).state.wf(),
            final(self).cmds == old(self).cmds,
            symbols_of(line@).len() == 0 || symbols_of(line@)[0] != 0x2F ==> (r matches Ok(
                ReplStep::Statement(s),
            ) && s@ == line@) && final(self).state == old(self).state,
            symbols_of(line@).len() > 0 && symbols_of(line@)[0] == 0x2F ==> {
                let rest = symbols_of(line@).subrange(1, symbols_of(line@).len() as int);
                let ws = words(symbols_of(line@));
                if rest.len() == 0 || crate::parser_utils::is_space(rest[0]) {
                    (r matches Ok(ReplStep::Statement(s)) && s@ == chars_of_symbols(rest))
                        && final(self).state == old(self).state
                } else {
                    match command_at(
                        old(self).cmds@,
                        chars_of_symbols(ws[0].subrange(1, ws[0].len() as int)),
                    ) {
                        Some(i) => exists|out: Result<Option<String>, CompErr>|
                            ran(old(self).cmds@[i].1, line_args(ws), *old(self), *final(self), out)
                                && #[trigger] shown(out, r),
                        None => (r matches Err(CompErr::UnrecognisedCommand(n)) && n@
                            == chars_of_symbols(ws[0].subrange(1, ws[0].len() as int)))
                            && final(self).state == old(self).state,
                    }
                }
            },
    {
        match parse_line(line) {
            ReplLine::Statement(s) => Ok(ReplStep::Statement(s)),
            ReplLine::Command(name, args) => {
                let out = self.repl_cmd(name, args);
                let ghost ran_out = out;
                let r = match out {
                    Ok(o) => Ok(ReplStep::Output(o)),
                    Err(e) => Err(e),
                };
                proof {
                    assert(shown(ran_out, r));
                }
                r
            },
        }
    }
}


impl<X: ExternalStage + Copy> Repl<X> {
    /// Reads the source text and carries out its statements in turn, up to
    /// the first that fails; see `source_run`. A call that learns from a
    /// dataset takes the lines from `datasets`.
    pub fn parse(&mut self, source: &str, datasets: &Vec<Dataset>) -> (r: Result<(), CompErr>)
        requires
            old(self).state.wf(),
        ensures
            final(self).state.wf(),
            final(self).cmds == old(self).cmds,
            final(self).state.external_functions == old(self).state.external_functions,
            source_run(source@, datasets@, old(self).state, final(self).state, r),
    {
        run_source(source, &mut self.state, datasets)
    }

    /// The session without commands that goes on where the compiler stands:
    /// with the names that are bound in it.
    pub fn from(solomonoff: Solomonoff<X>) -> (r: Self)
        ensures
            r.state == solomonoff.state,
            r.cmds@.len() == 0,
    {
        Repl { state: solomonoff.state, cmds: Vec::new() }
    }

    /// The transducer that is bound to the name.
    pub fn get(&self, name: &String) -> (r: Option<&G>)
        ensures
            match variable_at(self.state.variables@, name@) {
                Some(i) => r.is_some() && 0 <= i < self.state.variables@.len() && *r.unwrap()
                    == self.state.variables@[i].g,
                None => r.is_none(),
            },
            self.state.wf() && r.is_some() ==> r.unwrap()@.wf() && r.unwrap()@.nodes.len()
                < usize::MAX,
    {
        match self.state.borrow_variable(name) {
            Some((_, _, g)) => Some(g),
            None => None,
        }
    }
}

} // verus!
