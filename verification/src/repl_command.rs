use crate::compilation_error::CompErr;
use crate::parser_utils::{chars_of, message};
use crate::text::{push_str, string_from_chars};
use vstd::prelude::*;

verus! {

/// An argument of a command of the interactive session.
pub enum ReplArg {
    Value(String),
    KeyValue(String, String),
}

/// What an argument of a command is.
pub enum ArgView {
    Value(Seq<char>),
    KeyValue(Seq<char>, Seq<char>),
}

impl View for ReplArg {
    type V = ArgView;

    open spec fn view(&self) -> ArgView {
        match *self {
            ReplArg::Value(v) => ArgView::Value(v@),
            ReplArg::KeyValue(k, v) => ArgView::KeyValue(k@, v@),
        }
    }
}

/// What the arguments of a command are.
pub open spec fn args_view(args: Seq<ReplArg>) -> Seq<ArgView> {
    args.map_values(|a: ReplArg| a@)
}

impl ReplArg {
    /// The value of the argument.
    pub fn get_value(self) -> (r: String)
        ensures
            r == match self {
                ReplArg::Value(v) => v,
                ReplArg::KeyValue(_, v) => v,
            },
    {
        match self {
            ReplArg::Value(v) => v,
            ReplArg::KeyValue(_, v) => v,
        }
    }

    /// The key of the argument; an argument without a key has its value for
    /// its key.
    pub fn get_key(self) -> (r: String)
        ensures
            r == match self {
                ReplArg::Value(v) => v,
                ReplArg::KeyValue(k, _) => k,
            },
    {
        match self {
            ReplArg::Value(v) => v,
            ReplArg::KeyValue(k, _) => k,
        }
    }
}

/// The two values of a command that takes two values.
pub fn args_to_value_value(args: Vec<ReplArg>, arg1: &str, arg2: &str) -> (r: Result<
    (String, String),
    CompErr,
>)
    ensures
        args@.len() == 2 && args@[0] is Value && args@[1] is Value ==> r == Ok::<
            (String, String),
            CompErr,
        >((args@[0]->Value_0, args@[1]->Value_0)),
        !(args@.len() == 2 && args@[0] is Value && args@[1] is Value) ==> (r matches Err(
            CompErr::IncorrectCommandArguments(m),
        ) && m@ == "Expected "@ + arg1@ + " and "@ + arg2@),
{
    let mut args = args;
    if args.len() == 2 {
        let second = args.pop().unwrap();
        let first = args.pop().unwrap();
        if let ReplArg::Value(v1) = first {
            if let ReplArg::Value(v2) = second {
                return Ok((v1, v2));
            }
        }
    }
    let mut text: Vec<char> = Vec::new();
    push_str(arg1, &mut text);
    push_str(" and ", &mut text);
    assert(text@ =~= arg1@ + " and "@);
    let m = message("Expected ", &text, arg2);
    assert(m@ =~= "Expected "@ + arg1@ + " and "@ + arg2@);
    Err(CompErr::IncorrectCommandArguments(m))
}

/// The one value of a command that takes one value.
pub fn args_to_value(args: Vec<ReplArg>, arg1: &str) -> (r: Result<String, CompErr>)
    ensures
        args@.len() == 1 && args@[0] is Value ==> r == Ok::<String, CompErr>(args@[0]->Value_0),
        !(args@.len() == 1 && args@[0] is Value) ==> (r matches Err(
            CompErr::IncorrectCommandArguments(m),
        ) && m@ == "Expected "@ + arg1@),
{
    let mut args = args;
    if args.len() == 1 {
        let first = args.pop().unwrap();
        if let ReplArg::Value(v) = first {
            return Ok(v);
        }
    }
    let text = chars_of(arg1);
    let m = message("Expected ", &text, "");
    proof {
        reveal_strlit("");
        assert(m@ =~= "Expected "@ + arg1@);
    }
    Err(CompErr::IncorrectCommandArguments(m))
}

/// The one value of a command that takes one value or none.
pub fn args_to_optional_value(args: Vec<ReplArg>, arg1: &str) -> (r: Result<
    Option<String>,
    CompErr,
>)
    ensures
        args@.len() == 0 ==> r == Ok::<Option<String>, CompErr>(None),
        args@.len() == 1 && args@[0] is Value ==> r == Ok::<Option<String>, CompErr>(
            Some(args@[0]->Value_0),
        ),
        !(args@.len() == 0 || (args@.len() == 1 && args@[0] is Value)) ==> (r matches Err(
            CompErr::IncorrectCommandArguments(m),
        ) && m@ == "Expected "@ + arg1@ + " or nothing"@),
{
    let mut args = args;
    if args.len() == 1 {
        let first = args.pop().unwrap();
        if let ReplArg::Value(v) = first {
            return Ok(Some(v));
        }
    } else if args.len() == 0 {
        return Ok(None);
    }
    let text = chars_of(arg1);
    Err(CompErr::IncorrectCommandArguments(message("Expected ", &text, " or nothing")))
}

/// A command of the interactive session.
#[derive(Debug, Clone, Copy, PartialEq, Eq, Structural)]
pub enum ReplCommand {
    PrintHelp,
    Eval,
    Ls,
    Funcs,
    Unset,
    UnsetAll,
}

impl ReplCommand {
    /// What the command does, for the help text.
    pub fn description(&self) -> (r: &'static str)
        ensures
            r@ == match *self {
                ReplCommand::PrintHelp => "Prints help"@,
                ReplCommand::Eval => "Evaluates a transducer"@,
                ReplCommand::Ls => "Lists all defined transducers"@,
                ReplCommand::Funcs => "Lists all external functions"@,
                ReplCommand::Unset => "Removes a previously defined transducer"@,
                ReplCommand::UnsetAll => "Removes all defined transducers"@,
            },
    {
        match self {
            ReplCommand::PrintHelp => "Prints help",
            ReplCommand::Eval => "Evaluates a transducer",
            ReplCommand::Ls => "Lists all defined transducers",
            ReplCommand::Funcs => "Lists all external functions",
            ReplCommand::Unset => "Removes a previously defined transducer",
            ReplCommand::UnsetAll => "Removes all defined transducers",
        }
    }
}

pub fn repl_print_help() -> (r: ReplCommand)
    ensures
        r == ReplCommand::PrintHelp,
{
    ReplCommand::PrintHelp
}

pub fn repl_eval() -> (r: ReplCommand)
    ensures
        r == ReplCommand::Eval,
{
    ReplCommand::Eval
}

pub fn repl_ls() -> (r: ReplCommand)
    ensures
        r == ReplCommand::Ls,
{
    ReplCommand::Ls
}

pub fn repl_funcs() -> (r: ReplCommand)
    ensures
        r == ReplCommand::Funcs,
{
    ReplCommand::Funcs
}

pub fn repl_unset() -> (r: ReplCommand)
    ensures
        r == ReplCommand::Unset,
{
    ReplCommand::Unset
}

pub fn repl_unset_all() -> (r: ReplCommand)
    ensures
        r == ReplCommand::UnsetAll,
{
    ReplCommand::UnsetAll
}

/// The names between square brackets, set apart by a comma and a space.
pub open spec fn listed(names: Seq<Seq<char>>, n: nat) -> Seq<char>
    decreases n,
{
    if n == 0 || n > names.len() {
        Seq::empty()
    } else if n == 1 {
        names[0]
    } else {
        listed(names, (n - 1) as nat) + seq![',', ' '] + names[n - 1]
    }
}

/// The text of a list of names: `[` and `]` around the names, which are set
/// apart by a comma and a space.
pub open spec fn list_text(names: Seq<Seq<char>>) -> Seq<char> {
    seq!['['] + listed(names, names.len()) + seq![']']
}

/// What a list of strings is.
pub open spec fn strings_view(names: Seq<String>) -> Seq<Seq<char>> {
    names.map_values(|s: String| s@)
}

/// The text of a list of names; see `list_text`.
pub fn format_list(names: &Vec<String>) -> (r: String)
    ensures
        r@ == list_text(strings_view(names@)),
{
    let ghost ns = strings_view(names@);
    let mut out: Vec<char> = Vec::new();
    out.push('[');
    let mut i: usize = 0;
    assert(out@ =~= seq!['['] + listed(ns, 0));
    while i < names.len()
        invariant
            i <= names.len(),
            ns == strings_view(names@),
            out@ == seq!['['] + listed(ns, i as nat),
        decreases names.len() - i,
    {
        let ghost before = out@;
        if i > 0 {
            out.push(',');
            out.push(' ');
        }
        push_str(names[i].as_str(), &mut out);
        proof {
            assert(ns[i as int] == names@[i as int]@);
            if i == 0 {
                assert(out@ =~= seq!['['] + listed(ns, 1));
            } else {
                assert(out@ =~= seq!['['] + (listed(ns, i as nat) + seq![',', ' '] + ns[i as int]));
            }
        }
        i = i + 1;
    }
    out.push(']');
    assert(out@ =~= list_text(ns));
    string_from_chars(out.as_slice())
}

} // verus!
