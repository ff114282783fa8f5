//! Rules that say which separators stand for the calls of named functions
//! and for their arguments in the checked text.

use vstd::prelude::*;
use crate::table::Table;

verus! {

/// What is put around a call of a function and behind each of its block
/// arguments.
#[derive(Clone, Debug, PartialEq, Eq)]
pub struct Function {
    pub before: String,
    pub after: String,
    pub after_argument: String,
}

/// What is put around a named argument.
#[derive(Clone, Debug, PartialEq, Eq)]
pub struct Argument {
    pub before: String,
    pub after: String,
}

/// Mathematical counterpart of [`Function`].
pub ghost struct FunctionView {
    pub before: Seq<char>,
    pub after: Seq<char>,
    pub after_argument: Seq<char>,
}

/// Mathematical counterpart of [`Argument`].
pub ghost struct ArgumentView {
    pub before: Seq<char>,
    pub after: Seq<char>,
}

impl View for Function {
    type V = FunctionView;

    open spec fn view(&self) -> FunctionView {
        FunctionView {
            before: self.before@,
            after: self.after@,
            after_argument: self.after_argument@,
        }
    }
}

impl View for Argument {
    type V = ArgumentView;

    open spec fn view(&self) -> ArgumentView {
        ArgumentView { before: self.before@, after: self.after@ }
    }
}

/// The rules for functions and for named arguments, each by name.
#[derive(Debug)]
pub struct Rules {
    pub functions: Table<Function>,
    pub arguments: Table<Argument>,
}

/// Mathematical counterpart of [`Rules`].
pub ghost struct RulesView {
    pub functions: Map<Seq<char>, FunctionView>,
    pub arguments: Map<Seq<char>, ArgumentView>,
}

impl View for Rules {
    type V = RulesView;

    open spec fn view(&self) -> RulesView {
        RulesView {
            functions: self.functions@.map_values(|f: Function| f@),
            arguments: self.arguments@.map_values(|a: Argument| a@),
        }
    }
}

/// A line feed.
pub open spec fn line_feed() -> Seq<char> {
    seq!['\n']
}

/// Two line feeds: what parts paragraphs.
pub open spec fn paragraph_feed() -> Seq<char> {
    seq!['\n', '\n']
}

/// The rule that ends each block argument with a line feed.
pub open spec fn row_rule() -> FunctionView {
    FunctionView { before: Seq::empty(), after: Seq::empty(), after_argument: line_feed() }
}

/// The rule that puts a line feed before and after a call.
pub open spec fn cell_rule() -> FunctionView {
    FunctionView { before: line_feed(), after: line_feed(), after_argument: Seq::empty() }
}

/// The rule that sets an argument apart as a paragraph of its own.
pub open spec fn paragraph_rule() -> ArgumentView {
    ArgumentView { before: paragraph_feed(), after: paragraph_feed() }
}

/// The rules that hold unless others are given: the arguments of `grid`,
/// `table` and `header` each end a line, a `cell` is a line of its own, and
/// a `caption` is a paragraph of its own.
pub open spec fn default_rules() -> RulesView {
    RulesView {
        functions: Map::empty().insert("grid"@, row_rule()).insert("table"@, row_rule()).insert(
            "header"@,
            row_rule(),
        ).insert("cell"@, cell_rule()),
        arguments: Map::empty().insert("caption"@, paragraph_rule()),
    }
}

/// A rule for a function.
fn function_rule(before: &str, after: &str, after_argument: &str) -> (rule: Function)
    ensures
        rule@ == (FunctionView {
            before: before@,
            after: after@,
            after_argument: after_argument@,
        }),
{
    Function {
        before: before.to_owned(),
        after: after.to_owned(),
        after_argument: after_argument.to_owned(),
    }
}

impl Rules {
    /// The rules that hold unless others are given.
    pub fn new() -> (rules: Rules)
        ensures
            rules@ == default_rules(),
    {
        proof {
            reveal_strlit("");
            reveal_strlit("\n");
            reveal_strlit("\n\n");
        }
        let mut functions: Table<Function> = Table::new();
        functions.insert("grid".to_owned(), function_rule("", "", "\n"));
        functions.insert("table".to_owned(), function_rule("", "", "\n"));
        functions.insert("header".to_owned(), function_rule("", "", "\n"));
        functions.insert("cell".to_owned(), function_rule("\n", "\n", ""));
        let mut arguments: Table<Argument> = Table::new();
        arguments.insert(
            "caption".to_owned(),
            Argument { before: "\n\n".to_owned(), after: "\n\n".to_owned() },
        );
        let rules = Rules { functions, arguments };
        proof {
            assert(""@ =~= Seq::<char>::empty());
            assert("\n"@ =~= line_feed());
            assert("\n\n"@ =~= paragraph_feed());
            assert(rules@.functions =~= default_rules().functions);
            assert(rules@.arguments =~= default_rules().arguments);
        }
        rules
    }

    /// The rule for calls of the function `name`, if there is one.
    pub fn function(&self, name: &str) -> (rule: Option<&Function>)
        ensures
            rule is Some <==> self@.functions.contains_key(name@),
            rule is Some ==> rule->0@ == self@.functions[name@],
    {
        self.functions.get(name)
    }

    /// The rule for arguments with the name `name`, if there is one.
    pub fn argument(&self, name: &str) -> (rule: Option<&Argument>)
        ensures
            rule is Some <==> self@.arguments.contains_key(name@),
            rule is Some ==> rule->0@ == self@.arguments[name@],
    {
        self.arguments.get(name)
    }
}

impl Default for Rules {
    fn default() -> (rules: Rules)
        ensures
            rules@ == default_rules(),
    {
        Rules::new()
    }
}

} // verus!
