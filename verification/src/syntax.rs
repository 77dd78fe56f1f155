use vstd::prelude::*;

verus! {

/// A script: statements in the order in which they are written.
#[derive(Debug)]
pub struct Script {
    pub items: Vec<Item>,
}

/// One statement: pipelines joined by `&&` and `||`. `first` is the
/// pipeline that always runs, `rest` are the ones after it, in order.
#[derive(Debug)]
pub struct Item {
    pub first: Pipeline,
    pub rest: Vec<Pipeline>,
}

/// Commands joined by `|`.
#[derive(Debug)]
pub struct Pipeline {
    pub commands: Vec<Command>,
}

/// One command of a pipeline.
#[derive(Debug)]
pub enum Command {
    Simple(SimpleCommand),
    Compound(FullCompoundCommand),
    Function(FunctionDefinition),
}

/// A function definition: the name as it is written, and the body without
/// the redirections that may follow it.
#[derive(Debug)]
pub struct FunctionDefinition {
    pub name: String,
    pub body: CompoundCommand,
}

/// A compound command with the redirections attached to it.
#[derive(Debug)]
pub struct FullCompoundCommand {
    pub command: CompoundCommand,
    pub redirs: Vec<Redir>,
}

/// A command that holds other commands. Only the statement lists are held:
/// loop variables, `case` subjects and patterns are not audited.
#[derive(Debug)]
pub enum CompoundCommand {
    Grouping(Script),
    Subshell { body: Script },
    For { body: Script },
    While { condition: Script, body: Script },
    Until { condition: Script, body: Script },
    If { condition: Script, body: Script, elifs: Vec<ElifThen>, otherwise: Option<Script> },
    Case { items: Vec<CaseItem> },
}

/// An `elif` clause.
#[derive(Debug)]
pub struct ElifThen {
    pub condition: Script,
    pub body: Script,
}

/// One arm of a `case` command.
#[derive(Debug)]
pub struct CaseItem {
    pub body: Script,
}

/// A command made of assignments, words and redirections. `text` is the
/// command as one line of shell source.
#[derive(Debug)]
pub struct SimpleCommand {
    pub assigns: Vec<Assign>,
    pub words: Vec<Word>,
    pub redirs: Vec<Redir>,
    pub text: String,
}

/// An assignment word; only its value is audited.
#[derive(Debug)]
pub struct Assign {
    pub value: Value,
}

/// The value of an assignment.
#[derive(Debug)]
pub enum Value {
    Scalar(Word),
    Array(Vec<Word>),
}

/// A token: its units, and `text`, the token as shell source.
#[derive(Debug)]
pub struct Word {
    pub units: Vec<WordUnit>,
    pub text: String,
}

/// One unit of a word. The content of single quotes, of dollar-single quotes
/// and of a tilde expansion cannot hold an expansion and is not held.
#[derive(Debug)]
pub enum WordUnit {
    Unquoted(TextUnit),
    SingleQuote,
    DoubleQuote(Vec<TextUnit>),
    DollarSingleQuote,
    Tilde,
}

/// One unit of text that may expand.
#[derive(Debug)]
pub enum TextUnit {
    Literal,
    Backslashed,
    RawParam,
    BracedParam,
    /// `$(...)`
    CommandSubst(Substitution),
    /// `` `...` ``
    Backquote(Substitution),
    /// `$((...))`
    Arith(Vec<TextUnit>),
}

/// The script inside a command substitution, as the parser read it.
#[derive(Debug)]
pub enum Substitution {
    Parsed(Script),
    /// The parser refused the text; the field is its diagnostic.
    Invalid(String),
}

/// One character inside back quotes.
#[derive(Clone, Copy, Debug)]
pub enum BackquoteUnit {
    Literal(char),
    Backslashed(char),
}

/// The operator of a redirection that is not a here-document.
#[derive(Clone, Copy, Debug, PartialEq, Eq, Structural)]
pub enum RedirOp {
    /// `<`
    FileIn,
    /// `<>`
    FileInOut,
    /// `>`
    FileOut,
    /// `>>`
    FileAppend,
    /// `>|`
    FileClobber,
    /// `<&`
    FdIn,
    /// `>&`
    FdOut,
    /// `>>|`
    Pipe,
    /// `<<<`
    String,
}

/// The word that a redirection operator is applied to: `text` is the word as
/// shell source, `debug` the parser's own description of it.
#[derive(Debug)]
pub struct Operand {
    pub text: String,
    pub debug: String,
}

/// What a redirection does to its file descriptor.
#[derive(Debug)]
pub enum RedirBody {
    Normal { operator: RedirOp, operand: Operand },
    /// The body of a here-document is not audited and not held.
    HereDoc,
}

/// A redirection; `fd` is the descriptor written before the operator, if any.
#[derive(Debug)]
pub struct Redir {
    pub fd: Option<i32>,
    pub body: RedirBody,
}

impl RedirOp {
    /// The name of the operator.
    pub open spec fn name(self) -> Seq<char> {
        match self {
            RedirOp::FileIn => "FileIn"@,
            RedirOp::FileInOut => "FileInOut"@,
            RedirOp::FileOut => "FileOut"@,
            RedirOp::FileAppend => "FileAppend"@,
            RedirOp::FileClobber => "FileClobber"@,
            RedirOp::FdIn => "FdIn"@,
            RedirOp::FdOut => "FdOut"@,
            RedirOp::Pipe => "Pipe"@,
            RedirOp::String => "String"@,
        }
    }

    /// The name of the operator, as findings show it.
    pub fn name_text(&self) -> (r: &'static str)
        ensures
            r@ == self.name(),
    {
        match self {
            RedirOp::FileIn => "FileIn",
            RedirOp::FileInOut => "FileInOut",
            RedirOp::FileOut => "FileOut",
            RedirOp::FileAppend => "FileAppend",
            RedirOp::FileClobber => "FileClobber",
            RedirOp::FdIn => "FdIn",
            RedirOp::FdOut => "FdOut",
            RedirOp::Pipe => "Pipe",
            RedirOp::String => "String",
        }
    }
}

/// The characters between back quotes, without the backslashes.
pub open spec fn backquote_chars(units: Seq<BackquoteUnit>) -> Seq<char> {
    units.map_values(
        |unit: BackquoteUnit|
            match unit {
                BackquoteUnit::Literal(c) => c,
                BackquoteUnit::Backslashed(c) => c,
            },
    )
}

} // verus!
