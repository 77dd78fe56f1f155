use crate::ast::validate_ast;
use crate::ast::walk_script;
use crate::errors::Error;
use crate::errors::ErrorView;
use crate::redirect::validate_redirs;
use crate::redirect::walk_redirs;
use crate::syntax::Assign;
use crate::syntax::backquote_chars;
use crate::syntax::BackquoteUnit;
use crate::syntax::SimpleCommand;
use crate::syntax::Substitution;
use crate::syntax::TextUnit;
use crate::syntax::Value;
use crate::syntax::Word;
use crate::syntax::WordUnit;
use crate::text::push_char;
use crate::text::quote;
use crate::text::quoted;
use crate::text::views;
use crate::ConditionView;
use crate::Context;
use crate::ContextView;
use crate::FindingCondition;
use crate::Walk;
use vstd::prelude::*;
use vstd::string::StringExecFns;

verus! {

/// Binaries that a hook may run without comment.
pub const REASONABLE_BINARIES: [&'static str; 26] = [
    "/bin/true",
    "[",
    "cat",
    "chmod",
    "chown",
    "getent",
    "grep",
    "head",
    "hostname",
    "killall",
    "mkdir",
    "pgrep",
    "printf",
    "rm",
    "rmdir",
    "setcap",
    "sha256sum",
    "systemd-sysusers",
    "touch",
    "true",
    "uname",
    "unlink",
    "usermod",
    "uuidgen",
    "vercmp",
    "yes",
];

/// Shell builtins that a hook may run without comment.
pub const REASONABLE_BUILTINS: [&'static str; 10] = [
    ":",
    "break",
    "cd",
    "continue",
    "echo",
    "local",
    "popd",
    "pushd",
    "return",
    "shift",
];

/// Whether one of the first `n` text units is computed when the script runs.
pub open spec fn any_dynamic(units: Seq<TextUnit>, n: nat) -> bool
    decreases units, n,
{
    if n == 0 || n > units.len() {
        false
    } else {
        any_dynamic(units, (n - 1) as nat) || text_unit_dynamic(units[n - 1])
    }
}

/// Whether a text unit is computed when the script runs: a parameter
/// expansion or a `$(...)` substitution, alone or inside an arithmetic
/// expansion. A substitution in back quotes does not count.
pub open spec fn text_unit_dynamic(unit: TextUnit) -> bool
    decreases unit, 0nat,
{
    match unit {
        TextUnit::Literal => false,
        TextUnit::Backslashed => false,
        TextUnit::RawParam => true,
        TextUnit::BracedParam => true,
        TextUnit::CommandSubst(_) => true,
        TextUnit::Backquote(_) => false,
        TextUnit::Arith(content) => any_dynamic(content@, content@.len()),
    }
}

/// Whether a word unit holds a text unit that is computed when the script runs.
pub open spec fn word_unit_dynamic(unit: WordUnit) -> bool {
    match unit {
        WordUnit::Unquoted(text) => text_unit_dynamic(text),
        WordUnit::SingleQuote => false,
        WordUnit::DoubleQuote(content) => any_dynamic(content@, content@.len()),
        WordUnit::DollarSingleQuote => false,
        WordUnit::Tilde => false,
    }
}

/// Whether one of the first `n` units of a word is computed when the script runs.
pub open spec fn word_dynamic_upto(units: Seq<WordUnit>, n: nat) -> bool
    decreases n,
{
    if n == 0 || n > units.len() {
        false
    } else {
        word_dynamic_upto(units, (n - 1) as nat) || word_unit_dynamic(units[n - 1])
    }
}

/// Whether a word is computed when the script runs.
pub open spec fn word_dynamic(word: Word) -> bool {
    word_dynamic_upto(word.units@, word.units@.len())
}

/// The substitution that a command consists of, if it is nothing else: no
/// assignment, one word, and that word one `$(...)`, bare or alone inside
/// double quotes.
pub open spec fn subshell_substitution(command: SimpleCommand) -> Option<Substitution> {
    if command.assigns@.len() == 0 && command.words@.len() == 1 && command.words@[0].units@.len()
        == 1 {
        match command.words@[0].units@[0] {
            WordUnit::Unquoted(TextUnit::CommandSubst(substitution)) => Some(substitution),
            WordUnit::DoubleQuote(content) => if content@.len() == 1 {
                match content@[0] {
                    TextUnit::CommandSubst(substitution) => Some(substitution),
                    _ => None,
                }
            } else {
                None
            },
            _ => None,
        }
    } else {
        None
    }
}

/// The finding for a command that runs outside every function.
pub open spec fn outside_message(command: Seq<char>) -> Seq<char> {
    "Function call outside of any function: "@ + quoted(command)
}

/// The finding for a command whose name is computed when the script runs.
pub open spec fn variable_message(name: Seq<char>) -> Seq<char> {
    "Command name contains variable: "@ + quoted(name)
}

/// The finding for a command that the trust catalog does not hold.
pub open spec fn unrecognized_message(command: Seq<char>) -> Seq<char> {
    "Running unrecognized command: "@ + quoted(command)
}

/// The context after the command that `command` invokes was judged: its
/// first word is the command's name.
pub open spec fn classify(
    command: SimpleCommand,
    stack: Seq<Seq<char>>,
    ctx: ContextView,
) -> ContextView {
    if command.words@.len() == 0 {
        ctx
    } else {
        let first = command.words@[0];
        let guarded = if stack.len() == 0 {
            ctx.record(outside_message(command.text@), Seq::empty())
        } else {
            ctx
        };
        if word_dynamic(first) {
            guarded.record(variable_message(first.text@), Seq::empty())
        } else if !guarded.trusted_commands.contains(first.text@) {
            guarded.record(
                unrecognized_message(command.text@),
                seq![ConditionView::FunctionUndeclared(first.text@)],
            )
        } else {
            guarded
        }
    }
}

/// The walk through the script of a substitution. One that the parser
/// refused stops the walk.
pub open spec fn walk_substitution(
    substitution: Substitution,
    stack: Seq<Seq<char>>,
    ctx: ContextView,
) -> Walk
    decreases substitution, 0nat,
{
    match substitution {
        Substitution::Parsed(script) => walk_script(script, stack, ctx),
        Substitution::Invalid(diagnostic) => Walk::stopped(ctx, ErrorView::Syntax(diagnostic@)),
    }
}

/// The walk through the substitution of a text unit, if it is one.
pub open spec fn scan_text_unit(unit: TextUnit, stack: Seq<Seq<char>>, ctx: ContextView) -> Walk
    decreases unit, 0nat,
{
    match unit {
        TextUnit::CommandSubst(substitution) => walk_substitution(substitution, stack, ctx),
        TextUnit::Backquote(substitution) => walk_substitution(substitution, stack, ctx),
        _ => Walk::ok(ctx),
    }
}

/// The walk through the substitutions of the first `n` text units.
pub open spec fn scan_text_units(
    units: Seq<TextUnit>,
    n: nat,
    stack: Seq<Seq<char>>,
    ctx: ContextView,
) -> Walk
    decreases units, n,
{
    if n == 0 || n > units.len() {
        Walk::ok(ctx)
    } else {
        let before = scan_text_units(units, (n - 1) as nat, stack, ctx);
        if before.error is Some {
            before
        } else {
            scan_text_unit(units[n - 1], stack, before.ctx)
        }
    }
}

/// The walk through the substitutions of one word unit. What stands in
/// single quotes cannot hold one.
pub open spec fn scan_word_unit(unit: WordUnit, stack: Seq<Seq<char>>, ctx: ContextView) -> Walk
    decreases unit, 0nat,
{
    match unit {
        WordUnit::Unquoted(text) => scan_text_unit(text, stack, ctx),
        WordUnit::DoubleQuote(content) => scan_text_units(content@, content@.len(), stack, ctx),
        _ => Walk::ok(ctx),
    }
}

/// The walk through the substitutions of the first `n` units of a word.
pub open spec fn scan_word_units(
    units: Seq<WordUnit>,
    n: nat,
    stack: Seq<Seq<char>>,
    ctx: ContextView,
) -> Walk
    decreases units, n,
{
    if n == 0 || n > units.len() {
        Walk::ok(ctx)
    } else {
        let before = scan_word_units(units, (n - 1) as nat, stack, ctx);
        if before.error is Some {
            before
        } else {
            scan_word_unit(units[n - 1], stack, before.ctx)
        }
    }
}

/// The walk through the substitutions of a word.
pub open spec fn scan_word(word: Word, stack: Seq<Seq<char>>, ctx: ContextView) -> Walk
    decreases word, 0nat,
{
    scan_word_units(word.units@, word.units@.len(), stack, ctx)
}

/// The walk through the substitutions of the first `n` words.
pub open spec fn scan_words(
    words: Seq<Word>,
    n: nat,
    stack: Seq<Seq<char>>,
    ctx: ContextView,
) -> Walk
    decreases words, n,
{
    if n == 0 || n > words.len() {
        Walk::ok(ctx)
    } else {
        let before = scan_words(words, (n - 1) as nat, stack, ctx);
        if before.error is Some {
            before
        } else {
            scan_word(words[n - 1], stack, before.ctx)
        }
    }
}

/// The walk through the substitutions of the value of an assignment.
pub open spec fn scan_assign(assign: Assign, stack: Seq<Seq<char>>, ctx: ContextView) -> Walk
    decreases assign, 0nat,
{
    match assign.value {
        Value::Scalar(word) => scan_word(word, stack, ctx),
        Value::Array(words) => scan_words(words@, words@.len(), stack, ctx),
    }
}

/// The walk through the substitutions of the first `n` assignments.
pub open spec fn scan_assigns(
    assigns: Seq<Assign>,
    n: nat,
    stack: Seq<Seq<char>>,
    ctx: ContextView,
) -> Walk
    decreases assigns, n,
{
    if n == 0 || n > assigns.len() {
        Walk::ok(ctx)
    } else {
        let before = scan_assigns(assigns, (n - 1) as nat, stack, ctx);
        if before.error is Some {
            before
        } else {
            scan_assign(assigns[n - 1], stack, before.ctx)
        }
    }
}

/// The walk that runs a command either as the script of the substitution it
/// consists of, or as the invocation of its first word.
pub open spec fn walk_invocation(
    command: SimpleCommand,
    stack: Seq<Seq<char>>,
    ctx: ContextView,
) -> Walk
    decreases command, 0nat,
{
    match subshell_substitution(command) {
        Some(substitution) => walk_substitution(substitution, stack, ctx),
        None => Walk::ok(classify(command, stack, ctx)),
    }
}

/// The walk through one simple command: the substitutions in the values of
/// its assignments, the substitutions in its words, the invocation, and then
/// its redirections.
pub open spec fn walk_simple(
    command: SimpleCommand,
    stack: Seq<Seq<char>>,
    ctx: ContextView,
) -> Walk
    decreases command, 1nat,
{
    let assigned = scan_assigns(command.assigns@, command.assigns@.len(), stack, ctx);
    if assigned.error is Some {
        assigned
    } else {
        let scanned = scan_words(command.words@, command.words@.len(), stack, assigned.ctx);
        if scanned.error is Some {
            scanned
        } else {
            let invoked = walk_invocation(command, stack, scanned.ctx);
            if invoked.error is Some {
                invoked
            } else {
                Walk::ok(walk_redirs(command.redirs@, command.redirs@.len(), invoked.ctx))
            }
        }
    }
}

/// Whether a text unit is computed when the script runs.
pub fn text_unit_contains_variables(unit: &TextUnit) -> (r: bool)
    ensures
        r == text_unit_dynamic(*unit),
    decreases *unit, 0nat,
{
    match unit {
        TextUnit::Literal => false,
        TextUnit::Backslashed => false,
        TextUnit::RawParam => true,
        TextUnit::BracedParam => true,
        TextUnit::CommandSubst(_) => true,
        TextUnit::Backquote(_) => false,
        TextUnit::Arith(content) => text_contains_variables(content),
    }
}

/// Whether one of the units of a text is computed when the script runs.
pub fn text_contains_variables(content: &Vec<TextUnit>) -> (r: bool)
    ensures
        r == any_dynamic(content@, content@.len()),
    decreases content@, content@.len(),
{
    let mut i: usize = 0;
    while i < content.len()
        invariant
            i <= content.len(),
            !any_dynamic(content@, i as nat),
        decreases content.len() - i,
    {
        if text_unit_contains_variables(&content[i]) {
            proof {
                lemma_any_dynamic_grows(content@, (i + 1) as nat, content@.len());
            }
            return true;
        }
        i = i + 1;
    }
    false
}

/// Once a unit among the first `n` is dynamic, one among the first `m` is,
/// for every longer prefix.
pub proof fn lemma_any_dynamic_grows(units: Seq<TextUnit>, n: nat, m: nat)
    requires
        n <= m <= units.len(),
        any_dynamic(units, n),
    ensures
        any_dynamic(units, m),
    decreases m,
{
    if n < m {
        lemma_any_dynamic_grows(units, n, (m - 1) as nat);
    }
}

/// Once a unit among the first `n` of a word is dynamic, one among the first
/// `m` is, for every longer prefix.
pub proof fn lemma_word_dynamic_grows(units: Seq<WordUnit>, n: nat, m: nat)
    requires
        n <= m <= units.len(),
        word_dynamic_upto(units, n),
    ensures
        word_dynamic_upto(units, m),
    decreases m,
{
    if n < m {
        lemma_word_dynamic_grows(units, n, (m - 1) as nat);
    }
}

/// Whether a word is computed when the script runs.
pub fn word_contains_variables(word: &Word) -> (r: bool)
    ensures
        r == word_dynamic(*word),
{
    let mut i: usize = 0;
    while i < word.units.len()
        invariant
            i <= word.units.len(),
            !word_dynamic_upto(word.units@, i as nat),
        decreases word.units.len() - i,
    {
        let dynamic = match &word.units[i] {
            WordUnit::Unquoted(text) => text_unit_contains_variables(text),
            WordUnit::SingleQuote => false,
            WordUnit::DoubleQuote(content) => text_contains_variables(content),
            WordUnit::DollarSingleQuote => false,
            WordUnit::Tilde => false,
        };
        if dynamic {
            proof {
                lemma_word_dynamic_grows(word.units@, (i + 1) as nat, word.units@.len());
            }
            return true;
        }
        i = i + 1;
    }
    false
}

/// The script text between back quotes: the characters in order, each
/// escaped character without its backslash.
pub fn assemble_backquote(units: &[BackquoteUnit]) -> (r: String)
    ensures
        r@ == backquote_chars(units@),
{
    let mut script = String::new();
    let mut i: usize = 0;
    while i < units.len()
        invariant
            i <= units.len(),
            script@ == backquote_chars(units@.subrange(0, i as int)),
        decreases units.len() - i,
    {
        match units[i] {
            BackquoteUnit::Literal(c) => push_char(&mut script, c),
            BackquoteUnit::Backslashed(c) => push_char(&mut script, c),
        }
        proof {
            assert(script@ =~= backquote_chars(units@.subrange(0, i + 1)));
        }
        i = i + 1;
    }
    proof {
        assert(units@.subrange(0, units@.len() as int) =~= units@);
    }
    script
}

/// The substitution that a command consists of, if it is nothing else.
pub fn get_subshell_command_subst(command: &SimpleCommand) -> (r: Option<&Substitution>)
    ensures
        match r {
            Some(substitution) => subshell_substitution(*command) == Some(*substitution),
            None => subshell_substitution(*command) is None,
        },
{
    if command.assigns.len() != 0 {
        return None;
    }
    if command.words.len() != 1 {
        return None;
    }
    let word = &command.words[0];
    if word.units.len() != 1 {
        return None;
    }
    match &word.units[0] {
        WordUnit::Unquoted(TextUnit::CommandSubst(substitution)) => Some(substitution),
        WordUnit::DoubleQuote(content) => {
            if content.len() != 1 {
                return None;
            }
            match &content[0] {
                TextUnit::CommandSubst(substitution) => Some(substitution),
                _ => None,
            }
        },
        _ => None,
    }
}

/// Walks the script of a substitution; fails on one that the parser refused.
pub fn validate_substitution(
    ctx: &mut Context,
    substitution: &Substitution,
    function_stack: &[String],
) -> (r: Result<(), Error>)
    ensures
        Walk::of(final(ctx)@, r) == walk_substitution(
            *substitution,
            views(function_stack@),
            old(ctx)@,
        ),
    decreases *substitution, 0nat,
{
    match substitution {
        Substitution::Parsed(script) => validate_ast(ctx, script, function_stack),
        Substitution::Invalid(diagnostic) => Err(Error::syntax(diagnostic.as_str())),
    }
}

/// Walks the substitution of a text unit, if it is one.
pub fn validate_text_unit(
    ctx: &mut Context,
    text: &TextUnit,
    function_stack: &[String],
) -> (r: Result<(), Error>)
    ensures
        Walk::of(final(ctx)@, r) == scan_text_unit(*text, views(function_stack@), old(ctx)@),
    decreases *text, 0nat,
{
    match text {
        TextUnit::CommandSubst(substitution) => validate_substitution(
            ctx,
            substitution,
            function_stack,
        ),
        TextUnit::Backquote(substitution) => validate_substitution(
            ctx,
            substitution,
            function_stack,
        ),
        _ => Ok(()),
    }
}

/// Walks the substitutions of a text, in order.
pub fn validate_text(
    ctx: &mut Context,
    content: &Vec<TextUnit>,
    function_stack: &[String],
) -> (r: Result<(), Error>)
    ensures
        Walk::of(final(ctx)@, r) == scan_text_units(
            content@,
            content@.len(),
            views(function_stack@),
            old(ctx)@,
        ),
    decreases content@, content@.len(),
{
    let mut i: usize = 0;
    while i < content.len()
        invariant
            i <= content.len(),
            Walk::ok(ctx@) == scan_text_units(
                content@,
                i as nat,
                views(function_stack@),
                old(ctx)@,
            ),
        decreases content.len() - i,
    {
        match validate_text_unit(ctx, &content[i], function_stack) {
            Ok(_) => {},
            Err(error) => {
                proof {
                    lemma_scan_text_units_stops(
                        content@,
                        (i + 1) as nat,
                        content@.len(),
                        views(function_stack@),
                        old(ctx)@,
                    );
                }
                return Err(error);
            },
        }
        i = i + 1;
    }
    Ok(())
}

/// Walks the substitutions of a word, in order.
pub fn validate_word(
    ctx: &mut Context,
    word: &Word,
    function_stack: &[String],
) -> (r: Result<(), Error>)
    ensures
        Walk::of(final(ctx)@, r) == scan_word(*word, views(function_stack@), old(ctx)@),
    decreases *word, 0nat,
{
    let mut i: usize = 0;
    while i < word.units.len()
        invariant
            i <= word.units.len(),
            Walk::ok(ctx@) == scan_word_units(
                word.units@,
                i as nat,
                views(function_stack@),
                old(ctx)@,
            ),
        decreases word.units.len() - i,
    {
        let ghost before = ctx@;
        let step = match &word.units[i] {
            WordUnit::Unquoted(text) => validate_text_unit(ctx, text, function_stack),
            WordUnit::DoubleQuote(content) => validate_text(ctx, content, function_stack),
            WordUnit::SingleQuote | WordUnit::DollarSingleQuote | WordUnit::Tilde => Ok(()),
        };
        assert(Walk::of(ctx@, step) == scan_word_unit(
            word.units@[i as int],
            views(function_stack@),
            before,
        ));
        assert(Walk::of(ctx@, step) == scan_word_units(
            word.units@,
            (i + 1) as nat,
            views(function_stack@),
            old(ctx)@,
        ));
        match step {
            Ok(_) => {},
            Err(error) => {
                proof {
                    lemma_scan_word_units_stops(
                        word.units@,
                        (i + 1) as nat,
                        word.units@.len(),
                        views(function_stack@),
                        old(ctx)@,
                    );
                }
                return Err(error);
            },
        }
        i = i + 1;
    }
    Ok(())
}

/// Walks the substitutions of a list of words, in order.
pub fn validate_words(
    ctx: &mut Context,
    words: &Vec<Word>,
    function_stack: &[String],
) -> (r: Result<(), Error>)
    ensures
        Walk::of(final(ctx)@, r) == scan_words(
            words@,
            words@.len(),
            views(function_stack@),
            old(ctx)@,
        ),
    decreases words@, words@.len(),
{
    let mut i: usize = 0;
    while i < words.len()
        invariant
            i <= words.len(),
            Walk::ok(ctx@) == scan_words(words@, i as nat, views(function_stack@), old(ctx)@),
        decreases words.len() - i,
    {
        match validate_word(ctx, &words[i], function_stack) {
            Ok(_) => {},
            Err(error) => {
                proof {
                    lemma_scan_words_stops(
                        words@,
                        (i + 1) as nat,
                        words@.len(),
                        views(function_stack@),
                        old(ctx)@,
                    );
                }
                return Err(error);
            },
        }
        i = i + 1;
    }
    Ok(())
}

/// Walks the substitutions in the words of a command, in order.
pub fn validate_subshell_command_subst(
    ctx: &mut Context,
    simple: &SimpleCommand,
    function_stack: &[String],
) -> (r: Result<(), Error>)
    ensures
        Walk::of(final(ctx)@, r) == scan_words(
            simple.words@,
            simple.words@.len(),
            views(function_stack@),
            old(ctx)@,
        ),
    decreases *simple, 0nat,
{
    validate_words(ctx, &simple.words, function_stack)
}

/// Walks the substitutions in the values of the assignments of a command.
pub fn validate_assigns(
    ctx: &mut Context,
    assigns: &Vec<Assign>,
    function_stack: &[String],
) -> (r: Result<(), Error>)
    ensures
        Walk::of(final(ctx)@, r) == scan_assigns(
            assigns@,
            assigns@.len(),
            views(function_stack@),
            old(ctx)@,
        ),
    decreases assigns@, assigns@.len(),
{
    let mut i: usize = 0;
    while i < assigns.len()
        invariant
            i <= assigns.len(),
            Walk::ok(ctx@) == scan_assigns(assigns@, i as nat, views(function_stack@), old(ctx)@),
        decreases assigns.len() - i,
    {
        let ghost before = ctx@;
        let step = match &assigns[i].value {
            Value::Scalar(word) => validate_word(ctx, word, function_stack),
            Value::Array(words) => validate_words(ctx, words, function_stack),
        };
        assert(Walk::of(ctx@, step) == scan_assign(assigns@[i as int], views(function_stack@), before));
        assert(Walk::of(ctx@, step) == scan_assigns(
            assigns@,
            (i + 1) as nat,
            views(function_stack@),
            old(ctx)@,
        ));
        match step {
            Ok(_) => {},
            Err(error) => {
                proof {
                    lemma_scan_assigns_stops(
                        assigns@,
                        (i + 1) as nat,
                        assigns@.len(),
                        views(function_stack@),
                        old(ctx)@,
                    );
                }
                return Err(error);
            },
        }
        i = i + 1;
    }
    Ok(())
}

/// A scan of text units that has stopped stays as it stopped.
pub proof fn lemma_scan_text_units_stops(
    units: Seq<TextUnit>,
    n: nat,
    m: nat,
    stack: Seq<Seq<char>>,
    ctx: ContextView,
)
    requires
        n <= m <= units.len(),
        scan_text_units(units, n, stack, ctx).error is Some,
    ensures
        scan_text_units(units, m, stack, ctx) == scan_text_units(units, n, stack, ctx),
    decreases m,
{
    if n < m {
        lemma_scan_text_units_stops(units, n, (m - 1) as nat, stack, ctx);
    }
}

/// A scan of word units that has stopped stays as it stopped.
pub proof fn lemma_scan_word_units_stops(
    units: Seq<WordUnit>,
    n: nat,
    m: nat,
    stack: Seq<Seq<char>>,
    ctx: ContextView,
)
    requires
        n <= m <= units.len(),
        scan_word_units(units, n, stack, ctx).error is Some,
    ensures
        scan_word_units(units, m, stack, ctx) == scan_word_units(units, n, stack, ctx),
    decreases m,
{
    if n < m {
        lemma_scan_word_units_stops(units, n, (m - 1) as nat, stack, ctx);
    }
}

/// A scan of words that has stopped stays as it stopped.
pub proof fn lemma_scan_words_stops(
    words: Seq<Word>,
    n: nat,
    m: nat,
    stack: Seq<Seq<char>>,
    ctx: ContextView,
)
    requires
        n <= m <= words.len(),
        scan_words(words, n, stack, ctx).error is Some,
    ensures
        scan_words(words, m, stack, ctx) == scan_words(words, n, stack, ctx),
    decreases m,
{
    if n < m {
        lemma_scan_words_stops(words, n, (m - 1) as nat, stack, ctx);
    }
}

/// A scan of assignments that has stopped stays as it stopped.
pub proof fn lemma_scan_assigns_stops(
    assigns: Seq<Assign>,
    n: nat,
    m: nat,
    stack: Seq<Seq<char>>,
    ctx: ContextView,
)
    requires
        n <= m <= assigns.len(),
        scan_assigns(assigns, n, stack, ctx).error is Some,
    ensures
        scan_assigns(assigns, m, stack, ctx) == scan_assigns(assigns, n, stack, ctx),
    decreases m,
{
    if n < m {
        lemma_scan_assigns_stops(assigns, n, (m - 1) as nat, stack, ctx);
    }
}

/// Judges the command that `simple` invokes and records what it finds.
pub fn classify_command(ctx: &mut Context, simple: &SimpleCommand, function_stack: &[String])
    ensures
        final(ctx)@ == classify(*simple, views(function_stack@), old(ctx)@),
{
    if simple.words.len() == 0 {
        return ;
    }
    let first = &simple.words[0];
    if function_stack.len() == 0 {
        let mut message = String::from_str("Function call outside of any function: ");
        message.append(quote(simple.text.as_str()).as_str());
        ctx.finding(message);
    }
    if word_contains_variables(first) {
        let mut message = String::from_str("Command name contains variable: ");
        message.append(quote(first.text.as_str()).as_str());
        ctx.finding(message);
    } else if !ctx.trusts(&first.text) {
        let mut message = String::from_str("Running unrecognized command: ");
        message.append(quote(simple.text.as_str()).as_str());
        let mut conditions: Vec<FindingCondition> = Vec::new();
        conditions.push(FindingCondition::FunctionUndeclared(first.text.clone()));
        proof {
            assert(crate::condition_views(conditions@) =~= seq![
                ConditionView::FunctionUndeclared(first.text@),
            ]);
        }
        ctx.finding_conditional(message, conditions);
    }
}

/// Audits one simple command: the substitutions in its assignments and in
/// its words, the command it invokes, and its redirections.
pub fn validate_simple_command(
    ctx: &mut Context,
    simple: &SimpleCommand,
    function_stack: &[String],
) -> (r: Result<(), Error>)
    ensures
        Walk::of(final(ctx)@, r) == walk_simple(*simple, views(function_stack@), old(ctx)@),
    decreases *simple, 1nat,
{
    validate_assigns(ctx, &simple.assigns, function_stack)?;
    validate_subshell_command_subst(ctx, simple, function_stack)?;
    match get_subshell_command_subst(simple) {
        Some(substitution) => {
            validate_substitution(ctx, substitution, function_stack)?;
        },
        None => {
            classify_command(ctx, simple, function_stack);
        },
    }
    validate_redirs(ctx, &simple.redirs);
    Ok(())
}

/// Whether a name has `len` characters, of which the first is `first` and,
/// where there is one, the second is `second`.
spec fn starts(name: Seq<char>, len: nat, first: char, second: char) -> bool {
    name.len() == len && name[0] == first && (len > 1 ==> name[1] == second)
}

/// The length and first two characters of one of the reasonable binaries.
spec fn binary_shape(name: Seq<char>) -> bool {
    ||| starts(name, 9, '/', 'b')
    ||| starts(name, 1, '[', ' ')
    ||| starts(name, 3, 'c', 'a')
    ||| starts(name, 5, 'c', 'h')
    ||| starts(name, 5, 'c', 'h')
    ||| starts(name, 6, 'g', 'e')
    ||| starts(name, 4, 'g', 'r')
    ||| starts(name, 4, 'h', 'e')
    ||| starts(name, 8, 'h', 'o')
    ||| starts(name, 7, 'k', 'i')
    ||| starts(name, 5, 'm', 'k')
    ||| starts(name, 5, 'p', 'g')
    ||| starts(name, 6, 'p', 'r')
    ||| starts(name, 2, 'r', 'm')
    ||| starts(name, 5, 'r', 'm')
    ||| starts(name, 6, 's', 'e')
    ||| starts(name, 9, 's', 'h')
    ||| starts(name, 16, 's', 'y')
    ||| starts(name, 5, 't', 'o')
    ||| starts(name, 4, 't', 'r')
    ||| starts(name, 5, 'u', 'n')
    ||| starts(name, 6, 'u', 'n')
    ||| starts(name, 7, 'u', 's')
    ||| starts(name, 7, 'u', 'u')
    ||| starts(name, 6, 'v', 'e')
    ||| starts(name, 3, 'y', 'e')
}

/// The length and first two characters of one of the reasonable builtins.
spec fn builtin_shape(name: Seq<char>) -> bool {
    ||| starts(name, 1, ':', ' ')
    ||| starts(name, 5, 'b', 'r')
    ||| starts(name, 2, 'c', 'd')
    ||| starts(name, 8, 'c', 'o')
    ||| starts(name, 4, 'e', 'c')
    ||| starts(name, 5, 'l', 'o')
    ||| starts(name, 4, 'p', 'o')
    ||| starts(name, 5, 'p', 'u')
    ||| starts(name, 6, 'r', 'e')
    ||| starts(name, 5, 's', 'h')
}

/// Every reasonable binary has the shape of one.
proof fn lemma_binary_shape(i: int)
    requires
        0 <= i < 26,
    ensures
        binary_shape(REASONABLE_BINARIES@[i]@),
{
    assert(REASONABLE_BINARIES@.len() == 26);
    reveal_strlit("/bin/true");
    reveal_strlit("[");
    reveal_strlit("cat");
    reveal_strlit("chmod");
    reveal_strlit("chown");
    reveal_strlit("getent");
    reveal_strlit("grep");
    reveal_strlit("head");
    reveal_strlit("hostname");
    reveal_strlit("killall");
    reveal_strlit("mkdir");
    reveal_strlit("pgrep");
    reveal_strlit("printf");
    reveal_strlit("rm");
    reveal_strlit("rmdir");
    reveal_strlit("setcap");
    reveal_strlit("sha256sum");
    reveal_strlit("systemd-sysusers");
    reveal_strlit("touch");
    reveal_strlit("true");
    reveal_strlit("uname");
    reveal_strlit("unlink");
    reveal_strlit("usermod");
    reveal_strlit("uuidgen");
    reveal_strlit("vercmp");
    reveal_strlit("yes");
    if i == 0 {
        assert(REASONABLE_BINARIES@[0]@ == "/bin/true"@);
        assert(starts("/bin/true"@, 9, '/', 'b'));
    }     else if i == 1 {
        assert(REASONABLE_BINARIES@[1]@ == "["@);
        assert(starts("["@, 1, '[', ' '));
    }     else if i == 2 {
        assert(REASONABLE_BINARIES@[2]@ == "cat"@);
        assert(starts("cat"@, 3, 'c', 'a'));
    }     else if i == 3 {
        assert(REASONABLE_BINARIES@[3]@ == "chmod"@);
        assert(starts("chmod"@, 5, 'c', 'h'));
    }     else if i == 4 {
        assert(REASONABLE_BINARIES@[4]@ == "chown"@);
        assert(starts("chown"@, 5, 'c', 'h'));
    }     else if i == 5 {
        assert(REASONABLE_BINARIES@[5]@ == "getent"@);
        assert(starts("getent"@, 6, 'g', 'e'));
    }     else if i == 6 {
        assert(REASONABLE_BINARIES@[6]@ == "grep"@);
        assert(starts("grep"@, 4, 'g', 'r'));
    }     else if i == 7 {
        assert(REASONABLE_BINARIES@[7]@ == "head"@);
        assert(starts("head"@, 4, 'h', 'e'));
    }     else if i == 8 {
        assert(REASONABLE_BINARIES@[8]@ == "hostname"@);
        assert(starts("hostname"@, 8, 'h', 'o'));
    }     else if i == 9 {
        assert(REASONABLE_BINARIES@[9]@ == "killall"@);
        assert(starts("killall"@, 7, 'k', 'i'));
    }     else if i == 10 {
        assert(REASONABLE_BINARIES@[10]@ == "mkdir"@);
        assert(starts("mkdir"@, 5, 'm', 'k'));
    }     else if i == 11 {
        assert(REASONABLE_BINARIES@[11]@ == "pgrep"@);
        assert(starts("pgrep"@, 5, 'p', 'g'));
    }     else if i == 12 {
        assert(REASONABLE_BINARIES@[12]@ == "printf"@);
        assert(starts("printf"@, 6, 'p', 'r'));
    }     else if i == 13 {
        assert(REASONABLE_BINARIES@[13]@ == "rm"@);
        assert(starts("rm"@, 2, 'r', 'm'));
    }     else if i == 14 {
        assert(REASONABLE_BINARIES@[14]@ == "rmdir"@);
        assert(starts("rmdir"@, 5, 'r', 'm'));
    }     else if i == 15 {
        assert(REASONABLE_BINARIES@[15]@ == "setcap"@);
        assert(starts("setcap"@, 6, 's', 'e'));
    }     else if i == 16 {
        assert(REASONABLE_BINARIES@[16]@ == "sha256sum"@);
        assert(starts("sha256sum"@, 9, 's', 'h'));
    }     else if i == 17 {
        assert(REASONABLE_BINARIES@[17]@ == "systemd-sysusers"@);
        assert(starts("systemd-sysusers"@, 16, 's', 'y'));
    }     else if i == 18 {
        assert(REASONABLE_BINARIES@[18]@ == "touch"@);
        assert(starts("touch"@, 5, 't', 'o'));
    }     else if i == 19 {
        assert(REASONABLE_BINARIES@[19]@ == "true"@);
        assert(starts("true"@, 4, 't', 'r'));
    }     else if i == 20 {
        assert(REASONABLE_BINARIES@[20]@ == "uname"@);
        assert(starts("uname"@, 5, 'u', 'n'));
    }     else if i == 21 {
        assert(REASONABLE_BINARIES@[21]@ == "unlink"@);
        assert(starts("unlink"@, 6, 'u', 'n'));
    }     else if i == 22 {
        assert(REASONABLE_BINARIES@[22]@ == "usermod"@);
        assert(starts("usermod"@, 7, 'u', 's'));
    }     else if i == 23 {
        assert(REASONABLE_BINARIES@[23]@ == "uuidgen"@);
        assert(starts("uuidgen"@, 7, 'u', 'u'));
    }     else if i == 24 {
        assert(REASONABLE_BINARIES@[24]@ == "vercmp"@);
        assert(starts("vercmp"@, 6, 'v', 'e'));
    }     else if i == 25 {
        assert(REASONABLE_BINARIES@[25]@ == "yes"@);
        assert(starts("yes"@, 3, 'y', 'e'));
    }
}

/// Every reasonable builtin has the shape of one.
proof fn lemma_builtin_shape(i: int)
    requires
        0 <= i < 10,
    ensures
        builtin_shape(REASONABLE_BUILTINS@[i]@),
{
    assert(REASONABLE_BUILTINS@.len() == 10);
    reveal_strlit(":");
    reveal_strlit("break");
    reveal_strlit("cd");
    reveal_strlit("continue");
    reveal_strlit("echo");
    reveal_strlit("local");
    reveal_strlit("popd");
    reveal_strlit("pushd");
    reveal_strlit("return");
    reveal_strlit("shift");
    if i == 0 {
        assert(REASONABLE_BUILTINS@[0]@ == ":"@);
        assert(starts(":"@, 1, ':', ' '));
    }     else if i == 1 {
        assert(REASONABLE_BUILTINS@[1]@ == "break"@);
        assert(starts("break"@, 5, 'b', 'r'));
    }     else if i == 2 {
        assert(REASONABLE_BUILTINS@[2]@ == "cd"@);
        assert(starts("cd"@, 2, 'c', 'd'));
    }     else if i == 3 {
        assert(REASONABLE_BUILTINS@[3]@ == "continue"@);
        assert(starts("continue"@, 8, 'c', 'o'));
    }     else if i == 4 {
        assert(REASONABLE_BUILTINS@[4]@ == "echo"@);
        assert(starts("echo"@, 4, 'e', 'c'));
    }     else if i == 5 {
        assert(REASONABLE_BUILTINS@[5]@ == "local"@);
        assert(starts("local"@, 5, 'l', 'o'));
    }     else if i == 6 {
        assert(REASONABLE_BUILTINS@[6]@ == "popd"@);
        assert(starts("popd"@, 4, 'p', 'o'));
    }     else if i == 7 {
        assert(REASONABLE_BUILTINS@[7]@ == "pushd"@);
        assert(starts("pushd"@, 5, 'p', 'u'));
    }     else if i == 8 {
        assert(REASONABLE_BUILTINS@[8]@ == "return"@);
        assert(starts("return"@, 6, 'r', 'e'));
    }     else if i == 9 {
        assert(REASONABLE_BUILTINS@[9]@ == "shift"@);
        assert(starts("shift"@, 5, 's', 'h'));
    }
}

/// No name is both a reasonable binary and a reasonable builtin.
pub proof fn lemma_catalogs_disjoint()
    ensures
        forall|i: int, j: int|
            0 <= i < REASONABLE_BINARIES@.len() && 0 <= j < REASONABLE_BUILTINS@.len() ==> (
            #[trigger] REASONABLE_BINARIES@[i])@ != (#[trigger] REASONABLE_BUILTINS@[j])@,
{
    assert(REASONABLE_BINARIES@.len() == 26);
    assert(REASONABLE_BUILTINS@.len() == 10);
    assert forall|i: int, j: int|
        0 <= i < REASONABLE_BINARIES@.len() && 0 <= j < REASONABLE_BUILTINS@.len() implies (
    #[trigger] REASONABLE_BINARIES@[i])@ != (#[trigger] REASONABLE_BUILTINS@[j])@ by {
        lemma_binary_shape(i);
        lemma_builtin_shape(j);
    }
}

} // verus!
