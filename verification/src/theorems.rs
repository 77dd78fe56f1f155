use crate::agrees;
use crate::ast::define;
use crate::ast::walk_bodies;
use crate::ast::walk_case_items;
use crate::ast::walk_command;
use crate::ast::walk_commands;
use crate::ast::walk_compound;
use crate::ast::walk_elifs;
use crate::ast::walk_items;
use crate::ast::walk_script;
use crate::audit;
use crate::command::classify;
use crate::command::outside_message;
use crate::command::scan_assign;
use crate::command::scan_assigns;
use crate::command::scan_text_unit;
use crate::command::scan_text_units;
use crate::command::scan_word;
use crate::command::scan_word_unit;
use crate::command::scan_word_units;
use crate::command::scan_words;
use crate::command::subshell_substitution;
use crate::command::unrecognized_message;
use crate::command::walk_invocation;
use crate::command::walk_simple;
use crate::command::walk_substitution;
use crate::errors::Error;
use crate::redirect::file_write_message;
use crate::redirect::redir_finding;
use crate::redirect::walk_redir;
use crate::redirect::walk_redirs;
use crate::syntax::Assign;
use crate::syntax::CaseItem;
use crate::syntax::Command;
use crate::syntax::CompoundCommand;
use crate::syntax::ElifThen;
use crate::syntax::Item;
use crate::syntax::Redir;
use crate::syntax::RedirBody;
use crate::syntax::RedirOp;
use crate::syntax::Script;
use crate::syntax::SimpleCommand;
use crate::syntax::Substitution;
use crate::syntax::TextUnit;
use crate::syntax::Value;
use crate::syntax::Word;
use crate::syntax::WordUnit;
use crate::text::views;
use crate::ConditionView;
use crate::ContextView;
use crate::FindingView;
use crate::Walk;
use vstd::prelude::*;

verus! {

/// Whether `after` can follow `before` in one audit: the findings of
/// `before` are the first findings of `after`, in the same order; the trust
/// catalog is the same; and every function declared in `before` is declared
/// in `after`.
pub open spec fn extends(before: ContextView, after: ContextView) -> bool {
    &&& before.findings.len() <= after.findings.len()
    &&& after.findings.subrange(0, before.findings.len() as int) == before.findings
    &&& after.trusted_commands == before.trusted_commands
    &&& before.declared_functions.subset_of(after.declared_functions)
}

/// Whether a position is nested: inside a function or inside a compound command.
pub open spec fn nested(stack: Seq<Seq<char>>, ctx: ContextView) -> bool {
    stack.len() > 0 || ctx.inside_compound > 0
}

/// What holds of every walk that starts in `before` with `stack` around it:
/// it only adds to the context; if it does not stop, it ends at the depth at
/// which it began; and from a nested position it declares no function.
pub open spec fn follows(before: ContextView, stack: Seq<Seq<char>>, walk: Walk) -> bool {
    &&& extends(before, walk.ctx)
    &&& walk.error is None ==> walk.ctx.inside_compound == before.inside_compound
    &&& nested(stack, before) ==> walk.ctx.declared_functions == before.declared_functions
}

/// A context follows itself.
pub proof fn lemma_extends_reflexive(ctx: ContextView)
    ensures
        extends(ctx, ctx),
{
    assert(ctx.findings.subrange(0, ctx.findings.len() as int) =~= ctx.findings);
}

/// What follows a context that follows another, follows that one too.
pub proof fn lemma_extends_transitive(a: ContextView, b: ContextView, c: ContextView)
    requires
        extends(a, b),
        extends(b, c),
    ensures
        extends(a, c),
{
    assert(c.findings.subrange(0, a.findings.len() as int) =~= b.findings.subrange(
        0,
        a.findings.len() as int,
    ));
}

/// Recording a finding only adds to the context.
pub proof fn lemma_record_extends(
    ctx: ContextView,
    message: Seq<char>,
    conditions: Seq<ConditionView>,
)
    ensures
        extends(ctx, ctx.record(message, conditions)),
        ctx.record(message, conditions).inside_compound == ctx.inside_compound,
        ctx.record(message, conditions).declared_functions == ctx.declared_functions,
{
    assert(ctx.record(message, conditions).findings.subrange(0, ctx.findings.len() as int)
        =~= ctx.findings);
}

/// A walk that goes on after a walk that did not stop is a walk from where
/// the first began.
pub proof fn lemma_follows_chain(a: ContextView, stack: Seq<Seq<char>>, first: Walk, second: Walk)
    requires
        follows(a, stack, first),
        first.error is None,
        follows(first.ctx, stack, second),
    ensures
        follows(a, stack, second),
{
    lemma_extends_transitive(a, first.ctx, second.ctx);
}

/// Classifying redirections only records findings.
pub proof fn lemma_redirs_follow(
    redirs: Seq<Redir>,
    n: nat,
    stack: Seq<Seq<char>>,
    ctx: ContextView,
)
    ensures
        follows(ctx, stack, Walk::ok(walk_redirs(redirs, n, ctx))),
        walk_redirs(redirs, n, ctx).declared_functions == ctx.declared_functions,
    decreases n,
{
    if n == 0 || n > redirs.len() {
        lemma_extends_reflexive(ctx);
    } else {
        lemma_redirs_follow(redirs, (n - 1) as nat, stack, ctx);
        let before = walk_redirs(redirs, (n - 1) as nat, ctx);
        match redir_finding(redirs[n - 1]) {
            Some(message) => {
                lemma_record_extends(before, message, Seq::empty());
                lemma_extends_transitive(ctx, before, walk_redir(redirs[n - 1], before));
            },
            None => {},
        }
    }
}

/// Judging an invocation only records findings.
pub proof fn lemma_classify_follows(command: SimpleCommand, stack: Seq<Seq<char>>, ctx: ContextView)
    ensures
        follows(ctx, stack, Walk::ok(classify(command, stack, ctx))),
        classify(command, stack, ctx).declared_functions == ctx.declared_functions,
{
    lemma_extends_reflexive(ctx);
    if command.words@.len() > 0 {
        let first = command.words@[0];
        let guarded = if stack.len() == 0 {
            ctx.record(outside_message(command.text@), Seq::empty())
        } else {
            ctx
        };
        lemma_record_extends(ctx, outside_message(command.text@), Seq::empty());
        lemma_extends_reflexive(guarded);
        lemma_record_extends(
            guarded,
            crate::command::variable_message(first.text@),
            Seq::empty(),
        );
        lemma_record_extends(
            guarded,
            unrecognized_message(command.text@),
            seq![ConditionView::FunctionUndeclared(first.text@)],
        );
        lemma_extends_transitive(ctx, guarded, classify(command, stack, ctx));
    }
}

/// Judging a definition from a nested position records a finding and
/// declares nothing; from any position it only adds to the context.
pub proof fn lemma_define_follows(name: Seq<char>, stack: Seq<Seq<char>>, ctx: ContextView)
    ensures
        follows(ctx, stack, Walk::ok(define(name, stack, ctx))),
        !nested(stack, ctx) ==> define(name, stack, ctx) == ctx.declare(name),
{
    lemma_record_extends(ctx, crate::ast::nested_in_function_message(name, stack), Seq::empty());
    lemma_record_extends(ctx, crate::ast::nested_in_compound_message(name), Seq::empty());
    assert(ctx.declare(name).findings.subrange(0, ctx.findings.len() as int) =~= ctx.findings);
}

/// Every walk through a script follows the context in which it began.
pub proof fn lemma_script_follows(script: Script, stack: Seq<Seq<char>>, ctx: ContextView)
    ensures
        follows(ctx, stack, walk_script(script, stack, ctx)),
    decreases script, 0nat,
{
    lemma_items_follow(script.items@, script.items@.len(), stack, ctx);
}

/// Every walk through statements follows the context in which it began.
pub proof fn lemma_items_follow(items: Seq<Item>, n: nat, stack: Seq<Seq<char>>, ctx: ContextView)
    ensures
        follows(ctx, stack, walk_items(items, n, stack, ctx)),
    decreases items, n,
{
    if n == 0 || n > items.len() {
        lemma_extends_reflexive(ctx);
    } else {
        lemma_items_follow(items, (n - 1) as nat, stack, ctx);
        let before = walk_items(items, (n - 1) as nat, stack, ctx);
        if before.error is None {
            lemma_commands_follow(
                items[n - 1].first.commands@,
                items[n - 1].first.commands@.len(),
                stack,
                before.ctx,
            );
            lemma_follows_chain(ctx, stack, before, walk_items(items, n, stack, ctx));
        }
    }
}

/// Every walk through a pipeline follows the context in which it began.
pub proof fn lemma_commands_follow(
    commands: Seq<Command>,
    n: nat,
    stack: Seq<Seq<char>>,
    ctx: ContextView,
)
    ensures
        follows(ctx, stack, walk_commands(commands, n, stack, ctx)),
    decreases commands, n,
{
    if n == 0 || n > commands.len() {
        lemma_extends_reflexive(ctx);
    } else {
        lemma_commands_follow(commands, (n - 1) as nat, stack, ctx);
        let before = walk_commands(commands, (n - 1) as nat, stack, ctx);
        if before.error is None {
            lemma_command_follows(commands[n - 1], stack, before.ctx);
            lemma_follows_chain(ctx, stack, before, walk_commands(commands, n, stack, ctx));
        }
    }
}

/// Every walk through a command follows the context in which it began.
pub proof fn lemma_command_follows(command: Command, stack: Seq<Seq<char>>, ctx: ContextView)
    ensures
        follows(ctx, stack, walk_command(command, stack, ctx)),
    decreases command, 0nat,
{
    match command {
        Command::Function(function) => {
            let defined = define(function.name@, stack, ctx);
            lemma_define_follows(function.name@, stack, ctx);
            lemma_compound_follows(function.body, stack.push(function.name@), defined);
            lemma_extends_transitive(ctx, defined, walk_command(command, stack, ctx).ctx);
        },
        Command::Simple(simple) => {
            lemma_simple_follows(simple, stack, ctx);
        },
        Command::Compound(compound) => {
            lemma_compound_follows(compound.command, stack, ctx);
            let inner = walk_compound(compound.command, stack, ctx);
            if inner.error is None {
                lemma_redirs_follow(compound.redirs@, compound.redirs@.len(), stack, inner.ctx);
                lemma_follows_chain(ctx, stack, inner, walk_command(command, stack, ctx));
            }
        },
    }
}

/// Every walk through a compound command follows the context in which it
/// began, and declares no function wherever it began.
pub proof fn lemma_compound_follows(
    compound: CompoundCommand,
    stack: Seq<Seq<char>>,
    ctx: ContextView,
)
    ensures
        follows(ctx, stack, walk_compound(compound, stack, ctx)),
        walk_compound(compound, stack, ctx).ctx.declared_functions == ctx.declared_functions,
    decreases compound, 1nat,
{
    lemma_extends_reflexive(ctx);
    if ctx.inside_compound < usize::MAX {
        lemma_bodies_follow(compound, stack, ctx.enter());
        let inner = walk_bodies(compound, stack, ctx.enter());
        assert(extends(ctx, ctx.enter())) by {
            assert(ctx.enter().findings.subrange(0, ctx.findings.len() as int) =~= ctx.findings);
        }
        lemma_extends_transitive(ctx, ctx.enter(), inner.ctx);
        if inner.error is None {
            assert(extends(inner.ctx, inner.ctx.leave())) by {
                assert(inner.ctx.leave().findings.subrange(0, inner.ctx.findings.len() as int)
                    =~= inner.ctx.findings);
            }
            lemma_extends_transitive(ctx, inner.ctx, inner.ctx.leave());
        }
    }
}

/// Every walk through the statement lists of a compound command follows the
/// context in which it began.
pub proof fn lemma_bodies_follow(compound: CompoundCommand, stack: Seq<Seq<char>>, ctx: ContextView)
    ensures
        follows(ctx, stack, walk_bodies(compound, stack, ctx)),
    decreases compound, 0nat,
{
    match compound {
        CompoundCommand::Grouping(body) => lemma_script_follows(body, stack, ctx),
        CompoundCommand::Subshell { body } => lemma_script_follows(body, stack, ctx),
        CompoundCommand::For { body } => lemma_script_follows(body, stack, ctx),
        CompoundCommand::While { condition, body } => {
            lemma_script_follows(condition, stack, ctx);
            let tested = walk_script(condition, stack, ctx);
            if tested.error is None {
                lemma_script_follows(body, stack, tested.ctx);
                lemma_follows_chain(ctx, stack, tested, walk_script(body, stack, tested.ctx));
            }
        },
        CompoundCommand::Until { condition, body } => {
            lemma_script_follows(condition, stack, ctx);
            let tested = walk_script(condition, stack, ctx);
            if tested.error is None {
                lemma_script_follows(body, stack, tested.ctx);
                lemma_follows_chain(ctx, stack, tested, walk_script(body, stack, tested.ctx));
            }
        },
        CompoundCommand::If { condition, body, elifs, otherwise } => {
            lemma_script_follows(condition, stack, ctx);
            let tested = walk_script(condition, stack, ctx);
            if tested.error is None {
                lemma_script_follows(body, stack, tested.ctx);
                let taken = walk_script(body, stack, tested.ctx);
                lemma_follows_chain(ctx, stack, tested, taken);
                if taken.error is None {
                    lemma_elifs_follow(elifs@, elifs@.len(), stack, taken.ctx);
                    let chained = walk_elifs(elifs@, elifs@.len(), stack, taken.ctx);
                    lemma_follows_chain(ctx, stack, taken, chained);
                    if chained.error is None {
                        match otherwise {
                            Some(last) => {
                                lemma_script_follows(last, stack, chained.ctx);
                                lemma_follows_chain(
                                    ctx,
                                    stack,
                                    chained,
                                    walk_script(last, stack, chained.ctx),
                                );
                            },
                            None => {},
                        }
                    }
                }
            }
        },
        CompoundCommand::Case { items } => lemma_case_items_follow(items@, items@.len(), stack, ctx),
    }
}

/// Every walk through `elif` clauses follows the context in which it began.
pub proof fn lemma_elifs_follow(
    elifs: Seq<ElifThen>,
    n: nat,
    stack: Seq<Seq<char>>,
    ctx: ContextView,
)
    ensures
        follows(ctx, stack, walk_elifs(elifs, n, stack, ctx)),
    decreases elifs, n,
{
    if n == 0 || n > elifs.len() {
        lemma_extends_reflexive(ctx);
    } else {
        lemma_elifs_follow(elifs, (n - 1) as nat, stack, ctx);
        let before = walk_elifs(elifs, (n - 1) as nat, stack, ctx);
        if before.error is None {
            lemma_script_follows(elifs[n - 1].condition, stack, before.ctx);
            let tested = walk_script(elifs[n - 1].condition, stack, before.ctx);
            lemma_follows_chain(ctx, stack, before, tested);
            if tested.error is None {
                lemma_script_follows(elifs[n - 1].body, stack, tested.ctx);
                lemma_follows_chain(ctx, stack, tested, walk_elifs(elifs, n, stack, ctx));
            }
        }
    }
}

/// Every walk through `case` arms follows the context in which it began.
pub proof fn lemma_case_items_follow(
    items: Seq<CaseItem>,
    n: nat,
    stack: Seq<Seq<char>>,
    ctx: ContextView,
)
    ensures
        follows(ctx, stack, walk_case_items(items, n, stack, ctx)),
    decreases items, n,
{
    if n == 0 || n > items.len() {
        lemma_extends_reflexive(ctx);
    } else {
        lemma_case_items_follow(items, (n - 1) as nat, stack, ctx);
        let before = walk_case_items(items, (n - 1) as nat, stack, ctx);
        if before.error is None {
            lemma_script_follows(items[n - 1].body, stack, before.ctx);
            lemma_follows_chain(ctx, stack, before, walk_case_items(items, n, stack, ctx));
        }
    }
}

/// Every walk through a substitution follows the context in which it began.
pub proof fn lemma_substitution_follows(
    substitution: Substitution,
    stack: Seq<Seq<char>>,
    ctx: ContextView,
)
    ensures
        follows(ctx, stack, walk_substitution(substitution, stack, ctx)),
    decreases substitution, 0nat,
{
    match substitution {
        Substitution::Parsed(script) => lemma_script_follows(script, stack, ctx),
        Substitution::Invalid(_) => lemma_extends_reflexive(ctx),
    }
}

/// Every scan of a text unit follows the context in which it began.
pub proof fn lemma_text_unit_follows(unit: TextUnit, stack: Seq<Seq<char>>, ctx: ContextView)
    ensures
        follows(ctx, stack, scan_text_unit(unit, stack, ctx)),
    decreases unit, 0nat,
{
    match unit {
        TextUnit::CommandSubst(substitution) => lemma_substitution_follows(substitution, stack, ctx),
        TextUnit::Backquote(substitution) => lemma_substitution_follows(substitution, stack, ctx),
        _ => lemma_extends_reflexive(ctx),
    }
}

/// Every scan of text units follows the context in which it began.
pub proof fn lemma_text_units_follow(
    units: Seq<TextUnit>,
    n: nat,
    stack: Seq<Seq<char>>,
    ctx: ContextView,
)
    ensures
        follows(ctx, stack, scan_text_units(units, n, stack, ctx)),
    decreases units, n,
{
    if n == 0 || n > units.len() {
        lemma_extends_reflexive(ctx);
    } else {
        lemma_text_units_follow(units, (n - 1) as nat, stack, ctx);
        let before = scan_text_units(units, (n - 1) as nat, stack, ctx);
        if before.error is None {
            lemma_text_unit_follows(units[n - 1], stack, before.ctx);
            lemma_follows_chain(ctx, stack, before, scan_text_units(units, n, stack, ctx));
        }
    }
}

/// Every scan of a word unit follows the context in which it began.
pub proof fn lemma_word_unit_follows(unit: WordUnit, stack: Seq<Seq<char>>, ctx: ContextView)
    ensures
        follows(ctx, stack, scan_word_unit(unit, stack, ctx)),
    decreases unit, 0nat,
{
    match unit {
        WordUnit::Unquoted(text) => lemma_text_unit_follows(text, stack, ctx),
        WordUnit::DoubleQuote(content) => lemma_text_units_follow(
            content@,
            content@.len(),
            stack,
            ctx,
        ),
        _ => lemma_extends_reflexive(ctx),
    }
}

/// Every scan of word units follows the context in which it began.
pub proof fn lemma_word_units_follow(
    units: Seq<WordUnit>,
    n: nat,
    stack: Seq<Seq<char>>,
    ctx: ContextView,
)
    ensures
        follows(ctx, stack, scan_word_units(units, n, stack, ctx)),
    decreases units, n,
{
    if n == 0 || n > units.len() {
        lemma_extends_reflexive(ctx);
    } else {
        lemma_word_units_follow(units, (n - 1) as nat, stack, ctx);
        let before = scan_word_units(units, (n - 1) as nat, stack, ctx);
        if before.error is None {
            lemma_word_unit_follows(units[n - 1], stack, before.ctx);
            lemma_follows_chain(ctx, stack, before, scan_word_units(units, n, stack, ctx));
        }
    }
}

/// Every scan of a word follows the context in which it began.
pub proof fn lemma_word_follows(word: Word, stack: Seq<Seq<char>>, ctx: ContextView)
    ensures
        follows(ctx, stack, scan_word(word, stack, ctx)),
    decreases word, 0nat,
{
    lemma_word_units_follow(word.units@, word.units@.len(), stack, ctx);
}

/// Every scan of words follows the context in which it began.
pub proof fn lemma_words_follow(words: Seq<Word>, n: nat, stack: Seq<Seq<char>>, ctx: ContextView)
    ensures
        follows(ctx, stack, scan_words(words, n, stack, ctx)),
    decreases words, n,
{
    if n == 0 || n > words.len() {
        lemma_extends_reflexive(ctx);
    } else {
        lemma_words_follow(words, (n - 1) as nat, stack, ctx);
        let before = scan_words(words, (n - 1) as nat, stack, ctx);
        if before.error is None {
            lemma_word_follows(words[n - 1], stack, before.ctx);
            lemma_follows_chain(ctx, stack, before, scan_words(words, n, stack, ctx));
        }
    }
}

/// Every scan of an assignment follows the context in which it began.
pub proof fn lemma_assign_follows(assign: Assign, stack: Seq<Seq<char>>, ctx: ContextView)
    ensures
        follows(ctx, stack, scan_assign(assign, stack, ctx)),
    decreases assign, 0nat,
{
    match assign.value {
        Value::Scalar(word) => lemma_word_follows(word, stack, ctx),
        Value::Array(words) => lemma_words_follow(words@, words@.len(), stack, ctx),
    }
}

/// Every scan of assignments follows the context in which it began.
pub proof fn lemma_assigns_follow(
    assigns: Seq<Assign>,
    n: nat,
    stack: Seq<Seq<char>>,
    ctx: ContextView,
)
    ensures
        follows(ctx, stack, scan_assigns(assigns, n, stack, ctx)),
    decreases assigns, n,
{
    if n == 0 || n > assigns.len() {
        lemma_extends_reflexive(ctx);
    } else {
        lemma_assigns_follow(assigns, (n - 1) as nat, stack, ctx);
        let before = scan_assigns(assigns, (n - 1) as nat, stack, ctx);
        if before.error is None {
            lemma_assign_follows(assigns[n - 1], stack, before.ctx);
            lemma_follows_chain(ctx, stack, before, scan_assigns(assigns, n, stack, ctx));
        }
    }
}

/// Every invocation follows the context in which it began.
pub proof fn lemma_invocation_follows(
    command: SimpleCommand,
    stack: Seq<Seq<char>>,
    ctx: ContextView,
)
    ensures
        follows(ctx, stack, walk_invocation(command, stack, ctx)),
    decreases command, 0nat,
{
    match subshell_substitution(command) {
        Some(substitution) => {
            lemma_substitution_follows(substitution, stack, ctx);
        },
        None => {
            lemma_classify_follows(command, stack, ctx);
        },
    }
}

/// Every walk through a simple command follows the context in which it began.
pub proof fn lemma_simple_follows(command: SimpleCommand, stack: Seq<Seq<char>>, ctx: ContextView)
    ensures
        follows(ctx, stack, walk_simple(command, stack, ctx)),
    decreases command, 1nat,
{
    lemma_assigns_follow(command.assigns@, command.assigns@.len(), stack, ctx);
    let assigned = scan_assigns(command.assigns@, command.assigns@.len(), stack, ctx);
    if assigned.error is None {
        lemma_words_follow(command.words@, command.words@.len(), stack, assigned.ctx);
        let scanned = scan_words(command.words@, command.words@.len(), stack, assigned.ctx);
        lemma_follows_chain(ctx, stack, assigned, scanned);
        if scanned.error is None {
            lemma_invocation_follows(command, stack, scanned.ctx);
            let invoked = walk_invocation(command, stack, scanned.ctx);
            lemma_follows_chain(ctx, stack, scanned, invoked);
            if invoked.error is None {
                lemma_redirs_follow(command.redirs@, command.redirs@.len(), stack, invoked.ctx);
                lemma_follows_chain(ctx, stack, invoked, walk_simple(command, stack, ctx));
            }
        }
    }
}

/// An audit is a function of the script and of the context in which it
/// starts: two runs give the same findings in the same order, or the same
/// error.
pub proof fn lemma_audit_deterministic(
    script: Script,
    ctx: ContextView,
    first: Result<Vec<String>, Error>,
    second: Result<Vec<String>, Error>,
)
    requires
        agrees(first, audit(script, ctx)),
        agrees(second, audit(script, ctx)),
    ensures
        match (first, second) {
            (Ok(a), Ok(b)) => views(a@) == views(b@),
            (Err(a), Err(b)) => a@ == b@,
            _ => false,
        },
{
}

/// The finding for a file opened for writing, always reported.
pub open spec fn file_write_finding(path: Seq<char>) -> FindingView {
    FindingView { message: file_write_message(path), conditions: Seq::empty() }
}

/// Writing or appending to `/dev/null` gives no finding; writing or
/// appending to any other path gives exactly one, which names the path.
pub proof fn lemma_write_to_file(redir: Redir, ctx: ContextView)
    requires
        redir.body matches RedirBody::Normal { operator, .. } && (operator == RedirOp::FileOut
            || operator == RedirOp::FileAppend),
    ensures
        redir.body->operand.text@ == "/dev/null"@ ==> walk_redir(redir, ctx) == ctx,
        redir.body->operand.text@ != "/dev/null"@ ==> walk_redir(redir, ctx).findings
            == ctx.findings.push(file_write_finding(redir.body->operand.text@)),
        redir.body->operand.text@ != "/dev/null"@ ==> walk_redir(redir, ctx) == ctx.record(
            file_write_message(redir.body->operand.text@),
            Seq::empty(),
        ),
{
}

/// The finding for a command that runs outside every function, always reported.
pub open spec fn outside_finding(command: Seq<char>) -> FindingView {
    FindingView { message: outside_message(command), conditions: Seq::empty() }
}

/// Whether `finding` is among the findings that `after` holds and `before` does not.
pub open spec fn added(before: ContextView, after: ContextView, finding: FindingView) -> bool {
    exists|i: int|
        before.findings.len() <= i < after.findings.len() && #[trigger] after.findings[i] == finding
}

/// A finding added up to some point of a walk is a finding added up to any
/// later point.
pub proof fn lemma_added_stays(
    before: ContextView,
    middle: ContextView,
    after: ContextView,
    finding: FindingView,
)
    requires
        extends(before, middle),
        extends(middle, after),
        added(before, middle, finding),
    ensures
        added(before, after, finding),
{
    let i = choose|i: int|
        before.findings.len() <= i < middle.findings.len() && #[trigger] middle.findings[i]
            == finding;
    assert(after.findings.subrange(0, middle.findings.len() as int)[i] == after.findings[i]);
}

/// A simple command outside every function that invokes a command gives the
/// finding "function call outside of any function", whatever the trust
/// catalog holds, unless the walk stops.
pub proof fn lemma_top_level_guard(command: SimpleCommand, ctx: ContextView)
    requires
        command.words@.len() > 0,
        subshell_substitution(command) is None,
        walk_simple(command, Seq::empty(), ctx).error is None,
    ensures
        added(ctx, walk_simple(command, Seq::empty(), ctx).ctx, outside_finding(command.text@)),
{
    let stack = Seq::<Seq<char>>::empty();
    lemma_assigns_follow(command.assigns@, command.assigns@.len(), stack, ctx);
    let assigned = scan_assigns(command.assigns@, command.assigns@.len(), stack, ctx);
    lemma_words_follow(command.words@, command.words@.len(), stack, assigned.ctx);
    let scanned = scan_words(command.words@, command.words@.len(), stack, assigned.ctx);
    lemma_extends_transitive(ctx, assigned.ctx, scanned.ctx);
    let guarded = scanned.ctx.record(outside_message(command.text@), Seq::empty());
    let judged = classify(command, stack, scanned.ctx);
    lemma_record_extends(scanned.ctx, outside_message(command.text@), Seq::empty());
    assert(guarded.findings[scanned.ctx.findings.len() as int] == outside_finding(command.text@));
    assert(added(scanned.ctx, guarded, outside_finding(command.text@)));
    assert(extends(guarded, judged)) by {
        let first = command.words@[0];
        lemma_extends_reflexive(guarded);
        lemma_record_extends(guarded, crate::command::variable_message(first.text@), Seq::empty());
        lemma_record_extends(
            guarded,
            unrecognized_message(command.text@),
            seq![ConditionView::FunctionUndeclared(first.text@)],
        );
    }
    lemma_added_stays(scanned.ctx, guarded, judged, outside_finding(command.text@));
    let last = walk_redirs(command.redirs@, command.redirs@.len(), judged);
    lemma_redirs_follow(command.redirs@, command.redirs@.len(), stack, judged);
    lemma_classify_follows(command, stack, scanned.ctx);
    lemma_added_stays(scanned.ctx, judged, last, outside_finding(command.text@));
    let i = choose|i: int|
        scanned.ctx.findings.len() <= i < last.findings.len() && #[trigger] last.findings[i]
            == outside_finding(command.text@);
    assert(ctx.findings.len() <= i);
}

/// The finding for a call of `name` that the trust catalog does not hold:
/// reported unless `name` is declared when the walk has ended.
pub open spec fn unrecognized_finding(command: Seq<char>, name: Seq<char>) -> FindingView {
    FindingView {
        message: unrecognized_message(command),
        conditions: seq![ConditionView::FunctionUndeclared(name)],
    }
}

/// A command whose name is written out and is not in the trust catalog
/// gives the deferred finding "running unrecognized command".
pub proof fn lemma_call_is_deferred(command: SimpleCommand, stack: Seq<Seq<char>>, ctx: ContextView)
    requires
        command.words@.len() > 0,
        !crate::command::word_dynamic(command.words@[0]),
        !ctx.trusted_commands.contains(command.words@[0].text@),
    ensures
        added(
            ctx,
            classify(command, stack, ctx),
            unrecognized_finding(command.text@, command.words@[0].text@),
        ),
{
    let judged = classify(command, stack, ctx);
    assert(judged.findings[judged.findings.len() - 1] == unrecognized_finding(
        command.text@,
        command.words@[0].text@,
    ));
}

/// A function defined outside every function and every compound command is
/// declared, and nothing else is: what is defined inside its body is not.
pub proof fn lemma_valid_definition_declares(
    function: crate::syntax::FunctionDefinition,
    ctx: ContextView,
)
    requires
        ctx.inside_compound == 0,
    ensures
        walk_command(Command::Function(function), Seq::empty(), ctx).ctx.declared_functions
            == ctx.declared_functions.insert(function.name@),
{
    let stack = Seq::<Seq<char>>::empty();
    lemma_define_follows(function.name@, stack, ctx);
    lemma_compound_follows(function.body, stack.push(function.name@), define(function.name@, stack, ctx));
}

/// From inside a function or a compound command no walk declares a
/// function: the definitions there are findings.
pub proof fn lemma_nested_walk_declares_nothing(
    script: Script,
    stack: Seq<Seq<char>>,
    ctx: ContextView,
)
    requires
        nested(stack, ctx),
    ensures
        walk_script(script, stack, ctx).ctx.declared_functions == ctx.declared_functions,
{
    lemma_script_follows(script, stack, ctx);
}

/// A function defined inside a function or a compound command is not
/// declared by that definition.
pub proof fn lemma_nested_definition_declares_nothing(
    function: crate::syntax::FunctionDefinition,
    stack: Seq<Seq<char>>,
    ctx: ContextView,
)
    requires
        nested(stack, ctx),
    ensures
        walk_command(Command::Function(function), stack, ctx).ctx.declared_functions
            == ctx.declared_functions,
{
    lemma_command_follows(Command::Function(function), stack, ctx);
}

/// A deferred finding for a call of `name` stays where it was recorded to
/// the end of the walk, and is reported there if and only if `name` is not
/// declared at the end: a declaration that comes after the call counts.
pub proof fn lemma_forward_reference(
    recorded: ContextView,
    last: ContextView,
    i: int,
    command: Seq<char>,
    name: Seq<char>,
)
    requires
        extends(recorded, last),
        0 <= i < recorded.findings.len(),
        recorded.findings[i] == unrecognized_finding(command, name),
    ensures
        last.findings[i] == unrecognized_finding(command, name),
        last.findings[i].reported(last) <==> !last.declared_functions.contains(name),
{
    assert(last.findings.subrange(0, recorded.findings.len() as int)[i] == last.findings[i]);
    let finding = unrecognized_finding(command, name);
    assert(finding.conditions.len() == 1);
    assert(finding.conditions[0] == ConditionView::FunctionUndeclared(name));
}

/// The report holds a message if and only if a finding with that message is
/// reported; and it holds no more messages than there are findings.
pub proof fn lemma_report_members(ctx: ContextView, last: ContextView, n: nat, message: Seq<char>)
    requires
        n <= ctx.findings.len(),
    ensures
        ctx.resolve(last, n).len() <= n,
        ctx.resolve(last, n).contains(message) <==> exists|i: int|
            0 <= i < n && (#[trigger] ctx.findings[i]).message == message && ctx.findings[i].reported(
                last,
            ),
    decreases n,
{
    if n > 0 {
        let shorter = ctx.resolve(last, (n - 1) as nat);
        lemma_report_members(ctx, last, (n - 1) as nat, message);
        let longer = ctx.resolve(last, n);
        if ctx.findings[n - 1].reported(last) {
            assert(longer == shorter.push(ctx.findings[n - 1].message));
            if longer.contains(message) {
                let k = choose|k: int| 0 <= k < longer.len() && longer[k] == message;
                if k < shorter.len() {
                    assert(shorter[k] == message);
                    assert(shorter.contains(message));
                }
            }
            if shorter.contains(message) {
                let k = choose|k: int| 0 <= k < shorter.len() && shorter[k] == message;
                assert(longer[k] == message);
            }
            if ctx.findings[n - 1].message == message {
                assert(longer[longer.len() - 1] == message);
            }
        }
    }
}

/// A longer walk through a pipeline follows every shorter one, and does not
/// stop unless the shorter one goes on.
pub proof fn lemma_commands_grow(
    commands: Seq<Command>,
    m: nat,
    n: nat,
    stack: Seq<Seq<char>>,
    ctx: ContextView,
)
    requires
        m <= n <= commands.len(),
    ensures
        extends(walk_commands(commands, m, stack, ctx).ctx, walk_commands(commands, n, stack, ctx).ctx),
        walk_commands(commands, n, stack, ctx).error is None ==> walk_commands(
            commands,
            m,
            stack,
            ctx,
        ).error is None,
    decreases n,
{
    let shorter = walk_commands(commands, m, stack, ctx);
    if m == n {
        lemma_extends_reflexive(shorter.ctx);
    } else {
        lemma_commands_grow(commands, m, (n - 1) as nat, stack, ctx);
        let before = walk_commands(commands, (n - 1) as nat, stack, ctx);
        if before.error is None {
            lemma_command_follows(commands[n - 1], stack, before.ctx);
            lemma_extends_transitive(
                shorter.ctx,
                before.ctx,
                walk_commands(commands, n, stack, ctx).ctx,
            );
        }
    }
}

/// A longer walk through statements follows every shorter one, and does not
/// stop unless the shorter one goes on.
pub proof fn lemma_items_grow(
    items: Seq<Item>,
    m: nat,
    n: nat,
    stack: Seq<Seq<char>>,
    ctx: ContextView,
)
    requires
        m <= n <= items.len(),
    ensures
        extends(walk_items(items, m, stack, ctx).ctx, walk_items(items, n, stack, ctx).ctx),
        walk_items(items, n, stack, ctx).error is None ==> walk_items(items, m, stack, ctx).error is None,
    decreases n,
{
    let shorter = walk_items(items, m, stack, ctx);
    if m == n {
        lemma_extends_reflexive(shorter.ctx);
    } else {
        lemma_items_grow(items, m, (n - 1) as nat, stack, ctx);
        let before = walk_items(items, (n - 1) as nat, stack, ctx);
        if before.error is None {
            lemma_commands_follow(
                items[n - 1].first.commands@,
                items[n - 1].first.commands@.len(),
                stack,
                before.ctx,
            );
            lemma_extends_transitive(shorter.ctx, before.ctx, walk_items(items, n, stack, ctx).ctx);
        }
    }
}

/// A function defined by a command of a statement of the script itself,
/// outside every function and compound command, is declared when the walk
/// has ended, wherever in the script the definition stands: before or after
/// the calls.
pub proof fn lemma_top_level_definition_is_declared(
    script: Script,
    ctx: ContextView,
    k: int,
    j: int,
)
    requires
        ctx.inside_compound == 0,
        0 <= k < script.items@.len(),
        0 <= j < script.items@[k].first.commands@.len(),
        script.items@[k].first.commands@[j] is Function,
        walk_script(script, Seq::empty(), ctx).error is None,
    ensures
        walk_script(script, Seq::empty(), ctx).ctx.declared_functions.contains(
            script.items@[k].first.commands@[j]->Function_0.name@,
        ),
{
    let stack = Seq::<Seq<char>>::empty();
    let items = script.items@;
    let commands = items[k].first.commands@;
    let function = commands[j]->Function_0;
    let last = walk_script(script, stack, ctx);

    lemma_items_grow(items, k as nat, items.len(), stack, ctx);
    lemma_items_grow(items, (k + 1) as nat, items.len(), stack, ctx);
    let reached = walk_items(items, k as nat, stack, ctx);
    lemma_items_follow(items, k as nat, stack, ctx);
    assert(reached.error is None);
    assert(reached.ctx.inside_compound == 0);

    let whole = walk_commands(commands, commands.len(), stack, reached.ctx);
    assert(whole == walk_items(items, (k + 1) as nat, stack, ctx));
    assert(whole.error is None);
    lemma_commands_grow(commands, j as nat, commands.len(), stack, reached.ctx);
    lemma_commands_grow(commands, (j + 1) as nat, commands.len(), stack, reached.ctx);
    let before = walk_commands(commands, j as nat, stack, reached.ctx);
    lemma_commands_follow(commands, j as nat, stack, reached.ctx);
    assert(before.error is None);
    assert(before.ctx.inside_compound == 0);

    lemma_valid_definition_declares(function, before.ctx);
    let defined = walk_commands(commands, (j + 1) as nat, stack, reached.ctx);
    assert(defined == walk_command(commands[j], stack, before.ctx));
    assert(defined.ctx.declared_functions.contains(function.name@));
    assert(whole.ctx.declared_functions.contains(function.name@));
    assert(last.ctx.declared_functions.contains(function.name@));
}

/// A call of a function that the script itself defines at its top level is
/// not reported as an unrecognized command, whether the call stands before
/// the definition or after it.
pub proof fn lemma_call_of_declared_function_is_not_reported(
    script: Script,
    ctx: ContextView,
    k: int,
    j: int,
    i: int,
    command: Seq<char>,
)
    requires
        ctx.inside_compound == 0,
        0 <= k < script.items@.len(),
        0 <= j < script.items@[k].first.commands@.len(),
        script.items@[k].first.commands@[j] is Function,
        walk_script(script, Seq::empty(), ctx).error is None,
        0 <= i < walk_script(script, Seq::empty(), ctx).ctx.findings.len(),
        walk_script(script, Seq::empty(), ctx).ctx.findings[i] == unrecognized_finding(
            command,
            script.items@[k].first.commands@[j]->Function_0.name@,
        ),
    ensures
        !walk_script(script, Seq::empty(), ctx).ctx.findings[i].reported(
            walk_script(script, Seq::empty(), ctx).ctx,
        ),
{
    let last = walk_script(script, Seq::empty(), ctx).ctx;
    lemma_top_level_definition_is_declared(script, ctx, k, j);
    lemma_extends_reflexive(last);
    lemma_forward_reference(last, last, i, command, script.items@[k].first.commands@[j]->Function_0.name@);
}

/// A finding without conditions is reported, whatever the walk declared.
pub proof fn lemma_unconditional_is_reported(ctx: ContextView, i: int)
    requires
        0 <= i < ctx.findings.len(),
        ctx.findings[i].conditions.len() == 0,
    ensures
        ctx.report().contains(ctx.findings[i].message),
{
    lemma_report_members(ctx, ctx, ctx.findings.len(), ctx.findings[i].message);
}

/// The two catalogs of the default trust catalog share no name.
pub proof fn lemma_default_catalogs_disjoint()
    ensures
        crate::names_of(crate::command::REASONABLE_BINARIES@).disjoint(
            crate::names_of(crate::command::REASONABLE_BUILTINS@),
        ),
{
    crate::command::lemma_catalogs_disjoint();
}

/// Whether two lists of statements agree in the first pipeline of every statement.
pub open spec fn same_first_pipelines(a: Seq<Item>, b: Seq<Item>) -> bool {
    &&& a.len() == b.len()
    &&& forall|i: int| 0 <= i < a.len() ==> (#[trigger] a[i]).first.commands@ == b[i].first.commands@
}

/// Only the first pipeline of a statement is inspected: statements that
/// differ only in what follows `&&` and `||` are walked alike.
pub proof fn lemma_later_pipelines_are_passed_over(
    a: Seq<Item>,
    b: Seq<Item>,
    n: nat,
    stack: Seq<Seq<char>>,
    ctx: ContextView,
)
    requires
        same_first_pipelines(a, b),
    ensures
        walk_items(a, n, stack, ctx) == walk_items(b, n, stack, ctx),
    decreases n,
{
    if n > 0 && n <= a.len() {
        lemma_later_pipelines_are_passed_over(a, b, (n - 1) as nat, stack, ctx);
        assert(a[n - 1].first.commands@ == b[n - 1].first.commands@);
    }
}

/// Two scripts that agree in the first pipeline of every statement give the
/// same audit.
pub proof fn lemma_audit_reads_first_pipelines(a: Script, b: Script, ctx: ContextView)
    requires
        same_first_pipelines(a.items@, b.items@),
    ensures
        audit(a, ctx) == audit(b, ctx),
{
    lemma_later_pipelines_are_passed_over(a.items@, b.items@, a.items@.len(), Seq::empty(), ctx);
}

/// The finding for input from a file on a descriptor other than standard
/// input, always reported.
pub open spec fn file_input_finding(fd: int) -> FindingView {
    FindingView { message: crate::redirect::file_input_message(fd), conditions: Seq::empty() }
}

/// Input from a file gives no finding when no descriptor is written or the
/// written one is standard input; on any other written descriptor it gives
/// exactly one, which ends in the descriptor's number.
pub proof fn lemma_input_from_file(redir: Redir, ctx: ContextView)
    requires
        redir.body matches RedirBody::Normal { operator, .. } && operator == RedirOp::FileIn,
    ensures
        redir.fd is None || redir.fd == Some(0i32) ==> walk_redir(redir, ctx) == ctx,
        redir.fd is Some && redir.fd != Some(0i32) ==> walk_redir(redir, ctx).findings
            == ctx.findings.push(file_input_finding(redir.fd->0 as int)),
{
}

/// Whether a text unit is the substitution, in either of its two forms.
pub open spec fn text_unit_is(unit: TextUnit, substitution: Substitution) -> bool {
    unit == TextUnit::CommandSubst(substitution) || unit == TextUnit::Backquote(substitution)
}

/// Whether a word unit holds the substitution where a scan reaches it:
/// unquoted, or inside double quotes.
pub open spec fn word_unit_holds(unit: WordUnit, substitution: Substitution) -> bool {
    match unit {
        WordUnit::Unquoted(text) => text_unit_is(text, substitution),
        WordUnit::DoubleQuote(content) => exists|t: int|
            0 <= t < content@.len() && text_unit_is(#[trigger] content@[t], substitution),
        _ => false,
    }
}

/// Whether a word holds the substitution where a scan reaches it.
pub open spec fn word_holds(word: Word, substitution: Substitution) -> bool {
    exists|u: int|
        0 <= u < word.units@.len() && word_unit_holds(#[trigger] word.units@[u], substitution)
}

/// Whether the value of an assignment holds the substitution where a scan
/// reaches it: in the scalar, or in an element of the array.
pub open spec fn assign_holds(assign: Assign, substitution: Substitution) -> bool {
    match assign.value {
        Value::Scalar(word) => word_holds(word, substitution),
        Value::Array(words) => exists|e: int|
            0 <= e < words@.len() && word_holds(#[trigger] words@[e], substitution),
    }
}

/// Whether the walk through the script of the substitution is a part of a
/// walk from `from` to `to`: it starts in a context that follows `from`,
/// with the same functions around it, does not stop, and `to` follows the
/// context in which it ends.
pub open spec fn walked_between(
    substitution: Substitution,
    stack: Seq<Seq<char>>,
    from: ContextView,
    to: ContextView,
) -> bool {
    exists|at: ContextView|
        extends(from, at) && (#[trigger] walk_substitution(substitution, stack, at)).error is None
            && extends(walk_substitution(substitution, stack, at).ctx, to)
}

/// A part of a walk is a part of every walk that holds that walk.
pub proof fn lemma_walked_between_widens(
    substitution: Substitution,
    stack: Seq<Seq<char>>,
    from: ContextView,
    inner_from: ContextView,
    inner_to: ContextView,
    to: ContextView,
)
    requires
        extends(from, inner_from),
        walked_between(substitution, stack, inner_from, inner_to),
        extends(inner_to, to),
    ensures
        walked_between(substitution, stack, from, to),
{
    let at = choose|at: ContextView|
        extends(inner_from, at) && (#[trigger] walk_substitution(substitution, stack, at)).error is None
            && extends(walk_substitution(substitution, stack, at).ctx, inner_to);
    lemma_extends_transitive(from, inner_from, at);
    lemma_extends_transitive(walk_substitution(substitution, stack, at).ctx, inner_to, to);
}

/// A scan of a text unit that is a substitution is the walk through it.
pub proof fn lemma_text_unit_walks(
    unit: TextUnit,
    substitution: Substitution,
    stack: Seq<Seq<char>>,
    ctx: ContextView,
)
    requires
        text_unit_is(unit, substitution),
        scan_text_unit(unit, stack, ctx).error is None,
    ensures
        scan_text_unit(unit, stack, ctx) == walk_substitution(substitution, stack, ctx),
        walked_between(substitution, stack, ctx, scan_text_unit(unit, stack, ctx).ctx),
{
    lemma_extends_reflexive(ctx);
    lemma_extends_reflexive(walk_substitution(substitution, stack, ctx).ctx);
}

/// A longer scan of text units follows every shorter one, and does not stop
/// unless the shorter one goes on.
pub proof fn lemma_text_units_grow(
    units: Seq<TextUnit>,
    m: nat,
    n: nat,
    stack: Seq<Seq<char>>,
    ctx: ContextView,
)
    requires
        m <= n <= units.len(),
    ensures
        extends(scan_text_units(units, m, stack, ctx).ctx, scan_text_units(units, n, stack, ctx).ctx),
        scan_text_units(units, n, stack, ctx).error is None ==> scan_text_units(units, m, stack, ctx).error is None,
    decreases n,
{
    let shorter = scan_text_units(units, m, stack, ctx);
    if m == n {
        lemma_extends_reflexive(shorter.ctx);
    } else {
        lemma_text_units_grow(units, m, (n - 1) as nat, stack, ctx);
        let before = scan_text_units(units, (n - 1) as nat, stack, ctx);
        if before.error is None {
            lemma_text_unit_follows(units[n - 1], stack, before.ctx);
            lemma_extends_transitive(shorter.ctx, before.ctx, scan_text_units(units, n, stack, ctx).ctx);
        }
    }
}

/// A scan of text units that does not stop walks every substitution that one
/// of them holds.
pub proof fn lemma_text_units_walk(
    units: Seq<TextUnit>,
    n: nat,
    k: int,
    substitution: Substitution,
    stack: Seq<Seq<char>>,
    ctx: ContextView,
)
    requires
        0 <= k < n <= units.len(),
        text_unit_is(units[k], substitution),
        scan_text_units(units, n, stack, ctx).error is None,
    ensures
        walked_between(substitution, stack, ctx, scan_text_units(units, n, stack, ctx).ctx),
{
    let before = scan_text_units(units, k as nat, stack, ctx);
    let after = scan_text_units(units, (k + 1) as nat, stack, ctx);
    lemma_text_units_grow(units, k as nat, n, stack, ctx);
    lemma_text_units_grow(units, (k + 1) as nat, n, stack, ctx);
    lemma_text_units_follow(units, k as nat, stack, ctx);
    assert(after == scan_text_unit(units[k], stack, before.ctx));
    lemma_text_unit_walks(units[k], substitution, stack, before.ctx);
    lemma_walked_between_widens(
        substitution,
        stack,
        ctx,
        before.ctx,
        after.ctx,
        scan_text_units(units, n, stack, ctx).ctx,
    );
}

/// A scan of a word unit that does not stop walks every substitution that
/// the unit holds.
pub proof fn lemma_word_unit_walks(
    unit: WordUnit,
    substitution: Substitution,
    stack: Seq<Seq<char>>,
    ctx: ContextView,
)
    requires
        word_unit_holds(unit, substitution),
        scan_word_unit(unit, stack, ctx).error is None,
    ensures
        walked_between(substitution, stack, ctx, scan_word_unit(unit, stack, ctx).ctx),
{
    match unit {
        WordUnit::Unquoted(text) => {
            lemma_text_unit_walks(text, substitution, stack, ctx);
        },
        WordUnit::DoubleQuote(content) => {
            let t = choose|t: int|
                0 <= t < content@.len() && text_unit_is(#[trigger] content@[t], substitution);
            lemma_text_units_walk(content@, content@.len(), t, substitution, stack, ctx);
        },
        _ => {},
    }
}

/// A longer scan of word units follows every shorter one, and does not stop
/// unless the shorter one goes on.
pub proof fn lemma_word_units_grow(
    units: Seq<WordUnit>,
    m: nat,
    n: nat,
    stack: Seq<Seq<char>>,
    ctx: ContextView,
)
    requires
        m <= n <= units.len(),
    ensures
        extends(scan_word_units(units, m, stack, ctx).ctx, scan_word_units(units, n, stack, ctx).ctx),
        scan_word_units(units, n, stack, ctx).error is None ==> scan_word_units(units, m, stack, ctx).error is None,
    decreases n,
{
    let shorter = scan_word_units(units, m, stack, ctx);
    if m == n {
        lemma_extends_reflexive(shorter.ctx);
    } else {
        lemma_word_units_grow(units, m, (n - 1) as nat, stack, ctx);
        let before = scan_word_units(units, (n - 1) as nat, stack, ctx);
        if before.error is None {
            lemma_word_unit_follows(units[n - 1], stack, before.ctx);
            lemma_extends_transitive(shorter.ctx, before.ctx, scan_word_units(units, n, stack, ctx).ctx);
        }
    }
}

/// A scan of word units that does not stop walks every substitution that one
/// of them holds.
pub proof fn lemma_word_units_walk(
    units: Seq<WordUnit>,
    n: nat,
    k: int,
    substitution: Substitution,
    stack: Seq<Seq<char>>,
    ctx: ContextView,
)
    requires
        0 <= k < n <= units.len(),
        word_unit_holds(units[k], substitution),
        scan_word_units(units, n, stack, ctx).error is None,
    ensures
        walked_between(substitution, stack, ctx, scan_word_units(units, n, stack, ctx).ctx),
{
    let before = scan_word_units(units, k as nat, stack, ctx);
    let after = scan_word_units(units, (k + 1) as nat, stack, ctx);
    lemma_word_units_grow(units, k as nat, n, stack, ctx);
    lemma_word_units_grow(units, (k + 1) as nat, n, stack, ctx);
    lemma_word_units_follow(units, k as nat, stack, ctx);
    assert(after == scan_word_unit(units[k], stack, before.ctx));
    lemma_word_unit_walks(units[k], substitution, stack, before.ctx);
    lemma_walked_between_widens(
        substitution,
        stack,
        ctx,
        before.ctx,
        after.ctx,
        scan_word_units(units, n, stack, ctx).ctx,
    );
}

/// A scan of a word that does not stop walks every substitution that the
/// word holds.
pub proof fn lemma_word_walks(
    word: Word,
    substitution: Substitution,
    stack: Seq<Seq<char>>,
    ctx: ContextView,
)
    requires
        word_holds(word, substitution),
        scan_word(word, stack, ctx).error is None,
    ensures
        walked_between(substitution, stack, ctx, scan_word(word, stack, ctx).ctx),
{
    let u = choose|u: int|
        0 <= u < word.units@.len() && word_unit_holds(#[trigger] word.units@[u], substitution);
    lemma_word_units_walk(word.units@, word.units@.len(), u, substitution, stack, ctx);
}

/// A longer scan of words follows every shorter one, and does not stop
/// unless the shorter one goes on.
pub proof fn lemma_words_grow(
    units: Seq<Word>,
    m: nat,
    n: nat,
    stack: Seq<Seq<char>>,
    ctx: ContextView,
)
    requires
        m <= n <= units.len(),
    ensures
        extends(scan_words(units, m, stack, ctx).ctx, scan_words(units, n, stack, ctx).ctx),
        scan_words(units, n, stack, ctx).error is None ==> scan_words(units, m, stack, ctx).error is None,
    decreases n,
{
    let shorter = scan_words(units, m, stack, ctx);
    if m == n {
        lemma_extends_reflexive(shorter.ctx);
    } else {
        lemma_words_grow(units, m, (n - 1) as nat, stack, ctx);
        let before = scan_words(units, (n - 1) as nat, stack, ctx);
        if before.error is None {
            lemma_word_follows(units[n - 1], stack, before.ctx);
            lemma_extends_transitive(shorter.ctx, before.ctx, scan_words(units, n, stack, ctx).ctx);
        }
    }
}

/// A scan of words that does not stop walks every substitution that one
/// of them holds.
pub proof fn lemma_words_walk(
    units: Seq<Word>,
    n: nat,
    k: int,
    substitution: Substitution,
    stack: Seq<Seq<char>>,
    ctx: ContextView,
)
    requires
        0 <= k < n <= units.len(),
        word_holds(units[k], substitution),
        scan_words(units, n, stack, ctx).error is None,
    ensures
        walked_between(substitution, stack, ctx, scan_words(units, n, stack, ctx).ctx),
{
    let before = scan_words(units, k as nat, stack, ctx);
    let after = scan_words(units, (k + 1) as nat, stack, ctx);
    lemma_words_grow(units, k as nat, n, stack, ctx);
    lemma_words_grow(units, (k + 1) as nat, n, stack, ctx);
    lemma_words_follow(units, k as nat, stack, ctx);
    assert(after == scan_word(units[k], stack, before.ctx));
    lemma_word_walks(units[k], substitution, stack, before.ctx);
    lemma_walked_between_widens(
        substitution,
        stack,
        ctx,
        before.ctx,
        after.ctx,
        scan_words(units, n, stack, ctx).ctx,
    );
}

/// A scan of an assignment that does not stop walks every substitution
/// that its value holds.
pub proof fn lemma_assign_walks(
    assign: Assign,
    substitution: Substitution,
    stack: Seq<Seq<char>>,
    ctx: ContextView,
)
    requires
        assign_holds(assign, substitution),
        scan_assign(assign, stack, ctx).error is None,
    ensures
        walked_between(substitution, stack, ctx, scan_assign(assign, stack, ctx).ctx),
{
    match assign.value {
        Value::Scalar(word) => {
            lemma_word_walks(word, substitution, stack, ctx);
        },
        Value::Array(words) => {
            let e = choose|e: int|
                0 <= e < words@.len() && word_holds(#[trigger] words@[e], substitution);
            lemma_words_walk(words@, words@.len(), e, substitution, stack, ctx);
        },
    }
}

/// A longer scan of assignments follows every shorter one, and does not stop
/// unless the shorter one goes on.
pub proof fn lemma_assigns_grow(
    units: Seq<Assign>,
    m: nat,
    n: nat,
    stack: Seq<Seq<char>>,
    ctx: ContextView,
)
    requires
        m <= n <= units.len(),
    ensures
        extends(scan_assigns(units, m, stack, ctx).ctx, scan_assigns(units, n, stack, ctx).ctx),
        scan_assigns(units, n, stack, ctx).error is None ==> scan_assigns(units, m, stack, ctx).error is None,
    decreases n,
{
    let shorter = scan_assigns(units, m, stack, ctx);
    if m == n {
        lemma_extends_reflexive(shorter.ctx);
    } else {
        lemma_assigns_grow(units, m, (n - 1) as nat, stack, ctx);
        let before = scan_assigns(units, (n - 1) as nat, stack, ctx);
        if before.error is None {
            lemma_assign_follows(units[n - 1], stack, before.ctx);
            lemma_extends_transitive(shorter.ctx, before.ctx, scan_assigns(units, n, stack, ctx).ctx);
        }
    }
}

/// A scan of assignments that does not stop walks every substitution that one
/// of them holds.
pub proof fn lemma_assigns_walk(
    units: Seq<Assign>,
    n: nat,
    k: int,
    substitution: Substitution,
    stack: Seq<Seq<char>>,
    ctx: ContextView,
)
    requires
        0 <= k < n <= units.len(),
        assign_holds(units[k], substitution),
        scan_assigns(units, n, stack, ctx).error is None,
    ensures
        walked_between(substitution, stack, ctx, scan_assigns(units, n, stack, ctx).ctx),
{
    let before = scan_assigns(units, k as nat, stack, ctx);
    let after = scan_assigns(units, (k + 1) as nat, stack, ctx);
    lemma_assigns_grow(units, k as nat, n, stack, ctx);
    lemma_assigns_grow(units, (k + 1) as nat, n, stack, ctx);
    lemma_assigns_follow(units, k as nat, stack, ctx);
    assert(after == scan_assign(units[k], stack, before.ctx));
    lemma_assign_walks(units[k], substitution, stack, before.ctx);
    lemma_walked_between_widens(
        substitution,
        stack,
        ctx,
        before.ctx,
        after.ctx,
        scan_assigns(units, n, stack, ctx).ctx,
    );
}

/// A substitution in the value of an assignment of a command, unquoted or
/// inside double quotes, is walked as a script of its own, with the
/// functions of the command around it and in the context that the walk has
/// reached there. What it finds stands before everything that the command's
/// words, its invocation and its redirections give: those are judged from
/// the context in which the scan of the assignments ends.
pub proof fn lemma_assigned_substitution_is_walked(
    command: SimpleCommand,
    a: int,
    substitution: Substitution,
    stack: Seq<Seq<char>>,
    ctx: ContextView,
)
    requires
        0 <= a < command.assigns@.len(),
        assign_holds(command.assigns@[a], substitution),
        walk_simple(command, stack, ctx).error is None,
    ensures
        walked_between(
            substitution,
            stack,
            ctx,
            scan_assigns(command.assigns@, command.assigns@.len(), stack, ctx).ctx,
        ),
        extends(
            scan_assigns(command.assigns@, command.assigns@.len(), stack, ctx).ctx,
            walk_simple(command, stack, ctx).ctx,
        ),
        walked_between(substitution, stack, ctx, walk_simple(command, stack, ctx).ctx),
{
    let assigned = scan_assigns(command.assigns@, command.assigns@.len(), stack, ctx);
    lemma_assigns_walk(command.assigns@, command.assigns@.len(), a, substitution, stack, ctx);
    let scanned = scan_words(command.words@, command.words@.len(), stack, assigned.ctx);
    lemma_words_follow(command.words@, command.words@.len(), stack, assigned.ctx);
    let invoked = walk_invocation(command, stack, scanned.ctx);
    lemma_invocation_follows(command, stack, scanned.ctx);
    lemma_redirs_follow(command.redirs@, command.redirs@.len(), stack, invoked.ctx);
    lemma_extends_transitive(assigned.ctx, scanned.ctx, invoked.ctx);
    lemma_extends_transitive(assigned.ctx, invoked.ctx, walk_simple(command, stack, ctx).ctx);
    lemma_extends_reflexive(ctx);
    lemma_walked_between_widens(
        substitution,
        stack,
        ctx,
        ctx,
        assigned.ctx,
        walk_simple(command, stack, ctx).ctx,
    );
}

/// A substitution in a word of a command, unquoted or inside double quotes,
/// is walked as a script of its own before the command is invoked and its
/// redirections are classified.
pub proof fn lemma_word_substitution_is_walked(
    command: SimpleCommand,
    w: int,
    substitution: Substitution,
    stack: Seq<Seq<char>>,
    ctx: ContextView,
)
    requires
        0 <= w < command.words@.len(),
        word_holds(command.words@[w], substitution),
        walk_simple(command, stack, ctx).error is None,
    ensures
        walked_between(substitution, stack, ctx, walk_simple(command, stack, ctx).ctx),
{
    let assigned = scan_assigns(command.assigns@, command.assigns@.len(), stack, ctx);
    lemma_assigns_follow(command.assigns@, command.assigns@.len(), stack, ctx);
    let scanned = scan_words(command.words@, command.words@.len(), stack, assigned.ctx);
    lemma_words_walk(command.words@, command.words@.len(), w, substitution, stack, assigned.ctx);
    let invoked = walk_invocation(command, stack, scanned.ctx);
    lemma_invocation_follows(command, stack, scanned.ctx);
    lemma_redirs_follow(command.redirs@, command.redirs@.len(), stack, invoked.ctx);
    lemma_extends_transitive(scanned.ctx, invoked.ctx, walk_simple(command, stack, ctx).ctx);
    lemma_walked_between_widens(
        substitution,
        stack,
        ctx,
        assigned.ctx,
        scanned.ctx,
        walk_simple(command, stack, ctx).ctx,
    );
}

} // verus!
