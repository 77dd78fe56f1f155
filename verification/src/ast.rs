use crate::command::validate_simple_command;
use crate::command::walk_simple;
use crate::errors::Error;
use crate::errors::ErrorView;
use crate::redirect::validate_redirs;
use crate::redirect::walk_redirs;
use crate::syntax::CaseItem;
use crate::syntax::Command;
use crate::syntax::CompoundCommand;
use crate::syntax::ElifThen;
use crate::syntax::Item;
use crate::syntax::Script;
use crate::text::bracketed;
use crate::text::quote;
use crate::text::quote_list;
use crate::text::quoted;
use crate::text::views;
use crate::Context;
use crate::ContextView;
use crate::Walk;
use vstd::prelude::*;
use vstd::string::StringExecFns;

verus! {

/// The finding for a function defined inside another function.
pub open spec fn nested_in_function_message(name: Seq<char>, stack: Seq<Seq<char>>) -> Seq<char> {
    "Function "@ + quoted(name) + " is defined nested in another function: "@ + bracketed(stack)
}

/// The finding for a function defined inside a compound command.
pub open spec fn nested_in_compound_message(name: Seq<char>) -> Seq<char> {
    "Function "@ + quoted(name) + " is defined nested in a compound (possibly declared conditionally)"@
}

/// The context after the definition of `name` was judged: inside a function
/// it is a finding; else inside a compound command it is another finding;
/// else the function is declared.
pub open spec fn define(name: Seq<char>, stack: Seq<Seq<char>>, ctx: ContextView) -> ContextView {
    if stack.len() > 0 {
        ctx.record(nested_in_function_message(name, stack), Seq::empty())
    } else if ctx.inside_compound != 0 {
        ctx.record(nested_in_compound_message(name), Seq::empty())
    } else {
        ctx.declare(name)
    }
}

/// The walk through a script.
pub open spec fn walk_script(script: Script, stack: Seq<Seq<char>>, ctx: ContextView) -> Walk
    decreases script, 0nat,
{
    walk_items(script.items@, script.items@.len(), stack, ctx)
}

/// The walk through the first `n` statements, in order: of each statement
/// the commands of its first pipeline. The pipelines after `&&` and `||`
/// are not inspected.
pub open spec fn walk_items(
    items: Seq<Item>,
    n: nat,
    stack: Seq<Seq<char>>,
    ctx: ContextView,
) -> Walk
    decreases items, n,
{
    if n == 0 || n > items.len() {
        Walk::ok(ctx)
    } else {
        let before = walk_items(items, (n - 1) as nat, stack, ctx);
        if before.error is Some {
            before
        } else {
            walk_commands(items[n - 1].first.commands@, items[n - 1].first.commands@.len(), stack, before.ctx)
        }
    }
}

/// The walk through the first `n` commands of a pipeline, in order.
pub open spec fn walk_commands(
    commands: Seq<Command>,
    n: nat,
    stack: Seq<Seq<char>>,
    ctx: ContextView,
) -> Walk
    decreases commands, n,
{
    if n == 0 || n > commands.len() {
        Walk::ok(ctx)
    } else {
        let before = walk_commands(commands, (n - 1) as nat, stack, ctx);
        if before.error is Some {
            before
        } else {
            walk_command(commands[n - 1], stack, before.ctx)
        }
    }
}

/// The walk through one command.
pub open spec fn walk_command(command: Command, stack: Seq<Seq<char>>, ctx: ContextView) -> Walk
    decreases command, 0nat,
{
    match command {
        Command::Function(function) => walk_compound(
            function.body,
            stack.push(function.name@),
            define(function.name@, stack, ctx),
        ),
        Command::Simple(simple) => walk_simple(simple, stack, ctx),
        Command::Compound(compound) => {
            let inner = walk_compound(compound.command, stack, ctx);
            if inner.error is Some {
                inner
            } else {
                Walk::ok(walk_redirs(compound.redirs@, compound.redirs@.len(), inner.ctx))
            }
        },
    }
}

/// The walk through a compound command: one level deeper through its
/// statement lists, then back. A walk that stops inside stays at the depth
/// at which it stopped.
pub open spec fn walk_compound(
    compound: CompoundCommand,
    stack: Seq<Seq<char>>,
    ctx: ContextView,
) -> Walk
    decreases compound, 1nat,
{
    if ctx.inside_compound >= usize::MAX {
        Walk::stopped(ctx, ErrorView::Depth)
    } else {
        let inner = walk_bodies(compound, stack, ctx.enter());
        if inner.error is Some {
            inner
        } else {
            Walk::ok(inner.ctx.leave())
        }
    }
}

/// The walk through the statement lists of a compound command, in the order
/// in which they are written.
pub open spec fn walk_bodies(
    compound: CompoundCommand,
    stack: Seq<Seq<char>>,
    ctx: ContextView,
) -> Walk
    decreases compound, 0nat,
{
    match compound {
        CompoundCommand::Grouping(body) => walk_script(body, stack, ctx),
        CompoundCommand::Subshell { body } => walk_script(body, stack, ctx),
        CompoundCommand::For { body } => walk_script(body, stack, ctx),
        CompoundCommand::While { condition, body } => {
            let tested = walk_script(condition, stack, ctx);
            if tested.error is Some {
                tested
            } else {
                walk_script(body, stack, tested.ctx)
            }
        },
        CompoundCommand::Until { condition, body } => {
            let tested = walk_script(condition, stack, ctx);
            if tested.error is Some {
                tested
            } else {
                walk_script(body, stack, tested.ctx)
            }
        },
        CompoundCommand::If { condition, body, elifs, otherwise } => {
            let tested = walk_script(condition, stack, ctx);
            if tested.error is Some {
                tested
            } else {
                let taken = walk_script(body, stack, tested.ctx);
                if taken.error is Some {
                    taken
                } else {
                    let chained = walk_elifs(elifs@, elifs@.len(), stack, taken.ctx);
                    if chained.error is Some {
                        chained
                    } else {
                        match otherwise {
                            Some(last) => walk_script(last, stack, chained.ctx),
                            None => chained,
                        }
                    }
                }
            }
        },
        CompoundCommand::Case { items } => walk_case_items(items@, items@.len(), stack, ctx),
    }
}

/// The walk through the first `n` `elif` clauses: of each its condition,
/// then its body.
pub open spec fn walk_elifs(
    elifs: Seq<ElifThen>,
    n: nat,
    stack: Seq<Seq<char>>,
    ctx: ContextView,
) -> Walk
    decreases elifs, n,
{
    if n == 0 || n > elifs.len() {
        Walk::ok(ctx)
    } else {
        let before = walk_elifs(elifs, (n - 1) as nat, stack, ctx);
        if before.error is Some {
            before
        } else {
            let tested = walk_script(elifs[n - 1].condition, stack, before.ctx);
            if tested.error is Some {
                tested
            } else {
                walk_script(elifs[n - 1].body, stack, tested.ctx)
            }
        }
    }
}

/// The walk through the bodies of the first `n` arms of a `case` command.
pub open spec fn walk_case_items(
    items: Seq<CaseItem>,
    n: nat,
    stack: Seq<Seq<char>>,
    ctx: ContextView,
) -> Walk
    decreases items, n,
{
    if n == 0 || n > items.len() {
        Walk::ok(ctx)
    } else {
        let before = walk_case_items(items, (n - 1) as nat, stack, ctx);
        if before.error is Some {
            before
        } else {
            walk_script(items[n - 1].body, stack, before.ctx)
        }
    }
}

/// The stack with one more name on top.
pub fn push_name(function_stack: &[String], name: String) -> (r: Vec<String>)
    ensures
        views(r@) == views(function_stack@).push(name@),
{
    let mut stack: Vec<String> = Vec::new();
    let mut i: usize = 0;
    while i < function_stack.len()
        invariant
            i <= function_stack.len(),
            stack@.len() == i,
            forall|j: int| 0 <= j < i ==> (#[trigger] stack@[j])@ == function_stack@[j]@,
        decreases function_stack.len() - i,
    {
        stack.push(function_stack[i].clone());
        i = i + 1;
    }
    stack.push(name);
    proof {
        assert(views(stack@) =~= views(function_stack@).push(name@));
    }
    stack
}

/// Judges the definition of a function and records what it finds.
pub fn define_function(ctx: &mut Context, name: &String, function_stack: &[String])
    ensures
        final(ctx)@ == define(name@, views(function_stack@), old(ctx)@),
{
    if function_stack.len() != 0 {
        let mut message = String::from_str("Function ");
        message.append(quote(name.as_str()).as_str());
        message.append(" is defined nested in another function: ");
        message.append(quote_list(function_stack).as_str());
        ctx.finding(message);
    } else if ctx.is_inside_compound() {
        let mut message = String::from_str("Function ");
        message.append(quote(name.as_str()).as_str());
        message.append(" is defined nested in a compound (possibly declared conditionally)");
        ctx.finding(message);
    } else {
        ctx.declare_function(name.clone());
    }
}

/// A walk of statements that has stopped stays as it stopped.
pub proof fn lemma_walk_items_stops(
    items: Seq<Item>,
    n: nat,
    m: nat,
    stack: Seq<Seq<char>>,
    ctx: ContextView,
)
    requires
        n <= m <= items.len(),
        walk_items(items, n, stack, ctx).error is Some,
    ensures
        walk_items(items, m, stack, ctx) == walk_items(items, n, stack, ctx),
    decreases m,
{
    if n < m {
        lemma_walk_items_stops(items, n, (m - 1) as nat, stack, ctx);
    }
}

/// A walk of commands that has stopped stays as it stopped.
pub proof fn lemma_walk_commands_stops(
    commands: Seq<Command>,
    n: nat,
    m: nat,
    stack: Seq<Seq<char>>,
    ctx: ContextView,
)
    requires
        n <= m <= commands.len(),
        walk_commands(commands, n, stack, ctx).error is Some,
    ensures
        walk_commands(commands, m, stack, ctx) == walk_commands(commands, n, stack, ctx),
    decreases m,
{
    if n < m {
        lemma_walk_commands_stops(commands, n, (m - 1) as nat, stack, ctx);
    }
}

/// A walk of `elif` clauses that has stopped stays as it stopped.
pub proof fn lemma_walk_elifs_stops(
    elifs: Seq<ElifThen>,
    n: nat,
    m: nat,
    stack: Seq<Seq<char>>,
    ctx: ContextView,
)
    requires
        n <= m <= elifs.len(),
        walk_elifs(elifs, n, stack, ctx).error is Some,
    ensures
        walk_elifs(elifs, m, stack, ctx) == walk_elifs(elifs, n, stack, ctx),
    decreases m,
{
    if n < m {
        lemma_walk_elifs_stops(elifs, n, (m - 1) as nat, stack, ctx);
    }
}

/// A walk of `case` arms that has stopped stays as it stopped.
pub proof fn lemma_walk_case_items_stops(
    items: Seq<CaseItem>,
    n: nat,
    m: nat,
    stack: Seq<Seq<char>>,
    ctx: ContextView,
)
    requires
        n <= m <= items.len(),
        walk_case_items(items, n, stack, ctx).error is Some,
    ensures
        walk_case_items(items, m, stack, ctx) == walk_case_items(items, n, stack, ctx),
    decreases m,
{
    if n < m {
        lemma_walk_case_items_stops(items, n, (m - 1) as nat, stack, ctx);
    }
}

fn validate_elifs(
    ctx: &mut Context,
    elifs: &Vec<ElifThen>,
    function_stack: &[String],
) -> (r: Result<(), Error>)
    ensures
        Walk::of(final(ctx)@, r) == walk_elifs(
            elifs@,
            elifs@.len(),
            views(function_stack@),
            old(ctx)@,
        ),
    decreases elifs@, elifs@.len(),
{
    let mut i: usize = 0;
    while i < elifs.len()
        invariant
            i <= elifs.len(),
            Walk::ok(ctx@) == walk_elifs(elifs@, i as nat, views(function_stack@), old(ctx)@),
        decreases elifs.len() - i,
    {
        let step = match validate_ast(ctx, &elifs[i].condition, function_stack) {
            Ok(_) => validate_ast(ctx, &elifs[i].body, function_stack),
            Err(error) => Err(error),
        };
        match step {
            Ok(_) => {},
            Err(error) => {
                proof {
                    lemma_walk_elifs_stops(
                        elifs@,
                        (i + 1) as nat,
                        elifs@.len(),
                        views(function_stack@),
                        old(ctx)@,
                    );
                }
                return Err(error);
            },
        }
        i = i + 1;
    }
    Ok(())
}

fn validate_case_items(
    ctx: &mut Context,
    items: &Vec<CaseItem>,
    function_stack: &[String],
) -> (r: Result<(), Error>)
    ensures
        Walk::of(final(ctx)@, r) == walk_case_items(
            items@,
            items@.len(),
            views(function_stack@),
            old(ctx)@,
        ),
    decreases items@, items@.len(),
{
    let mut i: usize = 0;
    while i < items.len()
        invariant
            i <= items.len(),
            Walk::ok(ctx@) == walk_case_items(items@, i as nat, views(function_stack@), old(ctx)@),
        decreases items.len() - i,
    {
        match validate_ast(ctx, &items[i].body, function_stack) {
            Ok(_) => {},
            Err(error) => {
                proof {
                    lemma_walk_case_items_stops(
                        items@,
                        (i + 1) as nat,
                        items@.len(),
                        views(function_stack@),
                        old(ctx)@,
                    );
                }
                return Err(error);
            },
        }
        i = i + 1;
    }
    Ok(())
}

fn validate_bodies(
    ctx: &mut Context,
    compound: &CompoundCommand,
    function_stack: &[String],
) -> (r: Result<(), Error>)
    ensures
        Walk::of(final(ctx)@, r) == walk_bodies(*compound, views(function_stack@), old(ctx)@),
    decreases *compound, 0nat,
{
    match compound {
        CompoundCommand::Grouping(body) => validate_ast(ctx, body, function_stack),
        CompoundCommand::Subshell { body } => validate_ast(ctx, body, function_stack),
        CompoundCommand::For { body } => validate_ast(ctx, body, function_stack),
        CompoundCommand::While { condition, body } => {
            validate_ast(ctx, condition, function_stack)?;
            validate_ast(ctx, body, function_stack)
        },
        CompoundCommand::Until { condition, body } => {
            validate_ast(ctx, condition, function_stack)?;
            validate_ast(ctx, body, function_stack)
        },
        CompoundCommand::If { condition, body, elifs, otherwise } => {
            validate_ast(ctx, condition, function_stack)?;
            validate_ast(ctx, body, function_stack)?;
            validate_elifs(ctx, elifs, function_stack)?;
            match otherwise {
                Some(last) => validate_ast(ctx, last, function_stack),
                None => Ok(()),
            }
        },
        CompoundCommand::Case { items } => validate_case_items(ctx, items, function_stack),
    }
}

/// Audits a compound command: one level deeper through its statement
/// lists, then back. Fails when the depth counter cannot count the level,
/// or when the walk inside fails.
pub fn validate_compound_command(
    ctx: &mut Context,
    compound: &CompoundCommand,
    function_stack: &[String],
) -> (r: Result<(), Error>)
    ensures
        Walk::of(final(ctx)@, r) == walk_compound(*compound, views(function_stack@), old(ctx)@),
    decreases *compound, 1nat,
{
    ctx.enter_compound()?;
    validate_bodies(ctx, compound, function_stack)?;
    ctx.leave_compound();
    Ok(())
}

fn validate_command(
    ctx: &mut Context,
    command: &Command,
    function_stack: &[String],
) -> (r: Result<(), Error>)
    ensures
        Walk::of(final(ctx)@, r) == walk_command(*command, views(function_stack@), old(ctx)@),
    decreases *command, 0nat,
{
    match command {
        Command::Function(function) => {
            define_function(ctx, &function.name, function_stack);
            let stack = push_name(function_stack, function.name.clone());
            validate_compound_command(ctx, &function.body, stack.as_slice())
        },
        Command::Simple(simple) => validate_simple_command(ctx, simple, function_stack),
        Command::Compound(compound) => {
            validate_compound_command(ctx, &compound.command, function_stack)?;
            validate_redirs(ctx, &compound.redirs);
            Ok(())
        },
    }
}

fn validate_commands(
    ctx: &mut Context,
    commands: &Vec<Command>,
    function_stack: &[String],
) -> (r: Result<(), Error>)
    ensures
        Walk::of(final(ctx)@, r) == walk_commands(
            commands@,
            commands@.len(),
            views(function_stack@),
            old(ctx)@,
        ),
    decreases commands@, commands@.len(),
{
    let mut i: usize = 0;
    while i < commands.len()
        invariant
            i <= commands.len(),
            Walk::ok(ctx@) == walk_commands(commands@, i as nat, views(function_stack@), old(ctx)@),
        decreases commands.len() - i,
    {
        match validate_command(ctx, &commands[i], function_stack) {
            Ok(_) => {},
            Err(error) => {
                proof {
                    lemma_walk_commands_stops(
                        commands@,
                        (i + 1) as nat,
                        commands@.len(),
                        views(function_stack@),
                        old(ctx)@,
                    );
                }
                return Err(error);
            },
        }
        i = i + 1;
    }
    Ok(())
}

/// Audits a script: every command of the first pipeline of every statement,
/// in order; the later pipelines of a statement are passed over. `function_stack` names the functions around the script, the
/// outermost first. Fails where a substitution was not parsed or the depth
/// counter cannot count; the context then holds what was found before.
pub fn validate_ast(
    ctx: &mut Context,
    script: &Script,
    function_stack: &[String],
) -> (r: Result<(), Error>)
    ensures
        Walk::of(final(ctx)@, r) == walk_script(*script, views(function_stack@), old(ctx)@),
    decreases *script, 0nat,
{
    let mut i: usize = 0;
    while i < script.items.len()
        invariant
            i <= script.items.len(),
            Walk::ok(ctx@) == walk_items(
                script.items@,
                i as nat,
                views(function_stack@),
                old(ctx)@,
            ),
        decreases script.items.len() - i,
    {
        match validate_commands(ctx, &script.items[i].first.commands, function_stack) {
            Ok(_) => {},
            Err(error) => {
                proof {
                    lemma_walk_items_stops(
                        script.items@,
                        (i + 1) as nat,
                        script.items@.len(),
                        views(function_stack@),
                        old(ctx)@,
                    );
                }
                return Err(error);
            },
        }
        i = i + 1;
    }
    Ok(())
}

} // verus!
