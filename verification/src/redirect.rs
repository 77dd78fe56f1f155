use crate::errors::Error;
use crate::syntax::Redir;
use crate::syntax::RedirBody;
use crate::syntax::RedirOp;
use crate::text::decimal;
use crate::text::decimal_text;
use crate::text::quote;
use crate::text::quoted;
use crate::Context;
use crate::ContextView;
use vstd::prelude::*;
use vstd::string::StringExecFns;

verus! {

/// The finding for a file opened for writing.
pub open spec fn file_write_message(path: Seq<char>) -> Seq<char> {
    "File write to: "@ + quoted(path)
}

/// The finding for input from a file on a descriptor other than standard
/// input: it ends in the descriptor's number.
pub open spec fn file_input_message(fd: int) -> Seq<char> {
    "File input on unusual descriptor: fd="@ + decimal(fd)
}

/// The finding for an output descriptor duplicated to an unusual target.
pub open spec fn fd_target_message(target: Seq<char>) -> Seq<char> {
    "File descriptor redirect to unusual descriptor: "@ + quoted(target)
}

/// The finding for an operator that is not analysed.
pub open spec fn unchecked_message(operator: RedirOp, operand: Seq<char>) -> Seq<char> {
    "Redirects are not being fully checked yet: operator="@ + operator.name() + ", operand="@
        + operand
}

/// Whether duplicating an output descriptor to `target` is unremarkable:
/// standard output, standard error, or closing.
pub open spec fn usual_target(target: Seq<char>) -> bool {
    target == "1"@ || target == "2"@ || target == "-"@
}

/// The finding that a redirection gives, if it gives one.
pub open spec fn redir_finding(redir: Redir) -> Option<Seq<char>> {
    match redir.body {
        RedirBody::HereDoc => None,
        RedirBody::Normal { operator, operand } => match operator {
            RedirOp::FileIn => match redir.fd {
                Some(fd) => if fd != 0 {
                    Some(file_input_message(fd as int))
                } else {
                    None
                },
                None => None,
            },
            RedirOp::FileOut | RedirOp::FileAppend => if operand.text@ == "/dev/null"@ {
                None
            } else {
                Some(file_write_message(operand.text@))
            },
            RedirOp::FdOut => if usual_target(operand.text@) {
                None
            } else {
                Some(fd_target_message(operand.text@))
            },
            RedirOp::FileInOut | RedirOp::FileClobber | RedirOp::FdIn | RedirOp::Pipe | RedirOp::String => Some(
                unchecked_message(operator, operand.debug@),
            ),
        },
    }
}

/// The context after one redirection was classified.
pub open spec fn walk_redir(redir: Redir, ctx: ContextView) -> ContextView {
    match redir_finding(redir) {
        Some(message) => ctx.record(message, Seq::empty()),
        None => ctx,
    }
}

/// The context after the first `n` of `redirs` were classified, in order.
pub open spec fn walk_redirs(redirs: Seq<Redir>, n: nat, ctx: ContextView) -> ContextView
    decreases n,
{
    if n == 0 || n > redirs.len() {
        ctx
    } else {
        walk_redir(redirs[n - 1], walk_redirs(redirs, (n - 1) as nat, ctx))
    }
}

fn is_text(s: &String, literal: &str) -> (r: bool)
    ensures
        r == (s@ == literal@),
{
    let other = String::from_str(literal);
    *s == other
}

/// Classifies one redirection: the finding it gives, if it gives one.
pub fn classify_redir(redir: &Redir) -> (r: Option<String>)
    ensures
        match r {
            Some(message) => redir_finding(*redir) == Some(message@),
            None => redir_finding(*redir) is None,
        },
{
    match &redir.body {
        RedirBody::HereDoc => None,
        RedirBody::Normal { operator, operand } => match operator {
            RedirOp::FileIn => match redir.fd {
                Some(fd) => {
                    if fd != 0 {
                        let mut message = String::from_str("File input on unusual descriptor: fd=");
                        message.append(decimal_text(fd).as_str());
                        Some(message)
                    } else {
                        None
                    }
                },
                None => None,
            },
            RedirOp::FileOut | RedirOp::FileAppend => {
                if is_text(&operand.text, "/dev/null") {
                    None
                } else {
                    let mut message = String::from_str("File write to: ");
                    message.append(quote(operand.text.as_str()).as_str());
                    Some(message)
                }
            },
            RedirOp::FdOut => {
                if is_text(&operand.text, "1") || is_text(&operand.text, "2") || is_text(
                    &operand.text,
                    "-",
                ) {
                    None
                } else {
                    let mut message = String::from_str(
                        "File descriptor redirect to unusual descriptor: ",
                    );
                    message.append(quote(operand.text.as_str()).as_str());
                    Some(message)
                }
            },
            RedirOp::FileInOut | RedirOp::FileClobber | RedirOp::FdIn | RedirOp::Pipe | RedirOp::String => {
                let mut message = String::from_str(
                    "Redirects are not being fully checked yet: operator=",
                );
                message.append(operator.name_text());
                message.append(", operand=");
                message.append(operand.debug.as_str());
                Some(message)
            },
        },
    }
}

/// Classifies one redirection and records the finding it gives, if any.
/// It never fails.
pub fn validate_redir(
    ctx: &mut Context,
    redir: &Redir,
) -> (r: Result<(), Error>)
    ensures
        r is Ok,
        final(ctx)@ == walk_redir(*redir, old(ctx)@),
{
    match classify_redir(redir) {
        Some(message) => ctx.finding(message),
        None => {},
    }
    Ok(())
}

/// Classifies redirections in order.
pub fn validate_redirs(ctx: &mut Context, redirs: &Vec<Redir>)
    ensures
        final(ctx)@ == walk_redirs(redirs@, redirs@.len(), old(ctx)@),
{
    let mut i: usize = 0;
    while i < redirs.len()
        invariant
            i <= redirs.len(),
            ctx@ == walk_redirs(redirs@, i as nat, old(ctx)@),
        decreases redirs.len() - i,
    {
        let _ = validate_redir(ctx, &redirs[i]);
        i = i + 1;
    }
}

} // verus!
