use smelly_hooks::command::assemble_backquote;
use smelly_hooks::errors::Error;
use smelly_hooks::syntax;
use smelly_hooks::validate;
use smelly_hooks::Context;
use yash_syntax::syntax as yash;

// Reads a script with the shell parser and hands it over as the library's
// tree. The scripts of this file hold no `if` command.

fn read(text: &str) -> Result<syntax::Script, Error> {
    match text.parse::<yash::List>() {
        Ok(list) => Ok(script(&list)),
        Err(error) => Err(Error::syntax(&format!("{:#}", error))),
    }
}

fn script(list: &yash::List) -> syntax::Script {
    syntax::Script {
        items: list
            .0
            .iter()
            .map(|item| syntax::Item {
                first: pipeline(&item.and_or.first),
                rest: item.and_or.rest.iter().map(|(_, later)| pipeline(later)).collect(),
            })
            .collect(),
    }
}

fn pipeline(pipeline: &yash::Pipeline) -> syntax::Pipeline {
    syntax::Pipeline {
        commands: pipeline.commands.iter().map(|c| command(c)).collect(),
    }
}

fn command(command: &yash::Command) -> syntax::Command {
    match command {
        yash::Command::Simple(simple) => syntax::Command::Simple(syntax::SimpleCommand {
            assigns: simple
                .assigns
                .iter()
                .map(|assign| syntax::Assign {
                    value: match &assign.value {
                        yash::Value::Scalar(w) => syntax::Value::Scalar(word(w)),
                        yash::Value::Array(ws) => syntax::Value::Array(ws.iter().map(word).collect()),
                    },
                })
                .collect(),
            words: simple.words.iter().map(word).collect(),
            redirs: simple.redirs.iter().map(redir).collect(),
            text: simple.to_string(),
        }),
        yash::Command::Compound(full) => syntax::Command::Compound(syntax::FullCompoundCommand {
            command: compound(&full.command),
            redirs: full.redirs.iter().map(redir).collect(),
        }),
        yash::Command::Function(function) => syntax::Command::Function(syntax::FunctionDefinition {
            name: function.name.to_string(),
            body: compound(&function.body.command),
        }),
    }
}

fn compound(compound: &yash::CompoundCommand) -> syntax::CompoundCommand {
    match compound {
        yash::CompoundCommand::Grouping(list) => syntax::CompoundCommand::Grouping(script(list)),
        yash::CompoundCommand::Subshell { body, .. } => {
            syntax::CompoundCommand::Subshell { body: script(body) }
        }
        yash::CompoundCommand::For { body, .. } => syntax::CompoundCommand::For { body: script(body) },
        yash::CompoundCommand::While { condition, body } => syntax::CompoundCommand::While {
            condition: script(condition),
            body: script(body),
        },
        yash::CompoundCommand::Until { condition, body } => syntax::CompoundCommand::Until {
            condition: script(condition),
            body: script(body),
        },
        yash::CompoundCommand::If { .. } => unreachable!("no script of this file holds an if command"),
        yash::CompoundCommand::Case { items, .. } => syntax::CompoundCommand::Case {
            items: items.iter().map(|item| syntax::CaseItem { body: script(&item.body) }).collect(),
        },
    }
}

fn word(word: &yash::Word) -> syntax::Word {
    syntax::Word {
        units: word
            .units
            .iter()
            .map(|unit| match unit {
                yash::WordUnit::Unquoted(text) => syntax::WordUnit::Unquoted(text_unit(text)),
                yash::WordUnit::SingleQuote(_) => syntax::WordUnit::SingleQuote,
                yash::WordUnit::DoubleQuote(text) => {
                    syntax::WordUnit::DoubleQuote(text.0.iter().map(text_unit).collect())
                }
                yash::WordUnit::DollarSingleQuote(_) => syntax::WordUnit::DollarSingleQuote,
                yash::WordUnit::Tilde(_) => syntax::WordUnit::Tilde,
            })
            .collect(),
        text: word.to_string(),
    }
}

fn text_unit(unit: &yash::TextUnit) -> syntax::TextUnit {
    match unit {
        yash::TextUnit::Literal(_) => syntax::TextUnit::Literal,
        yash::TextUnit::Backslashed(_) => syntax::TextUnit::Backslashed,
        yash::TextUnit::RawParam { .. } => syntax::TextUnit::RawParam,
        yash::TextUnit::BracedParam(_) => syntax::TextUnit::BracedParam,
        yash::TextUnit::CommandSubst { content, .. } => {
            syntax::TextUnit::CommandSubst(substitution(content))
        }
        yash::TextUnit::Backquote { content, .. } => {
            let units: Vec<syntax::BackquoteUnit> = content
                .iter()
                .map(|unit| match unit {
                    yash::BackquoteUnit::Literal(c) => syntax::BackquoteUnit::Literal(*c),
                    yash::BackquoteUnit::Backslashed(c) => syntax::BackquoteUnit::Backslashed(*c),
                })
                .collect();
            syntax::TextUnit::Backquote(substitution(&assemble_backquote(&units)))
        }
        yash::TextUnit::Arith { content, .. } => {
            syntax::TextUnit::Arith(content.0.iter().map(text_unit).collect())
        }
    }
}

fn substitution(text: &str) -> syntax::Substitution {
    match text.parse::<yash::List>() {
        Ok(list) => syntax::Substitution::Parsed(script(&list)),
        Err(error) => syntax::Substitution::Invalid(format!("{:#}", error)),
    }
}

fn redir(redir: &yash::Redir) -> syntax::Redir {
    syntax::Redir {
        fd: redir.fd.map(|fd| fd.0),
        body: match &redir.body {
            yash::RedirBody::Normal { operator, operand } => syntax::RedirBody::Normal {
                operator: match operator {
                    yash::RedirOp::FileIn => syntax::RedirOp::FileIn,
                    yash::RedirOp::FileInOut => syntax::RedirOp::FileInOut,
                    yash::RedirOp::FileOut => syntax::RedirOp::FileOut,
                    yash::RedirOp::FileAppend => syntax::RedirOp::FileAppend,
                    yash::RedirOp::FileClobber => syntax::RedirOp::FileClobber,
                    yash::RedirOp::FdIn => syntax::RedirOp::FdIn,
                    yash::RedirOp::FdOut => syntax::RedirOp::FdOut,
                    yash::RedirOp::Pipe => syntax::RedirOp::Pipe,
                    yash::RedirOp::String => syntax::RedirOp::String,
                },
                operand: syntax::Operand {
                    text: operand.to_string(),
                    debug: format!("{:?}", operand),
                },
            },
            yash::RedirBody::HereDoc(_) => syntax::RedirBody::HereDoc,
        },
    }
}

fn audit(text: &str) -> Vec<String> {
    validate(&read(text).unwrap()).unwrap()
}

#[test]
fn call_declared_function() {
    let script = r#"
        foo() { :; }

        post_install() {
            foo
        }
        "#;
    let findings = audit(script);
    assert_eq!(findings, Vec::<String>::new());
}

#[test]
fn nested_functions() {
    let script = r#"
        dummy() { foo() { id; }; }

        post_install() {
            foo
        }
        "#;
    let findings = audit(script);
    assert_eq!(
        findings,
        vec![
            "Function \"foo\" is defined nested in another function: [\"dummy\"]",
            "Running unrecognized command: \"id\"",
            "Running unrecognized command: \"foo\""
        ]
    );
}

#[test]
fn conditional_functions() {
    let script = r#"
        case abc in
            def)
                foo() { id; }
                ;;
        esac
        post_install() {
            foo
        }
        "#;
    let findings = audit(script);
    assert_eq!(
        findings,
        vec![
            "Function \"foo\" is defined nested in a compound (possibly declared conditionally)",
            "Running unrecognized command: \"id\"",
            "Running unrecognized command: \"foo\"",
        ]
    );
}

#[test]
fn declare_undeclare_function() {
    let script = r#"
        foo() { :; }

        post_install() {
            unset foo
            foo
        }
        "#;
    let findings = audit(script);
    assert_eq!(findings, vec!["Running unrecognized command: \"unset foo\"",]);
}

#[test]
fn test_assign_subshell_command_subst() {
    let script = r#"
        post_install() {
            cmd="$(date > /tmp/pwn)"
        }

        post_upgrade() {
          post_install
        }
        "#;
    let findings = audit(script);
    assert_eq!(
        findings,
        vec![
            "Running unrecognized command: \"date >/tmp/pwn\"",
            "File write to: \"/tmp/pwn\""
        ]
    );
}

#[test]
fn test_misc_subshell_command_subst() {
    let script = r#"
        post_install() {
            x=$(echo hax > /etc/hax1)
            x=""$(echo hax > /etc/hax2)
            echo ""$(echo hax > /etc/hax3)
            echo "" $(echo hax > /etc/hax4)
            echo "" "$(echo hax > /etc/hax5)"''$(echo hax > /etc/hax6)
            arr=(a b $(echo hax > /etc/hax7) ''"$(echo hax > /etc/hax8)"'')
        }
        "#;
    let findings = audit(script);
    assert_eq!(
        findings,
        vec![
            "File write to: \"/etc/hax1\"",
            "File write to: \"/etc/hax2\"",
            "File write to: \"/etc/hax3\"",
            "File write to: \"/etc/hax4\"",
            "File write to: \"/etc/hax5\"",
            "File write to: \"/etc/hax6\"",
            "File write to: \"/etc/hax7\"",
            "File write to: \"/etc/hax8\"",
        ]
    );
}

#[test]
fn test_misc_backticks() {
    let script = r#"
        post_install() {
            x=`echo \\'hax\\' > /etc/hax1`
            x=""`echo hax > /etc/hax2`
            echo ""`echo hax > /etc/hax3`
            echo "" `echo hax > /etc/hax4`
            echo "" "`echo hax > /etc/hax5`"''`echo hax > /etc/hax6`
            arr=(a b `echo hax > /etc/hax7` ''"`echo hax > /etc/hax8`"'')
        }
        "#;
    let findings = audit(script);
    assert_eq!(
        findings,
        vec![
            "File write to: \"/etc/hax1\"",
            "File write to: \"/etc/hax2\"",
            "File write to: \"/etc/hax3\"",
            "File write to: \"/etc/hax4\"",
            "File write to: \"/etc/hax5\"",
            "File write to: \"/etc/hax6\"",
            "File write to: \"/etc/hax7\"",
            "File write to: \"/etc/hax8\"",
        ]
    );
}

#[test]
fn caller_after_definition_yields_nothing() {
    assert_eq!(audit("x() { :; }\ny() { x; }"), Vec::<String>::new());
}

#[test]
fn audit_is_repeatable() {
    let text = "dummy() { foo() { id; }; }\npost_install() { foo > /tmp/x; }";
    assert_eq!(audit(text), audit(text));
}

#[test]
fn forward_reference_is_resolved() {
    assert_eq!(audit("post_install() { helper; }\nhelper() { :; }"), Vec::<String>::new());
}

#[test]
fn forward_reference_to_conditional_definition_is_reported() {
    assert_eq!(
        audit("post_install() { helper; }\n{ helper() { :; }; }"),
        vec![
            "Running unrecognized command: \"helper\"",
            "Function \"helper\" is defined nested in a compound (possibly declared conditionally)",
        ]
    );
}

#[test]
fn top_level_command_is_reported_even_when_trusted() {
    assert_eq!(audit("echo hi"), vec!["Function call outside of any function: \"echo hi\""]);
    assert_eq!(
        audit("frobnicate"),
        vec![
            "Function call outside of any function: \"frobnicate\"",
            "Running unrecognized command: \"frobnicate\"",
        ]
    );
}

#[test]
fn variable_in_command_name_is_reported() {
    assert_eq!(
        audit("f() { $cmd arg; }"),
        vec!["Command name contains variable: \"$cmd\""]
    );
    assert_eq!(
        audit("f() { \"${cmd}\" arg; }"),
        vec!["Command name contains variable: \"\\\"${cmd}\\\"\""]
    );
}

#[test]
fn backquoted_command_name_is_not_a_variable() {
    assert_eq!(
        audit("f() { `true` arg; }"),
        vec!["Running unrecognized command: \"`true` arg\""]
    );
}

#[test]
fn substitution_alone_runs_as_its_script() {
    assert_eq!(
        audit("f() { $(id); }"),
        vec!["Running unrecognized command: \"id\"", "Running unrecognized command: \"id\""]
    );
    assert_eq!(
        audit("f() { \"$(id)\"; }"),
        vec!["Running unrecognized command: \"id\"", "Running unrecognized command: \"id\""]
    );
}

#[test]
fn function_declared_in_substitution_is_visible_outside() {
    assert_eq!(audit("x=$(helper() { :; })\npost_install() { helper; }"), Vec::<String>::new());
}

#[test]
fn only_first_pipeline_of_a_statement_is_audited() {
    assert_eq!(audit("f() { true && evil; }"), Vec::<String>::new());
    assert_eq!(
        audit("f() { true | evil; }"),
        vec!["Running unrecognized command: \"evil\""]
    );
}

#[test]
fn redirections_are_classified() {
    assert_eq!(audit("f() { echo > /dev/null; }"), Vec::<String>::new());
    assert_eq!(audit("f() { echo >> /dev/null; }"), Vec::<String>::new());
    assert_eq!(audit("f() { echo >> /var/log/x; }"), vec!["File write to: \"/var/log/x\""]);
    assert_eq!(audit("f() { cat < /etc/passwd; }"), Vec::<String>::new());
    assert_eq!(audit("f() { cat 0< /etc/passwd; }"), Vec::<String>::new());
    assert_eq!(
        audit("f() { cat 3< /etc/passwd; }"),
        vec!["File input on unusual descriptor: fd=3"]
    );
    assert_eq!(audit("f() { echo >&2; }"), Vec::<String>::new());
    assert_eq!(audit("f() { echo 2>&1; }"), Vec::<String>::new());
    assert_eq!(audit("f() { echo >&-; }"), Vec::<String>::new());
    assert_eq!(
        audit("f() { echo >&7; }"),
        vec!["File descriptor redirect to unusual descriptor: \"7\""]
    );
    assert_eq!(audit("f() { cat <<EOF\nhello\nEOF\n}"), Vec::<String>::new());
}

#[test]
fn unchecked_operators_are_reported() {
    let findings = audit("f() { echo >| /tmp/x; }");
    assert_eq!(findings.len(), 1);
    assert!(findings[0].starts_with(
        "Redirects are not being fully checked yet: operator=FileClobber, operand=Word { units: ["
    ));
    let findings = audit("f() { cat <> /tmp/x; }");
    assert!(findings[0]
        .starts_with("Redirects are not being fully checked yet: operator=FileInOut, operand="));
    let findings = audit("f() { cat <&3; }");
    assert!(findings[0].starts_with("Redirects are not being fully checked yet: operator=FdIn, operand="));
    let findings = audit("f() { cat <<< text; }");
    assert!(findings[0]
        .starts_with("Redirects are not being fully checked yet: operator=String, operand="));
}

#[test]
fn redirections_of_compound_commands_are_classified() {
    assert_eq!(audit("f() { { true; } > /tmp/x; }"), vec!["File write to: \"/tmp/x\""]);
}

#[test]
fn loops_and_subshells_are_walked() {
    assert_eq!(
        audit("f() { while a; do b; done; until c; do d; done; for i in 1; do e; done; (g); }"),
        vec![
            "Running unrecognized command: \"a\"",
            "Running unrecognized command: \"b\"",
            "Running unrecognized command: \"c\"",
            "Running unrecognized command: \"d\"",
            "Running unrecognized command: \"e\"",
            "Running unrecognized command: \"g\"",
        ]
    );
}

#[test]
fn syntax_error_in_script_is_an_error() {
    let error = read("f() {").unwrap_err();
    assert!(error.message().starts_with("Failed to parse shell script: "));
}

#[test]
fn syntax_error_in_substitution_stops_the_audit() {
    let script = read("f() { x=`if`; }").unwrap();
    let error = validate(&script).unwrap_err();
    assert!(error.message().starts_with("Failed to parse shell script: "));
    assert!(error.message().len() > "Failed to parse shell script: ".len());
}

#[test]
fn reduced_catalogs_report_more() {
    let script = read("f() { cat; echo; }").unwrap();
    let mut ctx = Context::empty();
    ctx.trust("cat");
    assert_eq!(ctx.validate(&script).unwrap(), vec!["Running unrecognized command: \"echo\""]);
    assert_eq!(
        Context::empty().validate(&script).unwrap(),
        vec!["Running unrecognized command: \"cat\"", "Running unrecognized command: \"echo\""]
    );
    assert_eq!(Context::default().validate(&script).unwrap(), Vec::<String>::new());
}
