use smelly_hooks::ast::validate_ast;
use smelly_hooks::ast::validate_compound_command;
use smelly_hooks::command::assemble_backquote;
use smelly_hooks::command::get_subshell_command_subst;
use smelly_hooks::command::text_unit_contains_variables;
use smelly_hooks::command::validate_simple_command;
use smelly_hooks::command::validate_text_unit;
use smelly_hooks::command::validate_word;
use smelly_hooks::command::word_contains_variables;
use smelly_hooks::errors::Error;
use smelly_hooks::syntax::Assign;
use smelly_hooks::syntax::BackquoteUnit;
use smelly_hooks::syntax::CaseItem;
use smelly_hooks::syntax::Command;
use smelly_hooks::syntax::CompoundCommand;
use smelly_hooks::syntax::ElifThen;
use smelly_hooks::syntax::FullCompoundCommand;
use smelly_hooks::syntax::FunctionDefinition;
use smelly_hooks::syntax::Item;
use smelly_hooks::syntax::Operand;
use smelly_hooks::syntax::Pipeline;
use smelly_hooks::syntax::Redir;
use smelly_hooks::syntax::RedirBody;
use smelly_hooks::syntax::RedirOp;
use smelly_hooks::syntax::Script;
use smelly_hooks::syntax::SimpleCommand;
use smelly_hooks::syntax::Substitution;
use smelly_hooks::syntax::TextUnit;
use smelly_hooks::syntax::Value;
use smelly_hooks::syntax::Word;
use smelly_hooks::syntax::WordUnit;
use smelly_hooks::text::decimal_text;
use smelly_hooks::text::quote_list;
use smelly_hooks::validate;
use smelly_hooks::Context;
use smelly_hooks::FindingCondition;

fn literal(text: &str) -> Word {
    Word {
        units: text.chars().map(|_| WordUnit::Unquoted(TextUnit::Literal)).collect(),
        text: text.to_string(),
    }
}

fn simple(words: &[&str]) -> SimpleCommand {
    SimpleCommand {
        assigns: vec![],
        words: words.iter().map(|w| literal(w)).collect(),
        redirs: vec![],
        text: words.join(" "),
    }
}

fn run(words: &[&str]) -> Command {
    Command::Simple(simple(words))
}

fn script(commands: Vec<Command>) -> Script {
    Script {
        items: commands
            .into_iter()
            .map(|c| Item { first: Pipeline { commands: vec![c] }, rest: vec![] })
            .collect(),
    }
}

fn function(name: &str, commands: Vec<Command>) -> Command {
    Command::Function(FunctionDefinition {
        name: name.to_string(),
        body: CompoundCommand::Grouping(script(commands)),
    })
}

fn compound(command: CompoundCommand) -> Command {
    Command::Compound(FullCompoundCommand { command, redirs: vec![] })
}

fn unrecognized(name: &str) -> String {
    format!("Running unrecognized command: {:?}", name)
}

#[test]
fn if_command_is_walked_in_written_order() {
    let branch = CompoundCommand::If {
        condition: script(vec![run(&["c1"])]),
        body: script(vec![run(&["b1"])]),
        elifs: vec![
            ElifThen { condition: script(vec![run(&["c2"])]), body: script(vec![run(&["b2"])]) },
            ElifThen { condition: script(vec![run(&["c3"])]), body: script(vec![run(&["b3"])]) },
        ],
        otherwise: Some(script(vec![run(&["last"])])),
    };
    let found = validate(&script(vec![function("f", vec![compound(branch)])])).unwrap();
    assert_eq!(
        found,
        vec![
            unrecognized("c1"),
            unrecognized("b1"),
            unrecognized("c2"),
            unrecognized("b2"),
            unrecognized("c3"),
            unrecognized("b3"),
            unrecognized("last"),
        ]
    );
}

#[test]
fn later_pipelines_of_a_statement_are_passed_over() {
    let body = Script {
        items: vec![Item {
            first: Pipeline { commands: vec![run(&["one"]), run(&["two"])] },
            rest: vec![
                Pipeline { commands: vec![run(&["three"])] },
                Pipeline { commands: vec![function("late", vec![])] },
            ],
        }],
    };
    let tree = script(vec![Command::Function(FunctionDefinition {
        name: "f".to_string(),
        body: CompoundCommand::Grouping(body),
    })]);
    assert_eq!(validate(&tree).unwrap(), vec![unrecognized("one"), unrecognized("two")]);
}

#[test]
fn if_command_without_else() {
    let branch = CompoundCommand::If {
        condition: script(vec![run(&["c1"])]),
        body: script(vec![run(&["true"])]),
        elifs: vec![],
        otherwise: None,
    };
    let found = validate(&script(vec![function("f", vec![compound(branch)])])).unwrap();
    assert_eq!(found, vec![unrecognized("c1")]);
}

#[test]
fn function_in_else_branch_is_conditional() {
    let branch = CompoundCommand::If {
        condition: script(vec![]),
        body: script(vec![]),
        elifs: vec![],
        otherwise: Some(script(vec![function("helper", vec![])])),
    };
    let found = validate(&script(vec![
        compound(branch),
        function("post_install", vec![run(&["helper"])]),
    ]))
    .unwrap();
    assert_eq!(
        found,
        vec![
            "Function \"helper\" is defined nested in a compound (possibly declared conditionally)"
                .to_string(),
            unrecognized("helper"),
        ]
    );
}

#[test]
fn nested_definition_names_every_ancestor() {
    let found = validate(&script(vec![function(
        "a",
        vec![function("b", vec![function("c", vec![])])],
    )]))
    .unwrap();
    assert_eq!(
        found,
        vec![
            "Function \"b\" is defined nested in another function: [\"a\"]",
            "Function \"c\" is defined nested in another function: [\"a\", \"b\"]",
        ]
    );
}

#[test]
fn nesting_in_a_function_wins_over_nesting_in_a_compound() {
    let inner = compound(CompoundCommand::Subshell { body: script(vec![function("g", vec![])]) });
    let found = validate(&script(vec![function("f", vec![inner])])).unwrap();
    assert_eq!(found, vec!["Function \"g\" is defined nested in another function: [\"f\"]"]);
}

#[test]
fn context_returns_to_its_depth() {
    let mut ctx = Context::default();
    let body = CompoundCommand::While {
        condition: script(vec![run(&["true"])]),
        body: script(vec![compound(CompoundCommand::Case {
            items: vec![CaseItem { body: script(vec![run(&["echo"])]) }],
        })]),
    };
    assert!(!ctx.is_inside_compound());
    validate_compound_command(&mut ctx, &body, &["f".to_string()]).unwrap();
    assert!(!ctx.is_inside_compound());
    assert_eq!(ctx.inside_compound(), 0);
    assert_eq!(ctx.resolve(), Vec::<String>::new());
}

#[test]
fn depth_counter_at_its_maximum_is_an_error() {
    let mut ctx = Context::default();
    ctx.set_inside_compound(usize::MAX);
    assert!(ctx.is_inside_compound());
    let body = CompoundCommand::Grouping(script(vec![]));
    let error = validate_compound_command(&mut ctx, &body, &[]).unwrap_err();
    assert!(matches!(error, Error::Depth));
    assert_eq!(error.message(), "Compound commands are nested too deeply");
    assert_eq!(ctx.inside_compound(), usize::MAX);

    ctx.set_inside_compound(usize::MAX - 1);
    assert!(validate_compound_command(&mut ctx, &body, &[]).is_ok());
    assert_eq!(ctx.inside_compound(), usize::MAX - 1);
}

#[test]
fn refused_substitution_stops_the_walk_and_keeps_earlier_findings() {
    let mut ctx = Context::default();
    let mut command = simple(&["x"]);
    command.assigns = vec![Assign {
        value: Value::Scalar(Word {
            units: vec![WordUnit::Unquoted(TextUnit::Backquote(Substitution::Invalid(
                "broken".to_string(),
            )))],
            text: "`if`".to_string(),
        }),
    }];
    let tree = script(vec![run(&["first"]), Command::Simple(command), run(&["never"])]);
    let error = validate_ast(&mut ctx, &tree, &["f".to_string()]).unwrap_err();
    assert_eq!(error.message(), "Failed to parse shell script: broken");
    assert!(matches!(error, Error::Syntax(_)));
    assert_eq!(ctx.resolve(), vec![unrecognized("first")]);
    assert!(validate(&tree).is_err());
}

#[test]
fn error_inside_compound_leaves_the_depth_where_it_stopped() {
    let mut ctx = Context::default();
    let bad = TextUnit::CommandSubst(Substitution::Invalid("bad".to_string()));
    let mut command = simple(&["echo", "x"]);
    command.words[1] = Word { units: vec![WordUnit::Unquoted(bad)], text: "$(".to_string() };
    let body = CompoundCommand::Grouping(script(vec![Command::Simple(command)]));
    assert!(validate_compound_command(&mut ctx, &body, &[]).is_err());
    assert_eq!(ctx.inside_compound(), 1);
}

#[test]
fn dynamic_units() {
    assert!(!text_unit_contains_variables(&TextUnit::Literal));
    assert!(!text_unit_contains_variables(&TextUnit::Backslashed));
    assert!(text_unit_contains_variables(&TextUnit::RawParam));
    assert!(text_unit_contains_variables(&TextUnit::BracedParam));
    assert!(text_unit_contains_variables(&TextUnit::CommandSubst(Substitution::Parsed(script(
        vec![]
    )))));
    assert!(!text_unit_contains_variables(&TextUnit::Backquote(Substitution::Parsed(script(
        vec![]
    )))));
    assert!(!text_unit_contains_variables(&TextUnit::Arith(vec![TextUnit::Literal])));
    assert!(text_unit_contains_variables(&TextUnit::Arith(vec![
        TextUnit::Literal,
        TextUnit::Arith(vec![TextUnit::Literal, TextUnit::RawParam]),
        TextUnit::Literal,
    ])));
}

#[test]
fn dynamic_words() {
    assert!(!word_contains_variables(&literal("echo")));
    assert!(!word_contains_variables(&Word { units: vec![], text: String::new() }));
    let quoted = Word {
        units: vec![
            WordUnit::SingleQuote,
            WordUnit::Tilde,
            WordUnit::DollarSingleQuote,
            WordUnit::DoubleQuote(vec![TextUnit::Literal, TextUnit::BracedParam]),
        ],
        text: "''~$''\"a${b}\"".to_string(),
    };
    assert!(word_contains_variables(&quoted));
    let plain = Word {
        units: vec![WordUnit::SingleQuote, WordUnit::DoubleQuote(vec![TextUnit::Literal])],
        text: "''\"a\"".to_string(),
    };
    assert!(!word_contains_variables(&plain));
}

fn substituted(unit: WordUnit) -> SimpleCommand {
    SimpleCommand {
        assigns: vec![],
        words: vec![Word { units: vec![unit], text: "$(id)".to_string() }],
        redirs: vec![],
        text: "$(id)".to_string(),
    }
}

fn id_script() -> Substitution {
    Substitution::Parsed(script(vec![run(&["id"])]))
}

#[test]
fn transparent_subshell_pattern() {
    let bare = substituted(WordUnit::Unquoted(TextUnit::CommandSubst(id_script())));
    assert!(get_subshell_command_subst(&bare).is_some());
    let quoted = substituted(WordUnit::DoubleQuote(vec![TextUnit::CommandSubst(id_script())]));
    assert!(get_subshell_command_subst(&quoted).is_some());

    let backquoted = substituted(WordUnit::Unquoted(TextUnit::Backquote(id_script())));
    assert!(get_subshell_command_subst(&backquoted).is_none());
    let two_units = substituted(WordUnit::DoubleQuote(vec![
        TextUnit::CommandSubst(id_script()),
        TextUnit::Literal,
    ]));
    assert!(get_subshell_command_subst(&two_units).is_none());
    let empty_quotes = substituted(WordUnit::DoubleQuote(vec![]));
    assert!(get_subshell_command_subst(&empty_quotes).is_none());
    let quoted_param = substituted(WordUnit::DoubleQuote(vec![TextUnit::RawParam]));
    assert!(get_subshell_command_subst(&quoted_param).is_none());

    let mut assigned = substituted(WordUnit::Unquoted(TextUnit::CommandSubst(id_script())));
    assigned.assigns = vec![Assign { value: Value::Scalar(literal("1")) }];
    assert!(get_subshell_command_subst(&assigned).is_none());
    let mut two_words = substituted(WordUnit::Unquoted(TextUnit::CommandSubst(id_script())));
    two_words.words.push(literal("x"));
    assert!(get_subshell_command_subst(&two_words).is_none());
    let mut long_word = substituted(WordUnit::Unquoted(TextUnit::CommandSubst(id_script())));
    long_word.words[0].units.push(WordUnit::Unquoted(TextUnit::Literal));
    assert!(get_subshell_command_subst(&long_word).is_none());
    assert!(get_subshell_command_subst(&simple(&[])).is_none());
}

#[test]
fn transparent_subshell_is_walked_twice_and_not_invoked() {
    let mut ctx = Context::default();
    let bare = substituted(WordUnit::Unquoted(TextUnit::CommandSubst(id_script())));
    validate_simple_command(&mut ctx, &bare, &[]).unwrap();
    assert_eq!(
        ctx.resolve(),
        vec![
            "Function call outside of any function: \"id\"",
            "Running unrecognized command: \"id\"",
            "Function call outside of any function: \"id\"",
            "Running unrecognized command: \"id\"",
        ]
    );
}

#[test]
fn substitution_among_other_words_is_walked_once_then_invoked() {
    let mut ctx = Context::default();
    let mut command = substituted(WordUnit::Unquoted(TextUnit::CommandSubst(id_script())));
    command.words.push(literal("x"));
    command.text = "$(id) x".to_string();
    validate_simple_command(&mut ctx, &command, &["f".to_string()]).unwrap();
    assert_eq!(
        ctx.resolve(),
        vec!["Running unrecognized command: \"id\"", "Command name contains variable: \"$(id)\""]
    );
}

#[test]
fn assignments_are_scanned_before_words_and_redirections_come_last() {
    let mut ctx = Context::default();
    let sub = |name: &str| {
        Word {
            units: vec![WordUnit::Unquoted(TextUnit::CommandSubst(Substitution::Parsed(script(
                vec![run(&[name])],
            ))))],
            text: format!("$({})", name),
        }
    };
    let command = SimpleCommand {
        assigns: vec![
            Assign { value: Value::Scalar(sub("a1")) },
            Assign { value: Value::Array(vec![sub("a2"), literal("x"), sub("a3")]) },
        ],
        words: vec![literal("tool"), sub("w1")],
        redirs: vec![Redir {
            fd: None,
            body: RedirBody::Normal {
                operator: RedirOp::FileOut,
                operand: Operand { text: "/tmp/out".to_string(), debug: String::new() },
            },
        }],
        text: "tool $(w1) >/tmp/out".to_string(),
    };
    validate_simple_command(&mut ctx, &command, &["f".to_string()]).unwrap();
    assert_eq!(
        ctx.resolve(),
        vec![
            unrecognized("a1"),
            unrecognized("a2"),
            unrecognized("a3"),
            unrecognized("w1"),
            unrecognized("tool $(w1) >/tmp/out"),
            "File write to: \"/tmp/out\"".to_string(),
        ]
    );
}

#[test]
fn command_without_words_invokes_nothing() {
    let mut ctx = Context::empty();
    let mut command = simple(&[]);
    command.assigns = vec![Assign { value: Value::Scalar(literal("1")) }];
    validate_simple_command(&mut ctx, &command, &[]).unwrap();
    assert_eq!(ctx.resolve(), Vec::<String>::new());
}

#[test]
fn arithmetic_content_is_not_scanned_for_substitutions() {
    let mut ctx = Context::default();
    let hidden = TextUnit::Arith(vec![TextUnit::CommandSubst(id_script())]);
    validate_text_unit(&mut ctx, &hidden, &[]).unwrap();
    assert_eq!(ctx.resolve(), Vec::<String>::new());
    let refused = TextUnit::Arith(vec![TextUnit::CommandSubst(Substitution::Invalid(
        "x".to_string(),
    ))]);
    assert!(validate_text_unit(&mut ctx, &refused, &[]).is_ok());
}

#[test]
fn quoting_decides_what_is_scanned() {
    let mut ctx = Context::default();
    let word = Word {
        units: vec![
            WordUnit::SingleQuote,
            WordUnit::DoubleQuote(vec![
                TextUnit::Literal,
                TextUnit::Backquote(Substitution::Parsed(script(vec![run(&["one"])]))),
                TextUnit::CommandSubst(Substitution::Parsed(script(vec![run(&["two"])]))),
            ]),
            WordUnit::Tilde,
            WordUnit::Unquoted(TextUnit::Backquote(Substitution::Parsed(script(vec![run(&[
                "three",
            ])])))),
        ],
        text: String::new(),
    };
    validate_word(&mut ctx, &word, &["f".to_string()]).unwrap();
    assert_eq!(ctx.resolve(), vec![unrecognized("one"), unrecognized("two"), unrecognized("three")]);
}

#[test]
fn conditions_hold_until_the_function_is_declared() {
    let mut ctx = Context::empty();
    let condition = FindingCondition::FunctionUndeclared("helper".to_string());
    assert!(condition.holds(&ctx));
    ctx.finding_conditional("deferred".to_string(), vec![condition]);
    ctx.finding("always".to_string());
    ctx.finding_conditional(
        "both".to_string(),
        vec![
            FindingCondition::FunctionUndeclared("other".to_string()),
            FindingCondition::FunctionUndeclared("helper".to_string()),
        ],
    );
    assert_eq!(ctx.resolve(), vec!["deferred", "always", "both"]);
    ctx.declare_function("helper".to_string());
    assert!(!FindingCondition::FunctionUndeclared("helper".to_string()).holds(&ctx));
    assert!(FindingCondition::FunctionUndeclared("helpe".to_string()).holds(&ctx));
    assert_eq!(ctx.resolve(), vec!["always"]);
    assert_eq!(ctx.declared_functions(), &vec!["helper".to_string()]);
}

#[test]
fn conditions_compare_by_the_function_they_name() {
    let helper = FindingCondition::FunctionUndeclared("helper".to_string());
    assert_eq!(helper, FindingCondition::FunctionUndeclared("helper".to_string()));
    assert_ne!(helper, FindingCondition::FunctionUndeclared("helpe".to_string()));
    assert_ne!(helper, FindingCondition::FunctionUndeclared(String::new()));
}

#[test]
fn trust_catalog_is_a_set() {
    let mut ctx = Context::empty();
    assert!(!ctx.trusts(&"cat".to_string()));
    ctx.trust("cat");
    ctx.trust("cat");
    ctx.trust_all(&["cat", "dog"]);
    assert!(ctx.trusts(&"cat".to_string()));
    assert!(ctx.trusts(&"dog".to_string()));
    assert!(!ctx.trusts(&"do".to_string()));
    assert_eq!(ctx.trusted_commands(), &vec!["cat".to_string(), "dog".to_string()]);
    assert!(Context::default().trusts(&"chmod".to_string()));
    assert!(Context::default().trusts(&":".to_string()));
    assert!(!Context::default().trusts(&"curl".to_string()));
    assert_eq!(Context::default().trusted_commands().len(), 36);
}

#[test]
fn compound_depth_is_counted() {
    let mut ctx = Context::empty();
    assert!(!ctx.is_inside_compound());
    ctx.enter_compound().unwrap();
    ctx.enter_compound().unwrap();
    assert_eq!(ctx.inside_compound(), 2);
    ctx.leave_compound();
    assert!(ctx.is_inside_compound());
    ctx.leave_compound();
    assert!(!ctx.is_inside_compound());
    ctx.leave_compound();
    assert_eq!(ctx.inside_compound(), 0);
}

#[test]
fn backquote_text_drops_the_backslashes() {
    let units = vec![
        BackquoteUnit::Literal('e'),
        BackquoteUnit::Backslashed('\\'),
        BackquoteUnit::Literal('\''),
        BackquoteUnit::Backslashed('$'),
        BackquoteUnit::Literal('é'),
    ];
    assert_eq!(assemble_backquote(&units), "e\\'$é");
    assert_eq!(assemble_backquote(&[]), "");
}

#[test]
fn decimal_numerals() {
    assert_eq!(decimal_text(0), "0");
    assert_eq!(decimal_text(7), "7");
    assert_eq!(decimal_text(10), "10");
    assert_eq!(decimal_text(1009), "1009");
    assert_eq!(decimal_text(-1), "-1");
    assert_eq!(decimal_text(-120), "-120");
    assert_eq!(decimal_text(i32::MAX), "2147483647");
    assert_eq!(decimal_text(i32::MIN), "-2147483648");
}

#[test]
fn quoted_lists() {
    assert_eq!(quote_list(&[]), "[]");
    assert_eq!(quote_list(&["a".to_string()]), "[\"a\"]");
    assert_eq!(
        quote_list(&["a".to_string(), "b c".to_string(), "\"".to_string()]),
        "[\"a\", \"b c\", \"\\\"\"]"
    );
    let names = vec!["x".to_string(), "tab\there".to_string()];
    assert_eq!(quote_list(&names), format!("{:?}", names));
}

#[test]
fn error_messages() {
    assert_eq!(Error::syntax("oops").message(), "Failed to parse shell script: oops");
    assert_eq!(Error::syntax("").message(), "Failed to parse shell script: ");
    assert_eq!(Error::Depth.message(), "Compound commands are nested too deeply");
}
