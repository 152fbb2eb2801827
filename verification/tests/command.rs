use seahorse::error::FlagError;
use seahorse::{Action, ActionWithResult, Command, Flag, FlagType, Outcome};

fn strings(v: &[&str]) -> Vec<String> {
    v.iter().map(|s| s.to_string()).collect()
}

#[test]
fn command_test() {
    let a = Action { id: 0 };
    let c = Command::new("hello")
        .description("usre command")
        .usage("test hello user")
        .alias("c")
        .action(a)
        .flag(Flag::new("t", FlagType::Bool));

    assert_eq!(c.name, "hello".to_string());
    assert_eq!(c.usage, Some("test hello user".to_string()));
}

#[test]
fn sub_command_test() {
    let a = Action { id: 0 };
    let sub = Command::new("world")
        .description("user command")
        .usage("test hello world user")
        .alias("w")
        .action(a)
        .flag(Flag::new("t", FlagType::Bool));
    let c = Command::new("hello")
        .description("user command")
        .usage("test hello user")
        .alias("h")
        .action(a)
        .flag(Flag::new("t", FlagType::Bool))
        .command(sub);

    assert_eq!(c.name, "hello".to_string());
    assert_eq!(c.usage, Some("test hello user".to_string()));
}

#[test]
fn a_new_command_has_only_its_name() {
    let c = Command::new("cmd");
    assert_eq!(c.name, "cmd");
    assert_eq!(c.description, None);
    assert_eq!(c.usage, None);
    assert_eq!(c.action, None);
    assert_eq!(c.action_with_result, None);
    assert!(c.flags.is_none());
    assert_eq!(c.alias, None);
    assert!(c.commands.is_none());
}

#[test]
fn builders_fill_the_command() {
    let c = Command::new("cmd")
        .description("d")
        .usage("u")
        .alias("c")
        .alias("cm")
        .action_with_result(ActionWithResult { id: 3 })
        .flag(Flag::new("a", FlagType::Bool))
        .flag(Flag::new("b", FlagType::Int))
        .command(Command::new("x"))
        .command(Command::new("y"));
    assert_eq!(c.description, Some("d".to_string()));
    assert_eq!(c.usage, Some("u".to_string()));
    assert_eq!(c.alias, Some(strings(&["c", "cm"])));
    assert_eq!(c.action, None);
    assert_eq!(c.action_with_result, Some(ActionWithResult { id: 3 }));
    let flags = c.flags.as_ref().unwrap();
    assert_eq!(flags.len(), 2);
    assert_eq!(flags[0].name, "a");
    assert_eq!(flags[1].name, "b");
    let commands = c.commands.as_ref().unwrap();
    assert_eq!(commands.len(), 2);
    assert_eq!(commands[0].name, "x");
    assert_eq!(commands[1].name, "y");
}

#[test]
fn a_registered_name_is_known_before_a_second_registration() {
    let c = Command::new("parent").command(Command::new("hello").alias("h"));
    assert!(c.has_command("hello"));
    assert!(!c.has_command("h"));
    assert!(!c.has_command("world"));
    assert!(!Command::new("parent").has_command("hello"));
}

#[test]
fn a_declared_flag_name_is_known_before_a_second_declaration() {
    let c = Command::new("cmd").flag(Flag::new("bool", FlagType::Bool).alias("b"));
    assert!(c.has_flag("bool"));
    assert!(!c.has_flag("b"));
    assert!(!c.has_flag("int"));
}

#[test]
fn a_command_without_handler_shows_its_help() {
    let c = Command::new("cmd").usage("cli cmd");
    match c.run_with_result(strings(&["x", "--y"])) {
        Outcome::Help(text) => assert_eq!(text, c.help_text()),
        _ => panic!("expected help"),
    }
    match c.run_with_result(Vec::new()) {
        Outcome::Help(text) => assert_eq!(text, c.help_text()),
        _ => panic!("expected help"),
    }
}

#[test]
fn a_command_runs_its_action_with_all_its_arguments() {
    let c = Command::new("cmd")
        .action(Action { id: 7 })
        .flag(Flag::new("int", FlagType::Int));
    match c.run_with_result(strings(&["a", "--int=5", "b"])) {
        Outcome::Run(action, context) => {
            assert_eq!(action, Action { id: 7 });
            assert_eq!(context.args, strings(&["a", "b"]));
            assert_eq!(context.int_flag("int"), Ok(5));
            assert_eq!(context.help_text(), c.help_text());
        }
        _ => panic!("expected a run"),
    }
    match c.run_with_result(Vec::new()) {
        Outcome::Run(action, context) => {
            assert_eq!(action, Action { id: 7 });
            assert_eq!(context.args, strings(&[]));
            assert_eq!(context.int_flag("int"), Err(FlagError::NotFound));
        }
        _ => panic!("expected a run"),
    }
}

#[test]
fn a_command_runs_its_action_with_result() {
    let c = Command::new("cmd").action_with_result(ActionWithResult { id: 9 });
    match c.run_with_result(strings(&["a"])) {
        Outcome::RunWithResult(action, context) => {
            assert_eq!(action, ActionWithResult { id: 9 });
            assert_eq!(context.args, strings(&["a"]));
        }
        _ => panic!("expected a run with result"),
    }
}

#[test]
fn a_help_flag_among_the_arguments_shows_the_help() {
    let plain = Command::new("cmd").action(Action { id: 1 });
    let with_result = Command::new("cmd").action_with_result(ActionWithResult { id: 1 });
    for args in [
        strings(&["-h"]),
        strings(&["--help"]),
        strings(&["a", "b", "-h"]),
        strings(&["a", "--help", "b"]),
    ] {
        match plain.run_with_result(args.clone()) {
            Outcome::Help(text) => assert_eq!(text, plain.help_text()),
            _ => panic!("expected help"),
        }
        match with_result.run_with_result(args) {
            Outcome::Help(text) => assert_eq!(text, with_result.help_text()),
            _ => panic!("expected help"),
        }
    }
    match plain.run_with_result(strings(&["-help", "h", "--h"])) {
        Outcome::Run(_, _) => {}
        _ => panic!("expected a run"),
    }
}

#[test]
fn the_first_argument_selects_a_command_by_name_or_alias() {
    let c = Command::new("hello")
        .action(Action { id: 1 })
        .command(
            Command::new("world")
                .alias("w")
                .action(Action { id: 2 })
                .command(Command::new("deep").action_with_result(ActionWithResult { id: 3 })),
        )
        .command(Command::new("moon").action(Action { id: 4 }));
    let ids = |args: &[&str]| match c.run_with_result(strings(args)) {
        Outcome::Run(a, context) => (a.id, context.args),
        Outcome::RunWithResult(a, context) => (a.id + 100, context.args),
        Outcome::Help(_) => (usize::MAX, Vec::new()),
    };
    assert_eq!(ids(&["world", "x"]), (2, strings(&["x"])));
    assert_eq!(ids(&["w", "x"]), (2, strings(&["x"])));
    assert_eq!(ids(&["moon"]), (4, strings(&[])));
    assert_eq!(ids(&["world", "deep", "y"]), (103, strings(&["y"])));
    assert_eq!(ids(&["w", "w"]), (2, strings(&["w"])));
    assert_eq!(ids(&["x", "world"]), (1, strings(&["x", "world"])));
    assert_eq!(ids(&["World"]), (1, strings(&["World"])));
    assert_eq!(ids(&["deep"]), (1, strings(&["deep"])));
    assert_eq!(ids(&[]), (1, strings(&[])));
}

#[test]
fn among_commands_that_answer_the_first_registered_is_selected() {
    let c = Command::new("top")
        .command(Command::new("a").alias("x").action(Action { id: 1 }))
        .command(Command::new("x").action(Action { id: 2 }));
    match c.run_with_result(strings(&["x"])) {
        Outcome::Run(a, _) => assert_eq!(a.id, 1),
        _ => panic!("expected a run"),
    }
}

#[test]
fn arguments_are_normalized_once() {
    let c = Command::new("cmd")
        .action(Action { id: 1 })
        .flag(Flag::new("a", FlagType::String))
        .flag(Flag::new("b", FlagType::String));
    match c.run_with_result(strings(&["--a=-b=c"])) {
        Outcome::Run(_, context) => {
            assert_eq!(context.string_flag("a"), Ok("-b=c".to_string()));
            assert_eq!(context.string_flag("b"), Err(FlagError::NotFound));
        }
        _ => panic!("expected a run"),
    }
}

#[test]
fn a_command_under_another_gets_its_arguments_normalized_once() {
    let parent = Command::new("top").action(Action { id: 1 }).command(
        Command::new("sub")
            .action(Action { id: 2 })
            .flag(Flag::new("a", FlagType::String))
            .flag(Flag::new("b", FlagType::String)),
    );
    match parent.run_with_result(strings(&["sub", "--a=-b=c"])) {
        Outcome::Run(action, context) => {
            assert_eq!(action, Action { id: 2 });
            assert_eq!(context.string_flag("a"), Ok("-b=c".to_string()));
            assert_eq!(context.string_flag("b"), Err(FlagError::NotFound));
            assert_eq!(context.args, strings(&[]));
        }
        _ => panic!("expected a run"),
    }
    match parent.run_with_result(strings(&["sub", "x", "--a=-b=c", "y"])) {
        Outcome::Run(action, context) => {
            assert_eq!(action, Action { id: 2 });
            assert_eq!(context.string_flag("a"), Ok("-b=c".to_string()));
            assert_eq!(context.args, strings(&["x", "y"]));
        }
        _ => panic!("expected a run"),
    }
}

#[test]
fn run_takes_arguments_as_they_are() {
    let c = Command::new("cmd")
        .action(Action { id: 1 })
        .flag(Flag::new("a", FlagType::String));
    match c.run(strings(&["--a=x"])) {
        Outcome::Run(_, context) => {
            assert_eq!(context.string_flag("a"), Err(FlagError::NotFound));
            assert_eq!(context.args, strings(&["--a=x"]));
        }
        _ => panic!("expected a run"),
    }
}

#[test]
fn the_help_text_of_a_command() {
    let c = Command::new("hello")
        .description("hello command")
        .usage("test hello(h) args")
        .flag(Flag::new("bool", FlagType::Bool).alias("b").description("a bool"))
        .flag(Flag::new("int", FlagType::Int))
        .flag(
            Flag::new("string", FlagType::String)
                .alias("s")
                .alias("str")
                .description("a text"),
        )
        .flag(Flag::new("float", FlagType::Float).description("a number"))
        .command(Command::new("world").alias("w").alias("wo").description("the world"))
        .command(Command::new("moon"));
    let expected = format!(
        "Description:\n\thello command\n\n\
         Usage:\n\ttest hello(h) args\n\n\
         Flags:\n\
         \t-b, --bool {} : a bool\n\
         \t--int <int>\n\
         \t-s, -str, --string <string> : a text\n\
         \t--float <float>{} : a number\n\
         \t-h, --help{} : Show help\n\
         \nCommands:\n\
         \tw, wo, world : the world\n\
         \tmoon         : \n",
        " ".repeat(16),
        " ".repeat(12),
        " ".repeat(17)
    );
    assert_eq!(c.help_text(), expected);
}

#[test]
fn the_help_text_of_a_bare_command() {
    assert_eq!(
        Command::new("cmd").help_text(),
        "Flags:\n\t-h, --help : Show help\n"
    );
}

#[test]
fn the_default_command_has_nothing_set() {
    let c = Command::default();
    assert_eq!(c.name, "");
    assert_eq!(c.description, None);
    assert_eq!(c.usage, None);
    assert_eq!(c.action, None);
    assert_eq!(c.action_with_result, None);
    assert!(c.flags.is_none());
    assert_eq!(c.alias, None);
    assert!(c.commands.is_none());
}

#[test]
fn select_command_finds_a_command_under_this_one() {
    let c = Command::new("top")
        .command(Command::new("hello").alias("h"))
        .command(Command::new("world"));
    assert_eq!(c.select_command("hello").map(|c| c.name.as_str()), Some("hello"));
    assert_eq!(c.select_command("h").map(|c| c.name.as_str()), Some("hello"));
    assert_eq!(c.select_command("world").map(|c| c.name.as_str()), Some("world"));
    assert!(c.select_command("top").is_none());
    assert!(c.select_command("").is_none());
}

#[test]
fn a_command_normalizes_without_clustering() {
    assert_eq!(
        Command::normalized_args(strings(&["-abc=1", "x"])),
        strings(&["-abc", "1", "x"])
    );
}
