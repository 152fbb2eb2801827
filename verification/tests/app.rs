use seahorse::error::FlagError;
use seahorse::{Action, App, Command, Context, Flag, FlagType, Outcome};

fn strings(v: &[&str]) -> Vec<String> {
    v.iter().map(|s| s.to_string()).collect()
}

fn expect_run(outcome: Outcome, action: Action) -> Context {
    match outcome {
        Outcome::Run(a, context) => {
            assert_eq!(a, action);
            context
        }
        _ => panic!("expected a run"),
    }
}

fn float_of(c: &Context, name: &str) -> Result<f64, FlagError> {
    c.float_flag(name).map(|s| s.parse::<f64>().unwrap())
}

#[test]
fn app_new_only_test() {
    let app = App::new("cli");
    match app.run(vec!["cli".to_string()]) {
        Outcome::Help(text) => assert_eq!(text, app.help_text()),
        _ => panic!("expected help"),
    }

    assert_eq!(app.name, "cli".to_string());
    assert_eq!(app.usage, None);
    assert_eq!(app.author, None);
    assert_eq!(app.description, None);
    assert_eq!(app.version, None);
}

#[test]
fn multiple_app_test() {
    let a = Action { id: 0 };
    let check = |c: &Context| {
        assert_eq!(true, c.bool_flag("bool"));
        match c.string_flag("string") {
            Ok(flag) => assert_eq!("string".to_string(), flag),
            _ => assert!(false, "string test false..."),
        }
        match c.int_flag("int") {
            Ok(flag) => assert_eq!(100, flag),
            _ => assert!(false, "int test false..."),
        }
        match float_of(c, "float") {
            Ok(flag) => assert_eq!(1.23, flag),
            _ => assert!(false, "float test false..."),
        }
    };
    let c = Command::new("hello")
        .alias("h")
        .description("hello command")
        .usage("test hello(h) args")
        .action(a)
        .flag(Flag::new("bool", FlagType::Bool))
        .flag(Flag::new("string", FlagType::String))
        .flag(Flag::new("int", FlagType::Int))
        .flag(Flag::new("float", FlagType::Float));

    let app = App::new("test")
        .author("Author <author@example.com>")
        .description("This is a great tool.")
        .usage("test [command] [arg]")
        .version("0.0.1")
        .command(c);

    check(&expect_run(
        app.run(vec![
            "test".to_string(),
            "hello".to_string(),
            "args".to_string(),
            "--bool".to_string(),
            "--string".to_string(),
            "string".to_string(),
            "--int".to_string(),
            "100".to_string(),
            "--float".to_string(),
            "1.23".to_string(),
        ]),
        a,
    ));

    check(&expect_run(
        app.run(vec![
            "test".to_string(),
            "h".to_string(),
            "args".to_string(),
            "--bool".to_string(),
            "--string".to_string(),
            "string".to_string(),
            "--int".to_string(),
            "100".to_string(),
            "--float".to_string(),
            "1.23".to_string(),
        ]),
        a,
    ));

    assert_eq!(app.name, "test".to_string());
    assert_eq!(app.usage, Some("test [command] [arg]".to_string()));
    assert_eq!(app.author, Some("Author <author@example.com>".to_string()));
    assert_eq!(app.description, Some("This is a great tool.".to_string()));
    assert_eq!(app.version, Some("0.0.1".to_string()));
}

#[test]
fn app_single_app_test() {
    let action = Action { id: 0 };
    let check = |c: &Context| {
        assert_eq!(true, c.bool_flag("bool"));
        match c.string_flag("string") {
            Ok(flag) => assert_eq!("string".to_string(), flag),
            _ => assert!(false, "string test false..."),
        }
        match c.int_flag("int") {
            Ok(flag) => assert_eq!(100, flag),
            _ => assert!(false, "int test false..."),
        }
        match float_of(c, "float") {
            Ok(flag) => assert_eq!(1.23, flag),
            _ => assert!(false, "float test false..."),
        }
    };

    let app = App::new("test")
        .author("Author <author@example.com>")
        .description("This is a great tool.")
        .usage("test [arg]")
        .version("0.0.1")
        .action(action)
        .flag(Flag::new("bool", FlagType::Bool))
        .flag(Flag::new("string", FlagType::String))
        .flag(Flag::new("int", FlagType::Int))
        .flag(Flag::new("float", FlagType::Float));

    check(&expect_run(
        app.run(vec![
            "test".to_string(),
            "args".to_string(),
            "--bool".to_string(),
            "--string".to_string(),
            "string".to_string(),
            "--int".to_string(),
            "100".to_string(),
            "--float".to_string(),
            "1.23".to_string(),
        ]),
        action,
    ));

    assert_eq!(app.name, "test".to_string());
    assert_eq!(app.usage, Some("test [arg]".to_string()));
    assert_eq!(app.author, Some("Author <author@example.com>".to_string()));
    assert_eq!(app.description, Some("This is a great tool.".to_string()));
    assert_eq!(app.version, Some("0.0.1".to_string()));
}

#[test]
fn flag_only_app_test() {
    let action = Action { id: 0 };
    let check = |c: &Context| {
        assert_eq!(true, c.bool_flag("bool"));
        match c.string_flag("string") {
            Ok(flag) => assert_eq!("string".to_string(), flag),
            _ => assert!(false, "string test false..."),
        }
        match c.int_flag("int") {
            Ok(flag) => assert_eq!(100, flag),
            _ => assert!(false, "int test false..."),
        }
        match float_of(c, "float") {
            Ok(flag) => assert_eq!(1.23, flag),
            _ => assert!(false, "float test false..."),
        }
    };

    let app = App::new("test")
        .author("Author <author@example.com>")
        .description("This is a great tool.")
        .usage("test")
        .version("0.0.1")
        .action(action)
        .flag(Flag::new("bool", FlagType::Bool))
        .flag(Flag::new("string", FlagType::String))
        .flag(Flag::new("int", FlagType::Int))
        .flag(Flag::new("float", FlagType::Float));

    check(&expect_run(
        app.run(vec![
            "test".to_string(),
            "--bool".to_string(),
            "--string".to_string(),
            "string".to_string(),
            "--int".to_string(),
            "100".to_string(),
            "--float".to_string(),
            "1.23".to_string(),
        ]),
        action,
    ));

    assert_eq!(app.name, "test".to_string());
    assert_eq!(app.usage, Some("test".to_string()));
    assert_eq!(app.author, Some("Author <author@example.com>".to_string()));
    assert_eq!(app.description, Some("This is a great tool.".to_string()));
    assert_eq!(app.version, Some("0.0.1".to_string()));
}

#[test]
fn single_app_equal_notation_test() {
    let action = Action { id: 0 };
    let check = |c: &Context| {
        assert_eq!(true, c.bool_flag("bool"));
        match c.string_flag("string") {
            Ok(flag) => assert_eq!("str=ing".to_string(), flag),
            _ => assert!(false, "string test false..."),
        }
        match c.int_flag("int") {
            Ok(flag) => assert_eq!(100, flag),
            _ => assert!(false, "int test false..."),
        }
        match float_of(c, "float") {
            Ok(flag) => assert_eq!(1.23, flag),
            _ => assert!(false, "float test false..."),
        }
    };

    let app = App::new("test")
        .author("Author <author@example.com>")
        .description("This is a great tool.")
        .usage("test [arg]")
        .version("0.0.1")
        .action(action)
        .flag(Flag::new("bool", FlagType::Bool))
        .flag(Flag::new("string", FlagType::String))
        .flag(Flag::new("int", FlagType::Int))
        .flag(Flag::new("float", FlagType::Float).alias("f"));

    check(&expect_run(
        app.run(vec![
            "test".to_string(),
            "args".to_string(),
            "--bool".to_string(),
            "--string=str=ing".to_string(),
            "--int=100".to_string(),
            "-f=1.23".to_string(),
        ]),
        action,
    ));

    assert_eq!(app.name, "test".to_string());
    assert_eq!(app.usage, Some("test [arg]".to_string()));
    assert_eq!(app.author, Some("Author <author@example.com>".to_string()));
    assert_eq!(app.description, Some("This is a great tool.".to_string()));
    assert_eq!(app.version, Some("0.0.1".to_string()));
}

#[test]
fn app_test() {
    let a = Action { id: 0 };
    let c = Command::new("hello")
        .usage("test hello args")
        .action(a)
        .flag(Flag::new("bool", FlagType::Bool).description("test hello [args] --bool"))
        .flag(
            Flag::new("string", FlagType::String)
                .description("test hello [args] --int [int value]"),
        )
        .flag(Flag::new("int", FlagType::Int).description("test hello [args] --int [int value]"))
        .flag(
            Flag::new("float", FlagType::Float)
                .description("test hello [args] --int [int value]"),
        );
    let app = App::new("test")
        .author("Author <author@example.com>")
        .description("This is a great tool.")
        .usage("test [command] [arg]")
        .version("0.0.1")
        .command(c);

    let c = expect_run(
        app.run(vec![
            "test".to_string(),
            "hello".to_string(),
            "args".to_string(),
            "--bool".to_string(),
            "--string".to_string(),
            "string".to_string(),
            "--int".to_string(),
            "100".to_string(),
            "--float".to_string(),
            "1.23".to_string(),
        ]),
        a,
    );
    assert_eq!(true, c.bool_flag("bool"));
    assert_eq!(c.string_flag("string"), Ok("string".to_string()));
    assert_eq!(c.int_flag("int"), Ok(100));
    assert_eq!(float_of(&c, "float"), Ok(1.23));

    assert_eq!(app.name, "test".to_string());
    assert_eq!(app.usage, Some("test [command] [arg]".to_string()));
    assert_eq!(app.author, Some("Author <author@example.com>".to_string()));
    assert_eq!(app.description, Some("This is a great tool.".to_string()));
    assert_eq!(app.version, Some("0.0.1".to_string()));
}

#[test]
fn single_app_single_app_test() {
    let a = Action { id: 0 };
    let app = App::new("test")
        .usage("test [url]")
        .version("0.0.1")
        .action(a)
        .flag(Flag::new("bool", FlagType::Bool).description("test [url] --bool"));

    let c = expect_run(
        app.run(vec![
            "test".to_string(),
            "http://google.com".to_string(),
            "--bool".to_string(),
        ]),
        a,
    );
    if c.bool_flag("bool") {
        assert!(true, "bool test true");
    } else {
        assert!(false, "bool test false");
    }

    assert_eq!(app.name, "test".to_string());
    assert_eq!(app.description, None);
    assert_eq!(app.usage, Some("test [url]".to_string()));
    assert_eq!(app.version, Some("0.0.1".to_string()));
}

#[test]
fn a_command_line_reaches_its_command_with_arguments_and_flags() {
    let app = App::new("prog").command(
        Command::new("hello")
            .action(Action { id: 5 })
            .flag(Flag::new("bool", FlagType::Bool).alias("b"))
            .flag(Flag::new("string", FlagType::String)),
    );
    let c = expect_run(
        app.run(strings(&["prog", "hello", "world", "--bool", "--string", "hi"])),
        Action { id: 5 },
    );
    assert_eq!(c.args, strings(&["world"]));
    assert_eq!(c.bool_flag("bool"), true);
    assert_eq!(c.string_flag("string"), Ok("hi".to_string()));
}

#[test]
fn an_unknown_command_falls_through_to_the_action_of_the_app() {
    let app = App::new("prog")
        .action(Action { id: 1 })
        .flag(Flag::new("v", FlagType::Bool))
        .command(Command::new("hello").action(Action { id: 2 }));
    let c = expect_run(
        app.run(strings(&["prog", "goodbye", "--v", "now"])),
        Action { id: 1 },
    );
    assert_eq!(c.args, strings(&["goodbye", "now"]));
    assert_eq!(c.bool_flag("v"), true);
    assert_eq!(c.help_text(), app.help_text());
}

#[test]
fn an_unknown_command_without_action_shows_the_help_of_the_app() {
    let app = App::new("prog").command(Command::new("hello").action(Action { id: 2 }));
    match app.run(strings(&["prog", "goodbye"])) {
        Outcome::Help(text) => assert_eq!(text, app.help_text()),
        _ => panic!("expected help"),
    }
}

#[test]
fn a_registered_command_name_is_known_before_a_second_registration() {
    let app = App::new("cli").command(Command::new("hello"));
    assert!(app.has_command("hello"));
    assert!(!app.has_command("world"));
    assert!(!App::new("cli").has_command("hello"));
}

#[test]
fn a_declared_flag_is_known_before_a_second_declaration() {
    let app = App::new("cli").flag(Flag::new("bool", FlagType::Bool));
    assert!(app.has_flag("bool"));
    assert!(!app.has_flag("int"));
}

#[test]
fn the_name_of_the_program_selects_no_command() {
    let app = App::new("hello")
        .action(Action { id: 1 })
        .command(Command::new("hello").action(Action { id: 2 }));
    let c = expect_run(app.run(strings(&["hello"])), Action { id: 1 });
    assert_eq!(c.args, strings(&[]));
    let c = expect_run(app.run(strings(&["hello", "hello", "x"])), Action { id: 2 });
    assert_eq!(c.args, strings(&["x"]));
    let c = expect_run(app.run(strings(&[])), Action { id: 1 });
    assert_eq!(c.args, strings(&[]));
}

#[test]
fn a_help_flag_shows_the_help_of_the_command_reached() {
    let hello = Command::new("hello").action(Action { id: 2 }).usage("prog hello");
    let hello_help = hello.help_text();
    let app = App::new("prog").action(Action { id: 1 }).command(hello);
    for args in [strings(&["prog", "-h"]), strings(&["prog", "x", "--help"])] {
        match app.run(args) {
            Outcome::Help(text) => assert_eq!(text, app.help_text()),
            _ => panic!("expected help"),
        }
    }
    match app.run(strings(&["prog", "hello", "--help"])) {
        Outcome::Help(text) => assert_eq!(text, hello_help),
        _ => panic!("expected help"),
    }
    match app.run(strings(&["prog", "hello", "x", "--help=1"])) {
        Outcome::Help(text) => assert_eq!(text, hello_help),
        _ => panic!("expected help"),
    }
}

#[test]
fn select_command_goes_by_name_and_alias() {
    let app = App::new("prog")
        .command(Command::new("hello").alias("h"))
        .command(Command::new("world"));
    assert_eq!(app.select_command("hello").map(|c| c.name.as_str()), Some("hello"));
    assert_eq!(app.select_command("h").map(|c| c.name.as_str()), Some("hello"));
    assert_eq!(app.select_command("world").map(|c| c.name.as_str()), Some("world"));
    assert!(app.select_command("w").is_none());
    assert!(App::new("prog").select_command("hello").is_none());
}

#[test]
fn the_help_text_of_an_app() {
    let app = App::new("test")
        .author("Author <author@example.com>")
        .description("This is a great tool.")
        .usage("test [command] [arg]")
        .version("0.0.1")
        .flag(Flag::new("int", FlagType::Int).description("a number"))
        .command(Command::new("hello").alias("h").description("hello command"))
        .command(Command::new("goodbye"));
    assert_eq!(
        app.help_text(),
        "Name:\n\ttest\n\n\
         Author:\n\tAuthor <author@example.com>\n\n\
         Description:\n\tThis is a great tool.\n\n\
         Usage:\n\ttest [command] [arg]\n\n\
         Flags:\n\
         \t--int <int> : a number\n\
         \t-h, --help  : Show help\n\
         \nCommands:\n\
         \th, hello : hello command\n\
         \tgoodbye  : \n\
         \nVersion:\n\t0.0.1\n"
    );
}

#[test]
fn the_help_text_of_a_bare_app() {
    assert_eq!(
        App::new("cli").help_text(),
        "Name:\n\tcli\n\nFlags:\n\t-h, --help : Show help\n"
    );
}

#[test]
fn columns_are_as_wide_as_the_bytes_of_the_widest_label() {
    let app = App::new("cli")
        .flag(Flag::new("größe", FlagType::Int).description("size"))
        .flag(Flag::new("n", FlagType::Int).description("count"));
    assert_eq!(
        app.help_text(),
        "Name:\n\tcli\n\nFlags:\n\
         \t--größe <int> : size\n\
         \t--n <int>       : count\n\
         \t-h, --help      : Show help\n"
    );
}

#[test]
fn a_command_of_an_app_gets_its_arguments_normalized_once() {
    let app = App::new("prog").command(
        Command::new("sub")
            .action(Action { id: 2 })
            .flag(Flag::new("a", FlagType::String))
            .flag(Flag::new("b", FlagType::String)),
    );
    let c = expect_run(
        app.run(strings(&["prog", "sub", "--a=-b=c"])),
        Action { id: 2 },
    );
    assert_eq!(c.string_flag("a"), Ok("-b=c".to_string()));
    assert_eq!(c.string_flag("b"), Err(FlagError::NotFound));
    assert_eq!(c.args, strings(&[]));
}

#[test]
fn the_default_app_has_nothing_set() {
    let app = App::default();
    assert_eq!(app.name, "");
    assert_eq!(app.author, None);
    assert_eq!(app.description, None);
    assert_eq!(app.usage, None);
    assert_eq!(app.version, None);
    assert!(app.commands.is_none());
    assert_eq!(app.action, None);
    assert!(app.flags.is_none());
}
