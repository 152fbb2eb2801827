//! The application: the entry point that a command line is given to.

use vstd::prelude::*;
use vstd::string::*;
use crate::action::Action;
use crate::context::context_of;
use crate::command::{
    asks_for_help, asks_help, calls_one, command_help_text, command_models, command_outcome,
    command_registered, commands_help, decide, find_command, handler_outcome, has_command,
    lemma_select, push_titled, select, titled, unique_command_names, with_command, Command,
    CommandModel, Outcome, OutcomeModel,
};
use crate::flag::{declared, flag_declared, flags_wf, has_flag, with_flag, Flag, FlagModel};
use crate::help::{flag_help, flag_help_text};
use crate::text::{opt_text, texts};
use crate::utils::{expand_tokens, normalize};

verus! {

/// A declared application.
pub struct App {
    /// The name of the application.
    pub name: String,
    /// Who wrote it.
    pub author: Option<String>,
    /// What it is for.
    pub description: Option<String>,
    /// How it is used.
    pub usage: Option<String>,
    /// Its version.
    pub version: Option<String>,
    /// The commands that it has.
    pub commands: Option<Vec<Command>>,
    /// The handler that runs where no command is called, if it has one.
    pub action: Option<Action>,
    /// The flags that this handler takes.
    pub flags: Option<Vec<Flag>>,
}

/// A declared application as a mathematical value.
pub struct AppModel {
    pub name: Seq<char>,
    pub author: Option<Seq<char>>,
    pub description: Option<Seq<char>>,
    pub usage: Option<Seq<char>>,
    pub version: Option<Seq<char>>,
    pub commands: Seq<CommandModel>,
    pub action: Option<Action>,
    pub flags: Seq<FlagModel>,
}

impl View for App {
    type V = AppModel;

    open spec fn view(&self) -> AppModel {
        AppModel {
            name: self.name@,
            author: opt_text(self.author),
            description: opt_text(self.description),
            usage: opt_text(self.usage),
            version: opt_text(self.version),
            commands: command_models(self.commands),
            action: self.action,
            flags: declared(self.flags),
        }
    }
}

impl AppModel {
    /// The application is well formed: its flags are, no two of its
    /// commands have the same name, and each of them is well formed.
    pub open spec fn wf(self) -> bool {
        &&& flags_wf(self.flags)
        &&& unique_command_names(self.commands)
        &&& forall|i: int| 0 <= i < self.commands.len() ==> (#[trigger] self.commands[i]).wf()
    }
}

/// The last paragraph of an application's help text: its version, where it
/// has one.
pub open spec fn version_help(version: Option<Seq<char>>) -> Seq<char> {
    match version {
        Some(v) => "\nVersion:\n\t"@ + v + "\n"@,
        None => Seq::empty(),
    }
}

/// The help text of an application: name, author, description, usage,
/// flags, commands and version.
pub open spec fn app_help(a: AppModel) -> Seq<char> {
    "Name:\n\t"@ + a.name + "\n\n"@ + titled("Author:\n\t"@, a.author) + titled(
        "Description:\n\t"@,
        a.description,
    ) + titled("Usage:\n\t"@, a.usage) + flag_help(a.flags) + commands_help(a.commands)
        + version_help(a.version)
}

/// The arguments without the name of the program, which comes first.
pub open spec fn after_program(tokens: Seq<Seq<char>>) -> Seq<Seq<char>> {
    if tokens.len() > 0 {
        tokens.drop_first()
    } else {
        tokens
    }
}

/// What is to be done when the raw arguments `raw`, the name of the
/// program first, are given to the application `a`.
///
/// The arguments are brought into canonical shape. Where the one after the
/// program's name calls a command, the arguments after it go to that
/// command. Else the application itself answers, with all the arguments
/// after the program's name.
pub open spec fn app_outcome(a: AppModel, raw: Seq<Seq<char>>) -> OutcomeModel {
    let tokens = expand_tokens(raw, false);
    let rest = after_program(tokens);
    if calls_one(a.commands, rest) {
        command_outcome(a.commands[select(a.commands, rest[0])], rest.drop_first())
    } else {
        handler_outcome(a.action, None, a.flags, app_help(a), asks_help(tokens), rest)
    }
}

/// An application with an action falls back on it: where the argument
/// after the program's name calls no command and no argument asks for help,
/// the action runs, with the context that all the arguments after the
/// program's name give.
pub proof fn lemma_unknown_command_falls_through(a: AppModel, raw: Seq<Seq<char>>)
    requires
        a.action is Some,
        !asks_help(expand_tokens(raw, false)),
        after_program(expand_tokens(raw, false)).len() > 0,
        forall|i: int|
            0 <= i < a.commands.len() ==> !(#[trigger] a.commands[i]).answers_to(
                after_program(expand_tokens(raw, false))[0],
            ),
    ensures
        app_outcome(a, raw) == OutcomeModel::Run(
            a.action->0,
            context_of(
                after_program(expand_tokens(raw, false)),
                a.flags,
                app_help(a),
            ),
        ),
{
    let rest = after_program(expand_tokens(raw, false));
    lemma_select(a.commands, rest[0]);
}

impl Default for App {
    /// An application without a name, with nothing set.
    fn default() -> (r: App)
        ensures
            r@ == (AppModel {
                name: Seq::empty(),
                author: None,
                description: None,
                usage: None,
                version: None,
                commands: Seq::empty(),
                action: None,
                flags: Seq::empty(),
            }),
    {
        let r = App {
            name: String::new(),
            author: None,
            description: None,
            usage: None,
            version: None,
            commands: None,
            action: None,
            flags: None,
        };
        proof {
            assert(r@.commands =~= Seq::empty());
        }
        r
    }
}

impl App {
    /// Declares an application of the given name, with nothing else set.
    pub fn new(name: &str) -> (r: App)
        ensures
            r@ == (AppModel {
                name: name@,
                author: None,
                description: None,
                usage: None,
                version: None,
                commands: Seq::empty(),
                action: None,
                flags: Seq::empty(),
            }),
            r@.wf(),
    {
        let r = App {
            name: String::from_str(name),
            author: None,
            description: None,
            usage: None,
            version: None,
            commands: None,
            action: None,
            flags: None,
        };
        proof {
            assert(r@.commands =~= Seq::empty());
        }
        r
    }

    /// Sets the author.
    pub fn author(self, author: &str) -> (r: App)
        ensures
            r@ == (AppModel { author: Some(author@), ..self@ }),
    {
        let mut r = self;
        r.author = Some(String::from_str(author));
        r
    }

    /// Sets the description.
    pub fn description(self, description: &str) -> (r: App)
        ensures
            r@ == (AppModel { description: Some(description@), ..self@ }),
    {
        let mut r = self;
        r.description = Some(String::from_str(description));
        r
    }

    /// Sets the usage.
    pub fn usage(self, usage: &str) -> (r: App)
        ensures
            r@ == (AppModel { usage: Some(usage@), ..self@ }),
    {
        let mut r = self;
        r.usage = Some(String::from_str(usage));
        r
    }

    /// Sets the version.
    pub fn version(self, version: &str) -> (r: App)
        ensures
            r@ == (AppModel { version: Some(version@), ..self@ }),
    {
        let mut r = self;
        r.version = Some(String::from_str(version));
        r
    }

    /// Whether the application has a command of that name.
    pub fn has_command(&self, name: &str) -> (r: bool)
        ensures
            r == command_registered(self@.commands, name@),
    {
        has_command(&self.commands, name)
    }

    /// Registers a command, after those that the application has. No two
    /// commands of an application have the same name.
    pub fn command(self, command: Command) -> (r: App)
        requires
            !command_registered(self@.commands, command@.name),
        ensures
            r@ == (AppModel { commands: self@.commands.push(command@), ..self@ }),
            self@.wf() && command@.wf() ==> r@.wf(),
    {
        let mut r = self;
        r.commands = with_command(r.commands, command);
        proof {
            let after = r@.commands;
            let before = self@.commands;
            if self@.wf() && command@.wf() {
                assert forall|i: int| 0 <= i < after.len() implies (#[trigger] after[i]).wf() by {
                    if i < before.len() {
                        assert(after[i] == before[i]);
                    }
                }
            }
        }
        r
    }

    /// Sets the handler that runs where no command is called.
    pub fn action(self, action: Action) -> (r: App)
        ensures
            r@ == (AppModel { action: Some(action), ..self@ }),
    {
        let mut r = self;
        r.action = Some(action);
        r
    }

    /// Whether the application has a flag of that name.
    pub fn has_flag(&self, name: &str) -> (r: bool)
        ensures
            r == flag_declared(self@.flags, name@),
    {
        has_flag(&self.flags, name)
    }

    /// Declares a flag, after those that the application has. No two flags
    /// of an application have the same name.
    pub fn flag(self, flag: Flag) -> (r: App)
        requires
            !flag_declared(self@.flags, flag@.name),
        ensures
            r@ == (AppModel { flags: self@.flags.push(flag@), ..self@ }),
            self@.wf() && flag@.wf() ==> r@.wf(),
    {
        let mut r = self;
        r.flags = with_flag(r.flags, flag);
        r
    }

    /// The help text of the application.
    pub fn help_text(&self) -> (r: String)
        ensures
            r@ == app_help(self@),
    {
        let mut text = String::from_str("Name:\n\t");
        text.append(self.name.as_str());
        text.append("\n\n");
        push_titled(&mut text, "Author:\n\t", &self.author);
        push_titled(&mut text, "Description:\n\t", &self.description);
        push_titled(&mut text, "Usage:\n\t", &self.usage);
        let flags = flag_help_text(&self.flags);
        text.append(flags.as_str());
        let commands = command_help_text(&self.commands);
        text.append(commands.as_str());
        let ghost body = text@;
        match &self.version {
            Some(v) => {
                text.append("\nVersion:\n\t");
                text.append(v.as_str());
                text.append("\n");
                proof {
                    assert(text@ =~= body + version_help(self@.version));
                }
            },
            None => {
                proof {
                    assert(text@ =~= body + version_help(self@.version));
                }
            },
        }
        proof {
            assert(text@ =~= app_help(self@));
        }
        text
    }

    /// Brings raw arguments into canonical shape: `--flag=value` becomes
    /// `--flag value`.
    pub fn normalized_args(raw_args: Vec<String>) -> (out: Vec<String>)
        ensures
            texts(out@) == expand_tokens(texts(raw_args@), false),
    {
        normalize(raw_args, false)
    }

    /// The first command that the token calls, if it calls one.
    pub fn select_command(&self, cmd: &str) -> (r: Option<&Command>)
        ensures
            r is Some <==> select(self@.commands, cmd@) < self@.commands.len(),
            r is Some ==> (*r->0)@ == self@.commands[select(self@.commands, cmd@)],
    {
        match find_command(&self.commands, cmd) {
            Some(k) => match &self.commands {
                Some(list) => Some(&list[k]),
                None => None,
            },
            None => None,
        }
    }

    /// Decides what is to be done for the raw arguments of the program,
    /// its name first.
    pub fn run(&self, args: Vec<String>) -> (r: Outcome)
        ensures
            r@ == app_outcome(self@, texts(args@)),
    {
        let tokens = App::normalized_args(args);
        let help_asked = asks_for_help(&tokens);
        let mut rest = tokens;
        if rest.len() > 0 {
            rest.remove(0);
        }
        proof {
            assert(texts(rest@) =~= after_program(expand_tokens(texts(args@), false)));
        }
        if rest.len() > 0 {
            match self.select_command(rest[0].as_str()) {
                Some(command) => {
                    let ghost given = texts(rest@);
                    rest.remove(0);
                    proof {
                        assert(texts(rest@) =~= given.drop_first());
                        lemma_select(self@.commands, given[0]);
                    }
                    return command.run(rest);
                },
                None => {},
            }
        }
        decide(self.action, None, &self.flags, self.help_text(), help_asked, rest)
    }
}

} // verus!
