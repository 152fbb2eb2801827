//! Commands: their declaration, how a token selects one, the help text of
//! one, and which handler a command line reaches.

use vstd::prelude::*;
use vstd::string::*;
use crate::action::{Action, ActionWithResult};
use crate::context::{context_of, Context, ContextModel};
use crate::flag::{declared, flag_declared, flags_wf, has_flag, with_flag, Flag, FlagModel};
use crate::help::{
    byte_len, flag_help, flag_help_text, join_names, joined, lemma_widest, pad, spaces, widest,
    width,
};
use crate::text::{opt_text, same_text, texts};
use crate::utils::{expand_tokens, normalize};

verus! {

/// A declared command.
pub struct Command {
    /// The name by which the command is called.
    pub name: String,
    /// What the command is for, shown in the help text.
    pub description: Option<String>,
    /// How the command is used, shown in the help text.
    pub usage: Option<String>,
    /// The handler that reports nothing back, if the command has one.
    pub action: Option<Action>,
    /// The handler that reports success or an error, if the command has one.
    pub action_with_result: Option<ActionWithResult>,
    /// The flags that the command takes.
    pub flags: Option<Vec<Flag>>,
    /// Other names by which the command is called.
    pub alias: Option<Vec<String>>,
    /// The commands under this one.
    pub commands: Option<Vec<Command>>,
}

/// A declared command as a mathematical value.
pub struct CommandModel {
    pub name: Seq<char>,
    pub description: Option<Seq<char>>,
    pub usage: Option<Seq<char>>,
    pub action: Option<Action>,
    pub action_with_result: Option<ActionWithResult>,
    pub flags: Seq<FlagModel>,
    pub aliases: Seq<Seq<char>>,
    pub commands: Seq<CommandModel>,
}

/// The commands that were registered, if any were.
pub open spec fn registered(commands: Option<Vec<Command>>) -> Seq<Command> {
    match commands {
        Some(v) => v@,
        None => Seq::empty(),
    }
}

/// The model of a command, and of the commands under it.
pub open spec fn command_model(c: Command) -> CommandModel
    decreases c,
{
    CommandModel {
        name: c.name@,
        description: opt_text(c.description),
        usage: opt_text(c.usage),
        action: c.action,
        action_with_result: c.action_with_result,
        flags: declared(c.flags),
        aliases: match c.alias {
            Some(a) => texts(a@),
            None => Seq::empty(),
        },
        commands: Seq::new(
            registered(c.commands).len(),
            |i: int|
                if 0 <= i < registered(c.commands).len() {
                    command_model(registered(c.commands)[i])
                } else {
                    arbitrary()
                },
        ),
    }
}

impl View for Command {
    type V = CommandModel;

    open spec fn view(&self) -> CommandModel {
        command_model(*self)
    }
}

/// The models of registered commands.
pub open spec fn command_models(commands: Option<Vec<Command>>) -> Seq<CommandModel> {
    Seq::new(registered(commands).len(), |i: int| registered(commands)[i]@)
}

/// The commands in a command's model are the models of its commands.
pub proof fn lemma_command_model(c: Command)
    ensures
        c@.commands == command_models(c.commands),
{
    assert(c@.commands =~= command_models(c.commands));
}

/// Whether a command among `commands` has the name `name`.
pub open spec fn command_registered(commands: Seq<CommandModel>, name: Seq<char>) -> bool {
    exists|i: int| 0 <= i < commands.len() && (#[trigger] commands[i]).name == name
}

/// No two of the commands have the same name.
pub open spec fn unique_command_names(commands: Seq<CommandModel>) -> bool {
    forall|i: int, j: int|
        0 <= i < j < commands.len() ==> (#[trigger] commands[i]).name != (
        #[trigger] commands[j]).name
}

/// Once a command is registered its name is taken: a second command of
/// that name can no longer be registered after it.
pub proof fn lemma_registered_name_is_taken(commands: Seq<CommandModel>, c: CommandModel)
    ensures
        command_registered(commands.push(c), c.name),
        forall|name: Seq<char>|
            command_registered(commands, name) ==> command_registered(commands.push(c), name),
{
    let after = commands.push(c);
    assert(after[commands.len() as int].name == c.name);
    assert forall|name: Seq<char>| command_registered(commands, name) implies command_registered(
        after,
        name,
    ) by {
        let i = choose|i: int| 0 <= i < commands.len() && (#[trigger] commands[i]).name == name;
        assert(after[i].name == name);
    }
}

impl CommandModel {
    /// The command is well formed: its flags are, it has at most one
    /// handler, no two commands under it have the same name, and each of
    /// them is well formed.
    pub open spec fn wf(self) -> bool
        decreases self,
    {
        &&& flags_wf(self.flags)
        &&& !(self.action is Some && self.action_with_result is Some)
        &&& unique_command_names(self.commands)
        &&& forall|i: int| 0 <= i < self.commands.len() ==> (#[trigger] self.commands[i]).wf()
    }

    /// Whether the token calls this command, by its name or by an alias.
    pub open spec fn answers_to(self, token: Seq<char>) -> bool {
        self.name == token || self.aliases.contains(token)
    }
}

/// Index of the first command that `token` calls, or the number of commands
/// where it calls none.
pub open spec fn select(commands: Seq<CommandModel>, token: Seq<char>) -> int
    decreases commands.len(),
{
    if commands.len() == 0 {
        0
    } else if commands[0].answers_to(token) {
        0
    } else {
        1 + select(commands.drop_first(), token)
    }
}

/// `select` is in bounds, points at a command that the token calls, and the
/// token calls no command before it.
pub proof fn lemma_select(commands: Seq<CommandModel>, token: Seq<char>)
    ensures
        0 <= select(commands, token) <= commands.len(),
        select(commands, token) < commands.len() ==> commands[select(
            commands,
            token,
        )].answers_to(token),
        forall|j: int|
            0 <= j < select(commands, token) ==> !(#[trigger] commands[j]).answers_to(token),
    decreases commands.len(),
{
    if commands.len() == 0 {
    } else if commands[0].answers_to(token) {
    } else {
        let rest = commands.drop_first();
        lemma_select(rest, token);
        let p = select(rest, token);
        assert forall|j: int| 0 <= j < 1 + p implies !(#[trigger] commands[j]).answers_to(
            token,
        ) by {
            if j > 0 {
                assert(commands[j] == rest[j - 1]);
            }
        }
        if p < rest.len() {
            assert(commands[1 + p] == rest[p]);
        }
    }
}

/// Whether the first of the tokens calls one of the commands.
pub open spec fn calls_one(commands: Seq<CommandModel>, tokens: Seq<Seq<char>>) -> bool {
    tokens.len() > 0 && 0 <= select(commands, tokens[0]) < commands.len()
}

/// Whether a token asks for help.
pub open spec fn is_help_flag(token: Seq<char>) -> bool {
    token == "-h"@ || token == "--help"@
}

/// Whether one of the tokens asks for help.
pub open spec fn asks_help(tokens: Seq<Seq<char>>) -> bool {
    exists|i: int| 0 <= i < tokens.len() && is_help_flag(#[trigger] tokens[i])
}

/// What is to be done for a command line.
pub enum Outcome {
    /// Show this help text.
    Help(String),
    /// Run this handler with this context.
    Run(Action, Context),
    /// Run this handler with this context, and report what it returns.
    RunWithResult(ActionWithResult, Context),
}

/// An outcome as a mathematical value.
pub enum OutcomeModel {
    Help(Seq<char>),
    Run(Action, ContextModel),
    RunWithResult(ActionWithResult, ContextModel),
}

impl View for Outcome {
    type V = OutcomeModel;

    open spec fn view(&self) -> OutcomeModel {
        match self {
            Outcome::Help(text) => OutcomeModel::Help(text@),
            Outcome::Run(action, context) => OutcomeModel::Run(*action, context@),
            Outcome::RunWithResult(action, context) => OutcomeModel::RunWithResult(
                *action,
                context@,
            ),
        }
    }
}

/// What is to be done once no further command is called.
///
/// Without a handler the help text is shown. With one, it is shown where
/// help was asked for; else the handler runs, with the context that `args`
/// give under `flags`. The handler that reports nothing goes first.
pub open spec fn handler_outcome(
    action: Option<Action>,
    action_with_result: Option<ActionWithResult>,
    flags: Seq<FlagModel>,
    help: Seq<char>,
    help_asked: bool,
    args: Seq<Seq<char>>,
) -> OutcomeModel {
    match action {
        Some(a) => if help_asked {
            OutcomeModel::Help(help)
        } else {
            OutcomeModel::Run(a, context_of(args, flags, help))
        },
        None => match action_with_result {
            Some(a) => if help_asked {
                OutcomeModel::Help(help)
            } else {
                OutcomeModel::RunWithResult(a, context_of(args, flags, help))
            },
            None => OutcomeModel::Help(help),
        },
    }
}

/// The label of a command: its aliases and its name.
pub open spec fn command_label(c: CommandModel) -> Seq<char> {
    if c.aliases.len() == 0 {
        c.name
    } else {
        joined(c.aliases, ", "@) + ", "@ + c.name
    }
}

/// The labels of the commands.
pub open spec fn command_labels(commands: Seq<CommandModel>) -> Seq<Seq<char>> {
    Seq::new(commands.len(), |i: int| command_label(commands[i]))
}

/// The line for a command, in a column of width `column`.
pub open spec fn command_line(c: CommandModel, column: nat) -> Seq<char> {
    "\t"@ + command_label(c) + " "@ + spaces((column - width(command_label(c))) as nat) + ": "@
        + (match c.description {
        Some(d) => d,
        None => Seq::empty(),
    }) + "\n"@
}

/// The lines for the commands, in order.
pub open spec fn command_lines(commands: Seq<CommandModel>, column: nat) -> Seq<char>
    decreases commands.len(),
{
    if commands.len() == 0 {
        Seq::empty()
    } else {
        command_lines(commands.drop_last(), column) + command_line(commands.last(), column)
    }
}

/// The section of a help text that lists the commands; nothing where there
/// are none.
pub open spec fn commands_help(commands: Seq<CommandModel>) -> Seq<char> {
    if commands.len() == 0 {
        Seq::empty()
    } else {
        "\nCommands:\n"@ + command_lines(commands, widest(command_labels(commands), 0))
    }
}

/// A titled paragraph of a help text; nothing where there is no body.
pub open spec fn titled(title: Seq<char>, body: Option<Seq<char>>) -> Seq<char> {
    match body {
        Some(b) => title + b + "\n\n"@,
        None => Seq::empty(),
    }
}

/// The help text of a command: description, usage, flags and commands.
pub open spec fn command_help(c: CommandModel) -> Seq<char> {
    titled("Description:\n\t"@, c.description) + titled("Usage:\n\t"@, c.usage) + flag_help(
        c.flags,
    ) + commands_help(c.commands)
}

/// What is to be done when `tokens`, in canonical shape, are given to the
/// command `c`.
///
/// Where the first token calls a command under `c`, the tokens after it go
/// to that command. Else `c` itself answers, with all the tokens as
/// arguments.
pub open spec fn command_outcome(c: CommandModel, tokens: Seq<Seq<char>>) -> OutcomeModel
    decreases c,
{
    if calls_one(c.commands, tokens) {
        command_outcome(c.commands[select(c.commands, tokens[0])], tokens.drop_first())
    } else {
        handler_outcome(
            c.action,
            c.action_with_result,
            c.flags,
            command_help(c),
            asks_help(tokens),
            tokens,
        )
    }
}

/// Appends a titled paragraph to `text`, where there is a body.
pub fn push_titled(text: &mut String, title: &str, body: &Option<String>)
    ensures
        final(text)@ == old(text)@ + titled(title@, opt_text(*body)),
{
    match body {
        Some(b) => {
            text.append(title);
            text.append(b.as_str());
            text.append("\n\n");
            proof {
                assert(text@ =~= old(text)@ + titled(title@, opt_text(*body)));
            }
        },
        None => {
            proof {
                assert(text@ =~= old(text)@ + titled(title@, opt_text(*body)));
            }
        },
    }
}

/// The label of a command.
fn command_label_of(c: &Command) -> (r: String)
    ensures
        r@ == command_label(c@),
{
    match &c.alias {
        Some(names) => {
            if names.len() == 0 {
                proof {
                    assert(c@.aliases =~= Seq::empty());
                }
                c.name.clone()
            } else {
                let mut label = join_names(names, "", ", ");
                proof {
                    reveal_strlit("");
                    assert(Seq::new(names@.len(), |i: int| ""@ + names@[i]@) =~= c@.aliases) by {
                        assert forall|i: int| 0 <= i < names@.len() implies ""@ + names@[i]@
                            == c@.aliases[i] by {
                            assert(""@ + names@[i]@ =~= names@[i]@);
                        }
                    }
                }
                label.append(", ");
                label.append(c.name.as_str());
                label
            }
        },
        None => c.name.clone(),
    }
}

/// The width of the column of command labels.
fn command_column_of(commands: &Vec<Command>) -> (r: usize)
    ensures
        r == widest(command_labels(command_models(Some(*commands))), 0),
{
    let ghost labels = command_labels(command_models(Some(*commands)));
    let mut column: usize = 0;
    let mut i: usize = 0;
    proof {
        assert(labels.take(0) =~= Seq::empty());
    }
    while i < commands.len()
        invariant
            0 <= i <= commands.len(),
            labels == command_labels(command_models(Some(*commands))),
            column == widest(labels.take(i as int), 0),
        decreases commands.len() - i,
    {
        let label = command_label_of(&commands[i]);
        let w: usize = byte_len(label.as_str());
        proof {
            let now = labels.take(i + 1);
            assert(now.drop_last() =~= labels.take(i as int));
            assert(now.last() == label@);
        }
        if w > column {
            column = w;
        }
        i += 1;
    }
    proof {
        assert(labels.take(i as int) =~= labels);
    }
    column
}

/// The section of a help text that lists the commands.
pub fn command_help_text(commands: &Option<Vec<Command>>) -> (r: String)
    ensures
        r@ == commands_help(command_models(*commands)),
{
    let mut text = String::new();
    match commands {
        Some(list) => {
            if list.len() > 0 {
                let ghost models = command_models(*commands);
                let column: usize = command_column_of(list);
                text.append("\nCommands:\n");
                let mut i: usize = 0;
                proof {
                    assert(models.take(0) =~= Seq::empty());
                    assert(text@ =~= "\nCommands:\n"@ + command_lines(
                        models.take(0),
                        column as nat,
                    ));
                    lemma_widest(command_labels(models), 0);
                }
                while i < list.len()
                    invariant
                        0 <= i <= list.len(),
                        models == command_models(Some(*list)),
                        column == widest(command_labels(models), 0),
                        forall|j: int|
                            0 <= j < models.len() ==> width(#[trigger] command_labels(models)[j])
                                <= column,
                        text@ == "\nCommands:\n"@ + command_lines(
                            models.take(i as int),
                            column as nat,
                        ),
                    decreases list.len() - i,
                {
                    let ghost before = text@;
                    let c = &list[i];
                    let label = command_label_of(c);
                    proof {
                        assert(command_labels(models)[i as int] == label@);
                    }
                    text.append("\t");
                    text.append(label.as_str());
                    text.append(" ");
                    pad(&mut text, column - byte_len(label.as_str()));
                    text.append(": ");
                    match &c.description {
                        Some(d) => {
                            text.append(d.as_str());
                        },
                        None => {},
                    }
                    text.append("\n");
                    proof {
                        let now = models.take(i + 1);
                        assert(now.drop_last() =~= models.take(i as int));
                        assert(now.last() == c@);
                        assert(text@ =~= before + command_line(c@, column as nat));
                        assert(text@ =~= "\nCommands:\n"@ + command_lines(now, column as nat));
                    }
                    i += 1;
                }
                proof {
                    assert(models.take(i as int) =~= models);
                }
            } else {
                proof {
                    assert(text@ =~= Seq::<char>::empty());
                }
            }
        },
        None => {
            proof {
                assert(text@ =~= Seq::<char>::empty());
            }
        },
    }
    text
}

/// Whether the token calls the command.
fn answers(c: &Command, token: &str) -> (r: bool)
    ensures
        r == c@.answers_to(token@),
{
    if same_text(c.name.as_str(), token) {
        return true;
    }
    match &c.alias {
        Some(names) => {
            let mut k: usize = 0;
            while k < names.len()
                invariant
                    0 <= k <= names.len(),
                    c@.aliases == texts(names@),
                    forall|j: int| 0 <= j < k ==> c@.aliases[j] != token@,
                decreases names.len() - k,
            {
                if same_text(names[k].as_str(), token) {
                    assert(c@.aliases[k as int] == token@);
                    return true;
                }
                k += 1;
            }
            false
        },
        None => false,
    }
}

/// The first command that the token calls, if it calls one.
pub fn find_command(commands: &Option<Vec<Command>>, token: &str) -> (r: Option<usize>)
    ensures
        r is Some <==> select(command_models(*commands), token@) < command_models(
            *commands,
        ).len(),
        r is Some ==> r->0 as int == select(command_models(*commands), token@),
{
    let ghost models = command_models(*commands);
    proof {
        lemma_select(models, token@);
    }
    match commands {
        Some(list) => {
            let mut i: usize = 0;
            while i < list.len()
                invariant
                    0 <= i <= list.len(),
                    *commands == Some(*list),
                    models == command_models(*commands),
                    forall|j: int| 0 <= j < i ==> !(#[trigger] models[j]).answers_to(token@),
                decreases list.len() - i,
            {
                if answers(&list[i], token) {
                    proof {
                        lemma_select(models, token@);
                        assert(models[i as int].answers_to(token@));
                    }
                    return Some(i);
                }
                i += 1;
            }
            proof {
                lemma_select(models, token@);
            }
            None
        },
        None => None,
    }
}

/// Whether a command among `commands` has the name `name`.
pub fn has_command(commands: &Option<Vec<Command>>, name: &str) -> (r: bool)
    ensures
        r == command_registered(command_models(*commands), name@),
{
    match commands {
        Some(list) => {
            let ghost models = command_models(*commands);
            let mut i: usize = 0;
            while i < list.len()
                invariant
                    0 <= i <= list.len(),
                    *commands == Some(*list),
                    models == command_models(*commands),
                    forall|j: int| 0 <= j < i ==> (#[trigger] models[j]).name != name@,
                decreases list.len() - i,
            {
                if same_text(list[i].name.as_str(), name) {
                    assert(models[i as int].name == name@);
                    return true;
                }
                i += 1;
            }
            false
        },
        None => false,
    }
}

/// The commands with one more registered after them.
pub fn with_command(commands: Option<Vec<Command>>, command: Command) -> (r: Option<
    Vec<Command>,
>)
    ensures
        r is Some,
        command_models(r) == command_models(commands).push(command@),
        !command_registered(command_models(commands), command@.name) && unique_command_names(
            command_models(commands),
        ) ==> unique_command_names(command_models(r)),
{
    let mut list: Vec<Command> = match commands {
        Some(v) => v,
        None => Vec::new(),
    };
    let ghost before = command_models(Some(list));
    list.push(command);
    proof {
        let after = command_models(Some(list));
        assert(before =~= command_models(commands));
        assert(after =~= before.push(command@));
        if !command_registered(before, command@.name) && unique_command_names(before) {
            assert forall|i: int, j: int| 0 <= i < j < after.len() implies (
            #[trigger] after[i]).name != (#[trigger] after[j]).name by {
                assert(after[i] == before[i]);
                if j < before.len() {
                    assert(after[j] == before[j]);
                }
            }
        }
    }
    Some(list)
}

/// Whether one of the tokens asks for help.
pub fn asks_for_help(tokens: &Vec<String>) -> (r: bool)
    ensures
        r == asks_help(texts(tokens@)),
{
    let mut i: usize = 0;
    while i < tokens.len()
        invariant
            0 <= i <= tokens.len(),
            forall|j: int| 0 <= j < i ==> !is_help_flag(#[trigger] texts(tokens@)[j]),
        decreases tokens.len() - i,
    {
        if same_text(tokens[i].as_str(), "-h") || same_text(tokens[i].as_str(), "--help") {
            assert(is_help_flag(texts(tokens@)[i as int]));
            return true;
        }
        i += 1;
    }
    false
}

/// Decides what is to be done once no further command is called.
pub fn decide(
    action: Option<Action>,
    action_with_result: Option<ActionWithResult>,
    flags: &Option<Vec<Flag>>,
    help: String,
    help_asked: bool,
    args: Vec<String>,
) -> (r: Outcome)
    ensures
        r@ == handler_outcome(
            action,
            action_with_result,
            declared(*flags),
            help@,
            help_asked,
            texts(args@),
        ),
{
    match action {
        Some(a) => {
            if help_asked {
                Outcome::Help(help)
            } else {
                Outcome::Run(a, Context::with_flags(args, flags, help))
            }
        },
        None => match action_with_result {
            Some(a) => {
                if help_asked {
                    Outcome::Help(help)
                } else {
                    Outcome::RunWithResult(a, Context::with_flags(args, flags, help))
                }
            },
            None => Outcome::Help(help),
        },
    }
}

impl Default for Command {
    /// A command without a name, with nothing set.
    fn default() -> (r: Command)
        ensures
            r@ == (CommandModel {
                name: Seq::empty(),
                description: None,
                usage: None,
                action: None,
                action_with_result: None,
                flags: Seq::empty(),
                aliases: Seq::empty(),
                commands: Seq::empty(),
            }),
    {
        let r = Command {
            name: String::new(),
            description: None,
            usage: None,
            action: None,
            action_with_result: None,
            flags: None,
            alias: None,
            commands: None,
        };
        proof {
            assert(r@.commands =~= Seq::empty());
        }
        r
    }
}

impl Command {
    /// Declares a command of the given name, with nothing else set.
    pub fn new(name: &str) -> (r: Command)
        ensures
            r@ == (CommandModel {
                name: name@,
                description: None,
                usage: None,
                action: None,
                action_with_result: None,
                flags: Seq::empty(),
                aliases: Seq::empty(),
                commands: Seq::empty(),
            }),
            r@.wf(),
    {
        let r = Command {
            name: String::from_str(name),
            description: None,
            usage: None,
            action: None,
            action_with_result: None,
            flags: None,
            alias: None,
            commands: None,
        };
        proof {
            assert(r@.commands =~= Seq::empty());
        }
        r
    }

    /// Sets the description.
    pub fn description(self, description: &str) -> (r: Command)
        ensures
            r@ == (CommandModel { description: Some(description@), ..self@ }),
    {
        let mut r = self;
        r.description = Some(String::from_str(description));
        r
    }

    /// Sets the usage.
    pub fn usage(self, usage: &str) -> (r: Command)
        ensures
            r@ == (CommandModel { usage: Some(usage@), ..self@ }),
    {
        let mut r = self;
        r.usage = Some(String::from_str(usage));
        r
    }

    /// Sets the handler that reports nothing back. A command has one
    /// handler at most.
    pub fn action(self, action: Action) -> (r: Command)
        requires
            self.action_with_result is None,
        ensures
            r@ == (CommandModel { action: Some(action), ..self@ }),
    {
        let mut r = self;
        r.action = Some(action);
        r
    }

    /// Sets the handler that reports success or an error. A command has
    /// one handler at most.
    pub fn action_with_result(self, action_with_result: ActionWithResult) -> (r: Command)
        requires
            self.action is None,
        ensures
            r@ == (CommandModel { action_with_result: Some(action_with_result), ..self@ }),
    {
        let mut r = self;
        r.action_with_result = Some(action_with_result);
        r
    }

    /// Whether the command has a flag of that name.
    pub fn has_flag(&self, name: &str) -> (r: bool)
        ensures
            r == flag_declared(self@.flags, name@),
    {
        has_flag(&self.flags, name)
    }

    /// Declares a flag, after those that the command has. No two flags of
    /// a command have the same name.
    pub fn flag(self, flag: Flag) -> (r: Command)
        requires
            !flag_declared(self@.flags, flag@.name),
        ensures
            r@ == (CommandModel { flags: self@.flags.push(flag@), ..self@ }),
            self@.wf() && flag@.wf() ==> r@.wf(),
    {
        let mut r = self;
        r.flags = with_flag(r.flags, flag);
        r
    }

    /// Adds an alias, after those that the command has.
    pub fn alias(self, name: &str) -> (r: Command)
        ensures
            r@ == (CommandModel { aliases: self@.aliases.push(name@), ..self@ }),
    {
        let mut r = self;
        let mut names: Vec<String> = match r.alias {
            Some(a) => a,
            None => Vec::new(),
        };
        let ghost before = names@;
        names.push(String::from_str(name));
        proof {
            assert(texts(names@) =~= texts(before).push(name@));
            assert(texts(before) =~= self@.aliases);
        }
        r.alias = Some(names);
        r
    }

    /// Whether a command of that name is registered under this one.
    pub fn has_command(&self, name: &str) -> (r: bool)
        ensures
            r == command_registered(self@.commands, name@),
    {
        proof {
            lemma_command_model(*self);
        }
        has_command(&self.commands, name)
    }

    /// Registers a command under this one, after those that it has. No two
    /// commands under one command have the same name.
    pub fn command(self, command: Command) -> (r: Command)
        requires
            !command_registered(self@.commands, command@.name),
        ensures
            r@ == (CommandModel { commands: self@.commands.push(command@), ..self@ }),
            self@.wf() && command@.wf() ==> r@.wf(),
    {
        proof {
            lemma_command_model(self);
        }
        let mut r = self;
        r.commands = with_command(r.commands, command);
        proof {
            lemma_command_model(r);
            let after = r@.commands;
            let before = self@.commands;
            if self@.wf() && command@.wf() {
                assert forall|i: int| 0 <= i < after.len() implies (#[trigger] after[i]).wf() by {
                    if i < before.len() {
                        assert(after[i] == before[i]);
                    }
                }
            }
        }
        r
    }

    /// The help text of the command.
    pub fn help_text(&self) -> (r: String)
        ensures
            r@ == command_help(self@),
    {
        let mut text = String::new();
        push_titled(&mut text, "Description:\n\t", &self.description);
        push_titled(&mut text, "Usage:\n\t", &self.usage);
        let flags = flag_help_text(&self.flags);
        text.append(flags.as_str());
        let commands = command_help_text(&self.commands);
        text.append(commands.as_str());
        proof {
            lemma_command_model(*self);
            assert(text@ =~= command_help(self@));
        }
        text
    }

    /// The first command under this one that the token calls, if it calls
    /// one.
    pub fn select_command(&self, cmd: &str) -> (r: Option<&Command>)
        ensures
            r is Some <==> select(self@.commands, cmd@) < self@.commands.len(),
            r is Some ==> (*r->0)@ == self@.commands[select(self@.commands, cmd@)],
    {
        proof {
            lemma_command_model(*self);
        }
        match find_command(&self.commands, cmd) {
            Some(k) => match &self.commands {
                Some(list) => Some(&list[k]),
                None => None,
            },
            None => None,
        }
    }

    /// Brings raw arguments into canonical shape: `--flag=value` becomes
    /// `--flag value`.
    pub fn normalized_args(raw_args: Vec<String>) -> (out: Vec<String>)
        ensures
            texts(out@) == expand_tokens(texts(raw_args@), false),
    {
        normalize(raw_args, false)
    }

    /// Decides what is to be done for arguments that are in canonical
    /// shape already.
    pub fn run(&self, args: Vec<String>) -> (r: Outcome)
        ensures
            r@ == command_outcome(self@, texts(args@)),
        decreases self,
    {
        proof {
            lemma_command_model(*self);
        }
        if args.len() > 0 {
            match find_command(&self.commands, args[0].as_str()) {
                Some(k) => {
                    match &self.commands {
                        Some(list) => {
                            let mut rest = args;
                            rest.remove(0);
                            proof {
                                assert(texts(rest@) =~= texts(args@).drop_first());
                                assert(decreases_to!(self => registered(self.commands)[k as int]));
                                assert(list[k as int] == registered(self.commands)[k as int]);
                            }
                            return list[k].run(rest);
                        },
                        None => {},
                    }
                },
                None => {},
            }
        }
        let help = self.help_text();
        let help_asked = asks_for_help(&args);
        decide(self.action, self.action_with_result, &self.flags, help, help_asked, args)
    }

    /// Decides what is to be done for raw arguments: brings them into
    /// canonical shape, then decides as `run` does.
    pub fn run_with_result(&self, args: Vec<String>) -> (r: Outcome)
        ensures
            r@ == command_outcome(self@, expand_tokens(texts(args@), false)),
    {
        self.run(Command::normalized_args(args))
    }
}

} // verus!
