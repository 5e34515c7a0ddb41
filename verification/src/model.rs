//! The mathematical model: what a parser is, how a token is classified, and
//! what parsing a token sequence does to a parser.

use vstd::prelude::*;
use crate::error::{
    missing_value_in_text, missing_value_text, unknown_command_text, unknown_name_in_text,
    unknown_name_text, unknown_option_text, Status,
};
use crate::text::{first_at, is_digit, strip_dashes, trimmed, words};

verus! {

/// An option as contracts see it.
#[verifier::ext_equal]
pub struct OptView {
    /// The values supplied so far, oldest first.
    pub values: Seq<Seq<char>>,
    /// The value reported while none was supplied.
    pub default: Seq<char>,
}

/// A parser as contracts see it.
#[verifier::ext_equal]
pub struct ParserView {
    /// The help text, if one was set.
    pub helptext: Option<Seq<char>>,
    /// The version text, if one was set.
    pub version: Option<Seq<char>>,
    /// The registered options, in order of registration.
    pub options: Seq<OptView>,
    /// From each option alias to the position of its entry in `options`.
    pub option_map: Map<Seq<char>, usize>,
    /// The number of times each registered flag was met, in order of registration.
    pub flags: Seq<nat>,
    /// From each flag alias to the position of its entry in `flags`.
    pub flag_map: Map<Seq<char>, usize>,
    /// The parsers of the registered sub-commands, in order of registration.
    pub commands: Seq<ParserView>,
    /// From each sub-command alias to the position of its parser in `commands`.
    pub command_map: Map<Seq<char>, usize>,
    /// Whether a callback is attached.
    pub has_callback: bool,
    /// The positional arguments, in input order.
    pub args: Seq<Seq<char>>,
    /// The alias under which a sub-command was entered, if one was.
    pub cmd_name: Option<Seq<char>>,
    /// The parser of the sub-command that was entered, if one was.
    pub cmd_parser: Option<Box<ParserView>>,
    /// Whether the built-in `help` command is enabled.
    pub cmd_help: bool,
}

/// The alias map `map` after every name in `names` was bound to `index`;
/// a name that was bound before is bound anew.
pub open spec fn bind_all(map: Map<Seq<char>, usize>, names: Seq<Seq<char>>, index: usize) -> Map<
    Seq<char>,
    usize,
> {
    Map::new(
        |k: Seq<char>| map.contains_key(k) || names.contains(k),
        |k: Seq<char>|
            if names.contains(k) {
                index
            } else {
                map[k]
            },
    )
}

impl ParserView {
    /// A parser with nothing registered.
    pub open spec fn empty() -> ParserView {
        ParserView {
            helptext: None,
            version: None,
            options: Seq::empty(),
            option_map: Map::empty(),
            flags: Seq::empty(),
            flag_map: Map::empty(),
            commands: Seq::empty(),
            command_map: Map::empty(),
            has_callback: false,
            args: Seq::empty(),
            cmd_name: None,
            cmd_parser: None,
            cmd_help: false,
        }
    }

    /// Every alias leads to an entry that exists, here and in every nested parser.
    pub open spec fn wf(self) -> bool
        decreases self,
    {
        &&& forall|k: Seq<char>| #[trigger]
            self.option_map.contains_key(k) ==> self.option_map[k] < self.options.len()
        &&& forall|k: Seq<char>| #[trigger]
            self.flag_map.contains_key(k) ==> self.flag_map[k] < self.flags.len()
        &&& forall|k: Seq<char>| #[trigger]
            self.command_map.contains_key(k) ==> self.command_map[k] < self.commands.len()
        &&& forall|i: int| 0 <= i < self.commands.len() ==> (#[trigger] self.commands[i]).wf()
        &&& match self.cmd_parser {
            Some(inner) => inner.wf(),
            None => true,
        }
    }

    /// Every flag count, here and in every registered sub-command, can still
    /// grow by `n` without leaving `usize`.
    pub open spec fn room(self, n: int) -> bool
        decreases self,
    {
        &&& forall|i: int| 0 <= i < self.flags.len() ==> #[trigger] self.flags[i] + n <= usize::MAX
        &&& forall|i: int| 0 <= i < self.commands.len() ==> (#[trigger] self.commands[i]).room(n)
    }

    /// No flag was met yet, here and in every registered sub-command: what
    /// holds of a parser that has not parsed.
    pub open spec fn fresh(self) -> bool
        decreases self,
    {
        &&& forall|i: int| 0 <= i < self.flags.len() ==> #[trigger] self.flags[i] == 0
        &&& forall|i: int| 0 <= i < self.commands.len() ==> (#[trigger] self.commands[i]).fresh()
    }

    /// `name` is an alias of a registered option.
    pub open spec fn is_option(self, name: Seq<char>) -> bool {
        self.option_map.contains_key(name)
    }

    /// `name` is an alias of a registered flag.
    pub open spec fn is_flag(self, name: Seq<char>) -> bool {
        self.flag_map.contains_key(name)
    }

    /// `name` is an alias of a registered sub-command.
    pub open spec fn is_command(self, name: Seq<char>) -> bool {
        self.command_map.contains_key(name)
    }

    /// The values supplied for the option `name`, oldest first.
    pub open spec fn values_of(self, name: Seq<char>) -> Seq<Seq<char>> {
        self.options[self.option_map[name] as int].values
    }

    /// The value of the option `name`: the last one supplied, or the default
    /// while none was.
    pub open spec fn value_of(self, name: Seq<char>) -> Seq<char> {
        let entry = self.options[self.option_map[name] as int];
        if entry.values.len() > 0 {
            entry.values.last()
        } else {
            entry.default
        }
    }

    /// How often `name` was met: the count of a flag, else the number of
    /// values of an option.
    pub open spec fn count_of(self, name: Seq<char>) -> nat {
        if self.is_flag(name) {
            self.flags[self.flag_map[name] as int]
        } else {
            self.values_of(name).len()
        }
    }

    /// This parser with the help text `text`.
    pub open spec fn with_helptext(self, text: Seq<char>) -> ParserView {
        ParserView { helptext: Some(text), ..self }
    }

    /// This parser with the version text `text`.
    pub open spec fn with_version(self, text: Seq<char>) -> ParserView {
        ParserView { version: Some(text), ..self }
    }

    /// This parser after an option with the white-space separated aliases in
    /// `names` was registered.
    pub open spec fn with_option(self, names: Seq<char>, default: Seq<char>) -> ParserView {
        ParserView {
            options: self.options.push(OptView { values: Seq::empty(), default }),
            option_map: bind_all(self.option_map, words(names), self.options.len() as usize),
            ..self
        }
    }

    /// This parser after a flag with the white-space separated aliases in
    /// `names` was registered.
    pub open spec fn with_flag(self, names: Seq<char>) -> ParserView {
        ParserView {
            flags: self.flags.push(0),
            flag_map: bind_all(self.flag_map, words(names), self.flags.len() as usize),
            ..self
        }
    }

    /// This parser after the sub-command `sub` with the white-space separated
    /// aliases in `names` was registered. A sub-command that has a help text
    /// switches the built-in `help` command on.
    pub open spec fn with_command(self, names: Seq<char>, sub: ParserView) -> ParserView {
        ParserView {
            commands: self.commands.push(sub),
            command_map: bind_all(self.command_map, words(names), self.commands.len() as usize),
            cmd_help: self.cmd_help || sub.helptext is Some,
            ..self
        }
    }

    /// This parser with the built-in `help` command switched on or off.
    pub open spec fn with_help_command(self, enable: bool) -> ParserView {
        ParserView { cmd_help: enable, ..self }
    }

    /// This parser with a callback attached.
    pub open spec fn with_callback(self) -> ParserView {
        ParserView { has_callback: true, ..self }
    }

    /// This parser after the flag at `index` was met once more.
    pub open spec fn bump(self, index: int) -> ParserView {
        ParserView { flags: self.flags.update(index, self.flags[index] + 1), ..self }
    }

    /// This parser after `value` was supplied for the option at `index`.
    pub open spec fn supply(self, index: int, value: Seq<char>) -> ParserView {
        ParserView {
            options: self.options.update(
                index,
                OptView { values: self.options[index].values.push(value), ..self.options[index] },
            ),
            ..self
        }
    }

    /// This parser after `tokens` were appended to the positional arguments.
    pub open spec fn keep(self, tokens: Seq<Seq<char>>) -> ParserView {
        ParserView { args: self.args + tokens, ..self }
    }

    /// This parser after its sub-commands were given up.
    pub open spec fn without_commands(self) -> ParserView {
        ParserView { commands: Seq::empty(), command_map: Map::empty(), ..self }
    }

    /// This parser after the sub-command `name` was entered and its parser
    /// ended as `inner`: the other sub-commands are given up.
    pub open spec fn entered(self, name: Seq<char>, inner: ParserView) -> ParserView {
        ParserView {
            cmd_name: Some(name),
            cmd_parser: Some(Box::new(inner)),
            ..self.without_commands()
        }
    }

    /// The trimmed help text, or nothing where none was set.
    pub open spec fn help_shown(self) -> Seq<char> {
        match self.helptext {
            Some(text) => trimmed(text),
            None => Seq::empty(),
        }
    }
}

/// The shapes of token that the parser tells apart before it looks at what
/// is registered.
#[derive(Clone, Copy, PartialEq, Eq, Structural, Debug)]
pub enum TokenClass {
    /// `--`: everything after it is positional.
    EndOfOptions,
    /// `--name`.
    Long,
    /// `--name=value` or `-n=value`.
    Inline,
    /// `-abc`: one or more single-character names.
    Cluster,
    /// `-` alone, or a dash followed by a digit: positional as it stands.
    Literal,
    /// Anything that does not begin with a dash.
    Word,
}

/// The class of the token `t`.
pub open spec fn classify(t: Seq<char>) -> TokenClass {
    if t.len() == 0 || t[0] != '-' {
        TokenClass::Word
    } else if t.len() == 1 {
        TokenClass::Literal
    } else if t[1] == '-' {
        if t.len() == 2 {
            TokenClass::EndOfOptions
        } else if t.contains('=') {
            TokenClass::Inline
        } else {
            TokenClass::Long
        }
    } else if is_digit(t[1]) {
        TokenClass::Literal
    } else if t.contains('=') {
        TokenClass::Inline
    } else {
        TokenClass::Cluster
    }
}

/// What the parser took a token of the input for.
pub enum Role {
    /// The end-of-options marker.
    Sentinel,
    /// A positional argument.
    Positional,
    /// A long name, a `name=value` or a cluster, of whose names the first
    /// `n` were acted on before the parse went on or stopped.
    Switch(nat),
    /// The value of the option at the given position.
    Value(int),
    /// The name of the sub-command that was entered.
    Command,
    /// A token that the sub-command's parser read.
    Nested,
    /// The word `help` of the built-in help command.
    HelpWord,
    /// The argument of the built-in help command.
    HelpTopic,
}

/// What reading one token, and the values it asks for, does.
pub struct Step {
    /// The parser afterwards.
    pub parser: ParserView,
    /// `Parsed` where the parse goes on, else why it stops.
    pub status: Status,
    /// What the token was taken for.
    pub role: Role,
    /// What the tokens that were read after it, as its values, were taken for.
    pub extra: Seq<Role>,
}

/// What parsing does.
pub struct Run {
    /// The parser afterwards.
    pub parser: ParserView,
    /// The position of the first token that was not read.
    pub cursor: int,
    /// How the parse ended.
    pub status: Status,
    /// What each token that was read was taken for, from the first one on.
    pub trace: Seq<Role>,
}

/// A step that changes nothing and stops the parse with `status`.
pub open spec fn stop(p: ParserView, status: Status, role: Role) -> Step {
    Step { parser: p, status, role, extra: Seq::empty() }
}

/// The token `t` is a positional argument.
pub open spec fn positional(p: ParserView, t: Seq<char>) -> Step {
    Step { parser: p.keep(seq![t]), status: Status::Parsed, role: Role::Positional, extra: Seq::empty() }
}

/// The name side of the `name=value` token `t`, dashes and all.
pub open spec fn inline_name(t: Seq<char>) -> Seq<char> {
    t.take(first_at(t, '='))
}

/// The value side of the `name=value` token `t`.
pub open spec fn inline_value(t: Seq<char>) -> Seq<char> {
    t.skip(first_at(t, '=') + 1)
}

/// The `name=value` token `t`: the name, without its dashes, must be an
/// option, and the value must not be empty.
pub open spec fn assign(p: ParserView, t: Seq<char>) -> Step {
    let key = strip_dashes(inline_name(t));
    if !p.is_option(key) {
        stop(p, Status::BadName(unknown_option_text(inline_name(t))), Role::Switch(0))
    } else if inline_value(t).len() == 0 {
        stop(p, Status::MissingValue(missing_value_text(inline_name(t))), Role::Switch(0))
    } else {
        Step {
            parser: p.supply(p.option_map[key] as int, inline_value(t)),
            status: Status::Parsed,
            role: Role::Switch(1),
            extra: Seq::empty(),
        }
    }
}

/// The text that the name `key` asks to be shown, where it is neither a
/// flag nor an option: the help text under the name `help`, the version text
/// under the name `version`, each only where it was set.
pub open spec fn shown(p: ParserView, key: Seq<char>, help: Seq<char>, version: Seq<char>) -> Option<
    Seq<char>,
> {
    if key == help && p.helptext is Some {
        Some(trimmed(p.helptext->0))
    } else if key == version && p.version is Some {
        Some(trimmed(p.version->0))
    } else {
        None
    }
}

/// What a name that is neither a flag nor an option does: it stops the
/// parse, to show a text where it asks for one, else as an error with the
/// detail `unknown`.
pub open spec fn fallback(p: ParserView, text: Option<Seq<char>>, unknown: Seq<char>, role: Role) -> Step {
    match text {
        Some(text) => stop(p, Status::Show(text), role),
        None => stop(p, Status::BadName(unknown), role),
    }
}

/// The `--name` token `t`, with `next` the position of the token after it:
/// a flag is counted, an option takes the next token as its value.
pub open spec fn long_name(p: ParserView, t: Seq<char>, tokens: Seq<Seq<char>>, next: int) -> Step {
    let key = t.skip(2);
    if p.is_flag(key) {
        Step {
            parser: p.bump(p.flag_map[key] as int),
            status: Status::Parsed,
            role: Role::Switch(1),
            extra: Seq::empty(),
        }
    } else if p.is_option(key) {
        if 0 <= next < tokens.len() {
            Step {
                parser: p.supply(p.option_map[key] as int, tokens[next]),
                status: Status::Parsed,
                role: Role::Switch(1),
                extra: seq![Role::Value(p.option_map[key] as int)],
            }
        } else {
            stop(p, Status::MissingValue(missing_value_text(t)), Role::Switch(0))
        }
    } else {
        fallback(p, shown(p, key, "help"@, "version"@), unknown_name_text(t), Role::Switch(0))
    }
}

/// The detail for the character at `j` of the cluster `t` where its value is missing.
pub open spec fn cluster_missing_text(t: Seq<char>, j: int) -> Seq<char> {
    if t.len() > 2 {
        missing_value_in_text(seq![t[j]], t)
    } else {
        missing_value_text(t)
    }
}

/// The detail for the character at `j` of the cluster `t` where it names nothing.
pub open spec fn cluster_unknown_text(t: Seq<char>, j: int) -> Seq<char> {
    if t.len() > 2 {
        unknown_name_in_text(seq![t[j]], t)
    } else {
        unknown_name_text(t)
    }
}

/// The cluster `t` from its character at `j` on, with `next` the position
/// of the next token to take as a value: each character is a name of its
/// own; a flag is counted, an option takes the next token as its value.
pub open spec fn cluster(p: ParserView, t: Seq<char>, j: int, tokens: Seq<Seq<char>>, next: int) -> Step
    decreases t.len() - j,
{
    if !(1 <= j < t.len()) {
        Step { parser: p, status: Status::Parsed, role: Role::Switch((j - 1) as nat), extra: Seq::empty() }
    } else {
        let key = seq![t[j]];
        let done = Role::Switch((j - 1) as nat);
        if p.is_flag(key) {
            cluster(p.bump(p.flag_map[key] as int), t, j + 1, tokens, next)
        } else if p.is_option(key) {
            if 0 <= next < tokens.len() {
                let index = p.option_map[key] as int;
                let rest = cluster(p.supply(index, tokens[next]), t, j + 1, tokens, next + 1);
                Step { extra: seq![Role::Value(index)] + rest.extra, ..rest }
            } else {
                stop(p, Status::MissingValue(cluster_missing_text(t, j)), done)
            }
        } else {
            fallback(p, shown(p, key, "h"@, "v"@), cluster_unknown_text(t, j), done)
        }
    }
}

/// The built-in `help` command, with `next` the position of its argument:
/// shows the help text of the sub-command that the argument names.
pub open spec fn help_command(p: ParserView, tokens: Seq<Seq<char>>, next: int) -> Step {
    if !(0 <= next < tokens.len()) {
        stop(p, Status::MissingHelpArg, Role::HelpWord)
    } else {
        let name = tokens[next];
        Step {
            parser: p,
            status: if p.is_command(name) {
                Status::Show(p.commands[p.command_map[name] as int].help_shown())
            } else {
                Status::BadName(unknown_command_text(name))
            },
            role: Role::HelpWord,
            extra: seq![Role::HelpTopic],
        }
    }
}

/// Whether the token at `cursor` enters a sub-command: only the first token
/// that a parser reads can.
pub open spec fn enters_command(p: ParserView, t: Seq<char>, first: bool) -> bool {
    first && classify(t) == TokenClass::Word && p.is_command(t)
}

/// Whether the token `t` is the built-in `help` command: only the first
/// token that a parser reads can be.
pub open spec fn asks_help(p: ParserView, t: Seq<char>, first: bool) -> bool {
    first && classify(t) == TokenClass::Word && p.cmd_help && t == "help"@
}

/// What reading the token at `cursor` does, where it is neither the
/// end-of-options marker nor the name of a sub-command.
pub open spec fn step(p: ParserView, tokens: Seq<Seq<char>>, cursor: int, first: bool) -> Step {
    let t = tokens[cursor];
    match classify(t) {
        TokenClass::Inline => assign(p, t),
        TokenClass::Long => long_name(p, t, tokens, cursor + 1),
        TokenClass::Cluster => cluster(p, t, 1, tokens, cursor + 1),
        _ => if asks_help(p, t, first) {
            help_command(p, tokens, cursor + 1)
        } else {
            positional(p, t)
        },
    }
}

/// `n` times the role `role`.
pub open spec fn repeat(role: Role, n: int) -> Seq<Role> {
    Seq::new(
        if n >= 0 {
            n as nat
        } else {
            0
        },
        |i: int| role,
    )
}

/// What parsing `tokens` from `cursor` on does to the parser `p`; `first`
/// says whether `p` has read no token yet.
///
/// Tokens are read one by one until none is left or one stops the parse.
/// After the end-of-options marker every token is positional. A sub-command
/// reads every token after its name; where it ends without error it is kept
/// as the matched sub-command, else it is given up with the others.
pub open spec fn run(p: ParserView, tokens: Seq<Seq<char>>, cursor: int, first: bool) -> Run
    decreases
            (if cursor < tokens.len() {
                tokens.len() - cursor
            } else {
                0
            }),
{
    if !(0 <= cursor < tokens.len()) {
        Run { parser: p, cursor, status: Status::Parsed, trace: Seq::empty() }
    } else if classify(tokens[cursor]) == TokenClass::EndOfOptions {
        let tail = tokens.skip(cursor + 1);
        Run {
            parser: p.keep(tail),
            cursor: tokens.len() as int,
            status: Status::Parsed,
            trace: seq![Role::Sentinel] + repeat(Role::Positional, tail.len() as int),
        }
    } else if enters_command(p, tokens[cursor], first) {
        let name = tokens[cursor];
        let inner = run(p.commands[p.command_map[name] as int], tokens, cursor + 1, true);
        Run {
            parser: if inner.status is Parsed {
                p.entered(name, inner.parser)
            } else {
                p.without_commands()
            },
            cursor: inner.cursor,
            status: inner.status,
            trace: seq![Role::Command] + repeat(Role::Nested, inner.trace.len() as int),
        }
    } else {
        let s = step(p, tokens, cursor, first);
        let next = cursor + 1 + s.extra.len();
        if s.status is Parsed {
            let rest = run(s.parser, tokens, next, false);
            Run { trace: seq![s.role] + s.extra + rest.trace, ..rest }
        } else {
            Run { parser: s.parser, cursor: next, status: s.status, trace: seq![s.role] + s.extra }
        }
    }
}

/// The number of characters in the tokens from `cursor` on: no flag can be
/// met more often than that.
pub open spec fn budget(tokens: Seq<Seq<char>>, cursor: int) -> int
    decreases tokens.len() - cursor,
{
    if 0 <= cursor < tokens.len() {
        tokens[cursor].len() + budget(tokens, cursor + 1)
    } else {
        0
    }
}

/// A parser with nothing registered is well formed and has room for any
/// number of flags.
pub proof fn lemma_empty()
    ensures
        ParserView::empty().wf(),
        ParserView::empty().fresh(),
        forall|n: int| #[trigger] ParserView::empty().room(n),
{
}

/// A parser that has met no flag has room for whatever fits `usize`.
pub proof fn lemma_fresh_room(p: ParserView, n: int)
    requires
        p.fresh(),
        n <= usize::MAX,
    ensures
        p.room(n),
    decreases p,
{
    assert forall|i: int| 0 <= i < p.commands.len() implies (#[trigger] p.commands[i]).room(n) by {
        lemma_fresh_room(p.commands[i], n);
    }
}

/// Registering on a parser that has met no flag gives one that has met
/// none, where the sub-command that is registered has met none either.
pub proof fn lemma_fresh_registration(
    p: ParserView,
    names: Seq<char>,
    default: Seq<char>,
    sub: ParserView,
)
    requires
        p.fresh(),
    ensures
        p.with_option(names, default).fresh(),
        p.with_flag(names).fresh(),
        sub.fresh() ==> p.with_command(names, sub).fresh(),
{
    let q = p.with_flag(names);
    assert forall|i: int| 0 <= i < q.flags.len() implies #[trigger] q.flags[i] == 0 by {
        if i < p.flags.len() {
            assert(q.flags[i] == p.flags[i]);
        }
    }
    if sub.fresh() {
        let c = p.with_command(names, sub);
        assert forall|i: int| 0 <= i < c.commands.len() implies (#[trigger] c.commands[i]).fresh() by {
            if i < p.commands.len() {
                assert(c.commands[i] == p.commands[i]);
            }
        }
    }
}

/// Registering keeps every alias valid. A new flag has room for whatever
/// fits `usize`; a new sub-command brings its own room.
pub proof fn lemma_registration(p: ParserView, names: Seq<char>, default: Seq<char>, sub: ParserView)
    requires
        p.wf(),
        p.options.len() <= usize::MAX,
        p.flags.len() <= usize::MAX,
        p.commands.len() <= usize::MAX,
    ensures
        p.with_option(names, default).wf(),
        p.with_flag(names).wf(),
        sub.wf() ==> p.with_command(names, sub).wf(),
        forall|n: int| #[trigger] p.room(n) ==> p.with_option(names, default).room(n),
        forall|n: int| #[trigger] p.room(n) && n <= usize::MAX ==> p.with_flag(names).room(n),
        forall|n: int| #[trigger] p.room(n) && sub.room(n) ==> p.with_command(names, sub).room(n),
{
    let q = p.with_flag(names);
    assert forall|n: int| #[trigger] p.room(n) && n <= usize::MAX implies q.room(n) by {
        assert forall|i: int| 0 <= i < q.flags.len() implies #[trigger] q.flags[i] + n
            <= usize::MAX by {
            if i < p.flags.len() {
                assert(q.flags[i] == p.flags[i]);
            }
        }
    }
    let c = p.with_command(names, sub);
    assert forall|n: int| #[trigger] p.room(n) && sub.room(n) implies c.room(n) by {
        assert forall|i: int| 0 <= i < c.commands.len() implies (#[trigger] c.commands[i]).room(
            n,
        ) by {
            if i < p.commands.len() {
                assert(c.commands[i] == p.commands[i]);
            }
        }
    }
    if sub.wf() {
        assert forall|i: int| 0 <= i < c.commands.len() implies (#[trigger] c.commands[i]).wf() by {
            if i < p.commands.len() {
                assert(c.commands[i] == p.commands[i]);
            }
        }
    }
}

/// Every alias of a new option leads to the new entry, which is the last
/// one and has no value yet; every other name leads where it led before.
pub proof fn lemma_new_option(p: ParserView, names: Seq<char>, default: Seq<char>)
    requires
        p.options.len() <= usize::MAX,
    ensures
        ({
            let q = p.with_option(names, default);
            &&& q.options.len() == p.options.len() + 1
            &&& q.options.last() == OptView { values: Seq::empty(), default }
            &&& forall|k: Seq<char>| #[trigger]
                q.is_option(k) <==> p.is_option(k) || words(names).contains(k)
            &&& forall|k: Seq<char>|
                words(names).contains(k) ==> #[trigger] q.option_map[k] == p.options.len()
            &&& forall|k: Seq<char>|
                p.is_option(k) && !words(names).contains(k) ==> #[trigger] q.option_map[k]
                    == p.option_map[k]
        }),
{
}

/// Every alias of a new flag leads to the new entry, which is the last one
/// and was met no time yet; every other name leads where it led before.
pub proof fn lemma_new_flag(p: ParserView, names: Seq<char>)
    requires
        p.flags.len() <= usize::MAX,
    ensures
        ({
            let q = p.with_flag(names);
            &&& q.flags.len() == p.flags.len() + 1
            &&& q.flags.last() == 0
            &&& forall|k: Seq<char>| #[trigger]
                q.is_flag(k) <==> p.is_flag(k) || words(names).contains(k)
            &&& forall|k: Seq<char>|
                words(names).contains(k) ==> #[trigger] q.flag_map[k] == p.flags.len()
            &&& forall|k: Seq<char>|
                p.is_flag(k) && !words(names).contains(k) ==> #[trigger] q.flag_map[k]
                    == p.flag_map[k]
        }),
{
}

/// Every alias of a new sub-command leads to the new parser, which is the
/// last one; every other name leads where it led before.
pub proof fn lemma_new_command(p: ParserView, names: Seq<char>, sub: ParserView)
    requires
        p.commands.len() <= usize::MAX,
    ensures
        ({
            let q = p.with_command(names, sub);
            &&& q.commands.len() == p.commands.len() + 1
            &&& q.commands.last() == sub
            &&& forall|k: Seq<char>| #[trigger]
                q.is_command(k) <==> p.is_command(k) || words(names).contains(k)
            &&& forall|k: Seq<char>|
                words(names).contains(k) ==> #[trigger] q.command_map[k] == p.commands.len()
            &&& forall|k: Seq<char>|
                p.is_command(k) && !words(names).contains(k) ==> #[trigger] q.command_map[k]
                    == p.command_map[k]
        }),
{
}

/// Room for more is room for less.
pub proof fn lemma_room_le(p: ParserView, n: int, m: int)
    requires
        p.room(n),
        m <= n,
    ensures
        p.room(m),
    decreases p,
{
    assert forall|i: int| 0 <= i < p.commands.len() implies (#[trigger] p.commands[i]).room(m) by {
        lemma_room_le(p.commands[i], n, m);
    }
}

/// Counting a flag keeps every alias valid.
pub proof fn lemma_bump_wf(p: ParserView, index: int)
    requires
        p.wf(),
        0 <= index < p.flags.len(),
    ensures
        p.bump(index).wf(),
{
}

/// Counting a flag keeps every alias valid and uses up one unit of room.
pub proof fn lemma_bump(p: ParserView, index: int, n: int)
    requires
        p.wf(),
        p.room(n),
        0 <= index < p.flags.len(),
    ensures
        p.bump(index).wf(),
        p.bump(index).room(n - 1),
{
    let q = p.bump(index);
    assert forall|i: int| 0 <= i < q.commands.len() implies (#[trigger] q.commands[i]).room(
        n - 1,
    ) by {
        lemma_room_le(p.commands[i], n, n - 1);
    }
    assert forall|i: int| 0 <= i < q.flags.len() implies #[trigger] q.flags[i] + (n - 1)
        <= usize::MAX by {
        assert(p.flags[i] + n <= usize::MAX);
    }
}

/// Supplying a value keeps every alias valid and takes no room.
pub proof fn lemma_supply(p: ParserView, index: int, value: Seq<char>)
    requires
        p.wf(),
        0 <= index < p.options.len(),
    ensures
        p.supply(index, value).wf(),
        forall|n: int| #[trigger] p.room(n) ==> p.supply(index, value).room(n),
{
}

/// Keeping positional arguments keeps every alias valid and takes no room.
pub proof fn lemma_keep(p: ParserView, tokens: Seq<Seq<char>>)
    requires
        p.wf(),
    ensures
        p.keep(tokens).wf(),
        forall|n: int| #[trigger] p.room(n) ==> p.keep(tokens).room(n),
{
}

/// The budget is never negative, and falls as the cursor moves on.
pub proof fn lemma_budget(tokens: Seq<Seq<char>>, from: int, to: int)
    requires
        0 <= from <= to,
    ensures
        0 <= budget(tokens, to) <= budget(tokens, from),
    decreases to - from,
{
    if from < to {
        lemma_budget(tokens, from + 1, to);
    } else {
        lemma_budget_floor(tokens, to);
    }
}

/// The budget is never negative.
pub proof fn lemma_budget_floor(tokens: Seq<Seq<char>>, cursor: int)
    ensures
        0 <= budget(tokens, cursor),
    decreases tokens.len() - cursor,
{
    if 0 <= cursor < tokens.len() {
        lemma_budget_floor(tokens, cursor + 1);
    }
}

} // verus!
