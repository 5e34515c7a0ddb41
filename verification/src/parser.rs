//! The parser: registration of flags, options and sub-commands, the engine
//! that reads the tokens, and the queries on what it found.

use vstd::prelude::*;
use vstd::hash_map::StringHashMap;
use vstd::string::StringExecFns;
use vstd::string::StrSliceExecFns;
use crate::error::{status_of, unit_status_of, Error, Outcome};
use crate::model::{
    assign, budget, classify, cluster, help_command, lemma_budget, lemma_budget_floor, lemma_bump,
    lemma_empty, lemma_fresh_registration, lemma_keep, lemma_registration, lemma_room_le,
    lemma_supply, long_name, run,
    shown, bind_all, OptView, ParserView, TokenClass,
};
use crate::stream::ArgStream;
use crate::text::{count_dashes, find_char, is_ascii_digit, same_text, split_words, trim};

verus! {

/// One registered option: every alias of it leads to the same entry.
struct Opt {
    values: Vec<String>,
    default: String,
}

/// One registered flag: every alias of it leads to the same entry.
struct Flag {
    count: usize,
}

impl View for Opt {
    type V = OptView;

    closed spec fn view(&self) -> OptView {
        OptView { values: self.values.deep_view(), default: self.default@ }
    }
}

/// A function of the caller's, to be called when a sub-command was found.
///
/// It is kept as a boxed closure, `Box<dyn Fn(&str, &ArgParser)>`, a type
/// that the verifier does not take: to the verifier this struct is opaque,
/// and nothing in the library's contracts rests on what is in it.
#[verifier::external_body]
struct Callback {
    f: Box<dyn Fn(&str, &ArgParser)>,
}

impl Callback {
    /// Boxes `f` with `Box::new`, for a later call. Trusted, and nothing is
    /// claimed of the result. Only a function that takes every name and
    /// every parser is boxed: `call` hands it whatever was parsed.
    #[verifier::external_body]
    fn new<F: Fn(&str, &ArgParser) + 'static>(f: F) -> Callback
        requires
            forall|name: &str, parser: &ArgParser| #[trigger] f.requires((name, parser)),
    {
        Callback { f: Box::new(f) }
    }

    /// Calls the boxed closure (`Fn::call`) with the name under which the
    /// sub-command was found and with the sub-command's parser. Trusted, and
    /// nothing is claimed of what the call does. The closure asks nothing of
    /// its arguments: `new` boxes no other.
    #[verifier::external_body]
    fn call(&self, name: &str, parser: &ArgParser) {
        (self.f)(name, parser)
    }
}

/// An ArgParser instance is set up with the builder methods, then parses
/// once; after that the queries tell what was found.
///
/// ```text
/// let mut parser = ArgParser::new()
///     .helptext("Usage: appname...")
///     .version("1.0")
///     .option("bar b", "default")
///     .flag("foo f");
/// ```
///
/// Contracts speak of a parser through its view, a `ParserView`. Every
/// parser that the builder methods make is well formed (`wf`), and parsing
/// keeps it so.
pub struct ArgParser {
    helptext: Option<String>,
    version: Option<String>,
    options: Vec<Opt>,
    option_map: StringHashMap<usize>,
    flags: Vec<Flag>,
    flag_map: StringHashMap<usize>,
    commands: Vec<ArgParser>,
    command_map: StringHashMap<usize>,
    callback: Option<Callback>,
    /// Stores positional arguments.
    pub args: Vec<String>,
    /// Stores the command name, if a command was found.
    pub cmd_name: Option<String>,
    /// Stores the command's `ArgParser` instance, if a command was found.
    pub cmd_parser: Option<Box<ArgParser>>,
    /// Whether the built-in `help` command is enabled.
    pub cmd_help: bool,
}

/// The characters of a string that may be absent.
pub open spec fn text_of(s: Option<String>) -> Option<Seq<char>> {
    match s {
        Some(text) => Some(text@),
        None => None,
    }
}

impl ArgParser {
    /// The parser as contracts see it; nested parsers are seen the same way.
    closed spec fn model(&self) -> ParserView
        decreases self,
    {
        ParserView {
            helptext: text_of(self.helptext),
            version: text_of(self.version),
            options: Seq::new(self.options@.len(), |i: int| self.options@[i]@),
            option_map: self.option_map@,
            flags: Seq::new(self.flags@.len(), |i: int| self.flags@[i].count as nat),
            flag_map: self.flag_map@,
            commands: Seq::new(
                self.commands@.len(),
                |i: int|
                    if 0 <= i < self.commands@.len() {
                        self.commands@[i].model()
                    } else {
                        ParserView::empty()
                    },
            ),
            command_map: self.command_map@,
            has_callback: self.callback is Some,
            args: self.args.deep_view(),
            cmd_name: text_of(self.cmd_name),
            cmd_parser: match self.cmd_parser {
                Some(inner) => Some(Box::new((*inner).model())),
                None => None,
            },
            cmd_help: self.cmd_help,
        }
    }
}

impl View for ArgParser {
    type V = ParserView;

    closed spec fn view(&self) -> ParserView {
        self.model()
    }
}

/// Binds every name in `names` to `index` in `map`.
fn bind_names(map: &mut StringHashMap<usize>, names: Vec<String>, index: usize)
    ensures
        final(map)@ == bind_all(old(map)@, names.deep_view(), index),
{
    let ghost before = map@;
    let ghost all = names.deep_view();
    let mut names = names;
    let mut done: Ghost<Seq<Seq<char>>> = Ghost(Seq::empty());
    assert(map@ =~= bind_all(before, done@, index));
    while names.len() > 0
        invariant
            map@ == bind_all(before, done@, index),
            forall|k: Seq<char>| all.contains(k) <==> done@.contains(k) || names.deep_view().contains(k),
        decreases names.len(),
    {
        let ghost left = names.deep_view();
        let name = names.pop().unwrap();
        proof {
            let added = done@.push(name@);
            assert(left.last() == name@);
            assert(names.deep_view() =~= left.drop_last());
            assert forall|k: Seq<char>| all.contains(k) <==> added.contains(k)
                || names.deep_view().contains(k) by {
                if left.contains(k) {
                    let i = choose|i: int| 0 <= i < left.len() && left[i] == k;
                    if i < left.len() - 1 {
                        assert(left.drop_last()[i] == k);
                    } else {
                        assert(added[added.len() - 1] == k);
                    }
                }
                if done@.contains(k) {
                    let i = choose|i: int| 0 <= i < done@.len() && done@[i] == k;
                    assert(added[i] == k);
                }
                if added.contains(k) {
                    let i = choose|i: int| 0 <= i < added.len() && added[i] == k;
                    if i < done@.len() {
                        assert(done@[i] == k);
                    } else {
                        assert(left[left.len() - 1] == k);
                    }
                }
                if names.deep_view().contains(k) {
                    let i = choose|i: int| 0 <= i < left.len() - 1 && left.drop_last()[i] == k;
                    assert(left[i] == k);
                }
            }
            assert(bind_all(before, done@, index).insert(name@, index)
                =~= bind_all(before, added, index)) by {
                assert forall|k: Seq<char>| added.contains(k) <==> (done@.contains(k) || k
                    == name@) by {
                    if done@.contains(k) {
                        let i = choose|i: int| 0 <= i < done@.len() && done@[i] == k;
                        assert(added[i] == k);
                    }
                    if k == name@ {
                        assert(added[added.len() - 1] == k);
                    }
                }
            }
            done@ = added;
        }
        map.insert(name, index);
    }
    proof {
        assert(names.deep_view().len() == 0);
        assert(bind_all(before, done@, index) =~= bind_all(
            before,
            all,
            index,
        ));
    }
}

/// The entry that `key` is bound to in `map`, if it is bound.
fn lookup(map: &StringHashMap<usize>, key: &str) -> (found: Option<usize>)
    ensures
        match found {
            Some(index) => map@.contains_key(key@) && map@[key@] == index,
            None => !map@.contains_key(key@),
        },
{
    match map.get(key) {
        Some(index) => Some(*index),
        None => None,
    }
}

/// A copy of `strings`.
fn copy_strings(strings: &Vec<String>) -> (out: Vec<String>)
    ensures
        out.deep_view() == strings.deep_view(),
{
    let mut out: Vec<String> = Vec::new();
    let mut i: usize = 0;
    while i < strings.len()
        invariant
            i <= strings.len(),
            out.len() == i,
            forall|j: int| 0 <= j < i ==> out@[j]@ == strings@[j]@,
        decreases strings.len() - i,
    {
        out.push(strings[i].clone());
        i = i + 1;
    }
    assert(out.deep_view() =~= strings.deep_view());
    out
}

/// The number of characters in `args`, where it fits `usize`: the room
/// that parsing them asks for.
pub fn budget_of(args: &Vec<&str>) -> (total: Option<usize>)
    ensures
        match total {
            Some(n) => n == budget(args.deep_view(), 0),
            None => budget(args.deep_view(), 0) > usize::MAX,
        },
{
    let ghost tokens = args.deep_view();
    let mut sum: usize = 0;
    let mut i: usize = 0;
    while i < args.len()
        invariant
            i <= args.len(),
            tokens == args.deep_view(),
            sum + budget(tokens, i as int) == budget(tokens, 0),
        decreases args.len() - i,
    {
        let len: usize = args[i].unicode_len();
        assert(tokens[i as int] == args@[i as int]@);
        proof {
            lemma_budget_floor(tokens, i + 1);
        }
        match sum.checked_add(len) {
            Some(next) => {
                sum = next;
            },
            None => {
                return None;
            },
        }
        i = i + 1;
    }
    Some(sum)
}

/// The class of `token`.
pub fn classify_token(token: &str) -> (class: TokenClass)
    ensures
        class == classify(token@),
{
    let n: usize = token.unicode_len();
    if n == 0 || token.get_char(0) != '-' {
        return TokenClass::Word;
    }
    if n == 1 {
        return TokenClass::Literal;
    }
    let second = token.get_char(1);
    if second == '-' {
        if n == 2 {
            TokenClass::EndOfOptions
        } else if find_char(token, '=').is_some() {
            TokenClass::Inline
        } else {
            TokenClass::Long
        }
    } else if is_ascii_digit(second) {
        TokenClass::Literal
    } else if find_char(token, '=').is_some() {
        TokenClass::Inline
    } else {
        TokenClass::Cluster
    }
}

impl ArgParser {
    /// The tables of a parser are vectors, so their lengths fit `usize`:
    /// the position of an entry is the number that its aliases are bound to.
    pub fn tables_fit(&self)
        ensures
            self@.options.len() <= usize::MAX,
            self@.flags.len() <= usize::MAX,
            self@.commands.len() <= usize::MAX,
    {
        let options: usize = self.options.len();
        let flags: usize = self.flags.len();
        let commands: usize = self.commands.len();
    }

    /// Creates a new ArgParser instance, with nothing registered.
    pub fn new() -> (p: ArgParser)
        ensures
            p@ == ParserView::empty(),
            p@.wf(),
            p@.fresh(),
    {
        let p = ArgParser {
            helptext: None,
            version: None,
            args: Vec::new(),
            options: Vec::new(),
            option_map: StringHashMap::new(),
            flags: Vec::new(),
            flag_map: StringHashMap::new(),
            commands: Vec::new(),
            command_map: StringHashMap::new(),
            callback: None,
            cmd_name: None,
            cmd_parser: None,
            cmd_help: false,
        };
        assert(p@.options =~= Seq::empty());
        assert(p@.flags =~= Seq::empty());
        assert(p@.commands =~= Seq::empty());
        assert(p@.args =~= Seq::empty());
        assert(p@ =~= ParserView::empty());
        proof {
            lemma_empty();
        }
        p
    }

    /// Sets the parser's helptext string. With a helptext set, `--help` asks
    /// for it, and so does `-h` unless `h` is registered.
    pub fn helptext(self, text: &str) -> (p: ArgParser)
        ensures
            p@ == self@.with_helptext(text@),
            self@.wf() ==> p@.wf(),
            self@.fresh() ==> p@.fresh(),
    {
        let mut p = self;
        p.helptext = Some(String::from_str(text));
        assert(p@ =~= self@.with_helptext(text@));
        p
    }

    /// Sets the parser's version string. With a version set, `--version`
    /// asks for it, and so does `-v` unless `v` is registered.
    pub fn version(self, text: &str) -> (p: ArgParser)
        ensures
            p@ == self@.with_version(text@),
            self@.wf() ==> p@.wf(),
            self@.fresh() ==> p@.fresh(),
    {
        let mut p = self;
        p.version = Some(String::from_str(text));
        assert(p@ =~= self@.with_version(text@));
        p
    }

    /// Registers a new option. `name` holds any number of aliases and
    /// single-character shortcuts, separated by white space. `default` is
    /// the option's value while none is supplied.
    pub fn option(self, name: &str, default: &str) -> (p: ArgParser)
        ensures
            p@ == self@.with_option(name@, default@),
            self@.options.len() < usize::MAX,
            self@.wf() ==> p@.wf(),
            self@.fresh() ==> p@.fresh(),
    {
        proof {
            if self@.fresh() {
                lemma_fresh_registration(self@, name@, default@, ParserView::empty());
            }
        }
        self.tables_fit();
        proof {
            if self@.wf() {
                lemma_registration(self@, name@, default@, ParserView::empty());
            }
        }
        let mut p = self;
        let index: usize = p.options.len();
        p.options.push(Opt { values: Vec::new(), default: String::from_str(default) });
        p.tables_fit();
        bind_names(&mut p.option_map, split_words(name), index);
        proof {
            let entry = OptView { values: Seq::empty(), default: default@ };
            assert(p.options@[index as int]@ =~= entry);
            assert(p@.options =~= self@.options.push(entry));
            assert(p@ =~= self@.with_option(name@, default@));
        }
        p
    }

    /// Registers a new flag. `name` holds any number of aliases and
    /// single-character shortcuts, separated by white space.
    pub fn flag(self, name: &str) -> (p: ArgParser)
        ensures
            p@ == self@.with_flag(name@),
            self@.flags.len() < usize::MAX,
            self@.wf() ==> p@.wf(),
            self@.fresh() ==> p@.fresh(),
    {
        proof {
            if self@.fresh() {
                lemma_fresh_registration(self@, name@, Seq::empty(), ParserView::empty());
            }
        }
        self.tables_fit();
        proof {
            if self@.wf() {
                lemma_registration(self@, name@, Seq::empty(), ParserView::empty());
            }
        }
        let mut p = self;
        let index: usize = p.flags.len();
        p.flags.push(Flag { count: 0 });
        p.tables_fit();
        bind_names(&mut p.flag_map, split_words(name), index);
        proof {
            assert(p@.flags =~= self@.flags.push(0));
            assert(p@ =~= self@.with_flag(name@));
        }
        p
    }

    /// Registers a new command. `name` holds any number of aliases,
    /// separated by white space. The command's helptext, flags and options
    /// are registered on `cmd_parser`.
    pub fn command(self, name: &str, cmd_parser: ArgParser) -> (p: ArgParser)
        ensures
            p@ == self@.with_command(name@, cmd_parser@),
            self@.commands.len() < usize::MAX,
            self@.wf() && cmd_parser@.wf() ==> p@.wf(),
            self@.fresh() && cmd_parser@.fresh() ==> p@.fresh(),
    {
        proof {
            if self@.fresh() {
                lemma_fresh_registration(self@, name@, Seq::empty(), cmd_parser@);
            }
        }
        self.tables_fit();
        proof {
            if self@.wf() {
                lemma_registration(self@, name@, Seq::empty(), cmd_parser@);
            }
        }
        let mut p = self;
        if cmd_parser.helptext.is_some() {
            p.cmd_help = true;
        }
        let index: usize = p.commands.len();
        p.commands.push(cmd_parser);
        p.tables_fit();
        bind_names(&mut p.command_map, split_words(name), index);
        proof {
            assert(p@.commands =~= self@.commands.push(cmd_parser@));
            assert(p@ =~= self@.with_command(name@, cmd_parser@));
        }
        p
    }

    /// Switches the built-in `help` command, which shows a sub-command's
    /// helptext, on or off. It is off at first and is switched on whenever a
    /// command with helptext is registered.
    pub fn enable_help_command(self, enable: bool) -> (p: ArgParser)
        ensures
            p@ == self@.with_help_command(enable),
            self@.wf() ==> p@.wf(),
            self@.fresh() ==> p@.fresh(),
    {
        let mut p = self;
        p.cmd_help = enable;
        assert(p@ =~= self@.with_help_command(enable));
        p
    }

    /// Registers a callback function on a command parser. When the command
    /// is found and its arguments parse, the function is called with the
    /// command's name and a reference to the command's parser. The function
    /// must take every name and every parser: it is called with whatever
    /// was parsed.
    pub fn callback<F: Fn(&str, &ArgParser) + 'static>(self, f: F) -> (p: ArgParser)
        requires
            forall|name: &str, parser: &ArgParser| #[trigger] f.requires((name, parser)),
        ensures
            p@ == self@.with_callback(),
            self@.wf() ==> p@.wf(),
            self@.fresh() ==> p@.fresh(),
    {
        let mut p = self;
        p.callback = Some(Callback::new(f));
        assert(p@ =~= self@.with_callback());
        p
    }

    /// The positional arguments, in input order.
    pub fn arguments(&self) -> (args: &Vec<String>)
        ensures
            args.deep_view() == self@.args,
    {
        &self.args
    }

    /// The name under which a command was found, if one was.
    pub fn command_name(&self) -> (name: Option<&String>)
        ensures
            match name {
                Some(name) => self@.cmd_name == Some(name@),
                None => self@.cmd_name is None,
            },
    {
        self.cmd_name.as_ref()
    }

    /// The parser of the command that was found, if one was.
    pub fn command_parser(&self) -> (inner: Option<&ArgParser>)
        ensures
            match inner {
                Some(inner) => self@.cmd_parser == Some(Box::new(inner@)),
                None => self@.cmd_parser is None,
            },
    {
        match &self.cmd_parser {
            Some(inner) => Some(&**inner),
            None => None,
        }
    }

    /// Whether the built-in `help` command is enabled.
    pub fn help_command_enabled(&self) -> (enabled: bool)
        ensures
            enabled == self@.cmd_help,
    {
        self.cmd_help
    }

    /// Whether every flag count, of this parser and of every registered
    /// sub-command, can still grow by `n` without leaving `usize`: what
    /// parsing tokens of `n` characters in all asks for.
    pub fn has_room(&self, n: usize) -> (ok: bool)
        ensures
            ok == self@.room(n as int),
        decreases self,
    {
        let mut i: usize = 0;
        while i < self.flags.len()
            invariant
                i <= self.flags.len(),
                forall|j: int| 0 <= j < i ==> #[trigger] self@.flags[j] + n <= usize::MAX,
            decreases self.flags.len() - i,
        {
            if self.flags[i].count > usize::MAX - n {
                assert(!(self@.flags[i as int] + n <= usize::MAX));
                return false;
            }
            i = i + 1;
        }
        let mut k: usize = 0;
        while k < self.commands.len()
            invariant
                k <= self.commands.len(),
                forall|j: int| 0 <= j < self@.flags.len() ==> #[trigger] self@.flags[j] + n <= usize::MAX,
                forall|j: int| 0 <= j < k ==> (#[trigger] self@.commands[j]).room(n as int),
            decreases self.commands.len() - k,
        {
            assert(self@.commands[k as int] == self.commands@[k as int]@);
            if !self.commands[k].has_room(n) {
                return false;
            }
            k = k + 1;
        }
        true
    }

    /// Whether `name` is an alias of a registered option.
    pub fn is_option(&self, name: &str) -> (known: bool)
        ensures
            known == self@.is_option(name@),
    {
        self.option_map.contains_key(name)
    }

    /// Whether `name` is an alias of a registered flag.
    pub fn is_flag(&self, name: &str) -> (known: bool)
        ensures
            known == self@.is_flag(name@),
    {
        self.flag_map.contains_key(name)
    }

    /// Returns the value of the named option: the last one that was
    /// supplied, or the default registered with the option while none was.
    /// Any of the option's aliases can stand for `name`.
    pub fn value(&self, name: &str) -> (v: String)
        requires
            self@.wf(),
            self@.is_option(name@),
        ensures
            v@ == self@.value_of(name@),
    {
        let index: usize = lookup(&self.option_map, name).unwrap();
        let entry = &self.options[index];
        let n: usize = entry.values.len();
        if n > 0 {
            entry.values[n - 1].clone()
        } else {
            entry.default.clone()
        }
    }

    /// Returns the named option's list of values, oldest first. Any of the
    /// option's aliases can stand for `name`.
    pub fn values(&self, name: &str) -> (all: Vec<String>)
        requires
            self@.wf(),
            self@.is_option(name@),
        ensures
            all.deep_view() == self@.values_of(name@),
    {
        let index: usize = lookup(&self.option_map, name).unwrap();
        copy_strings(&self.options[index].values)
    }

    /// Returns the number of times the named flag or option was found. Any
    /// of its aliases can stand for `name`; a name that is both counts as
    /// the flag.
    pub fn count(&self, name: &str) -> (n: usize)
        requires
            self@.wf(),
            self@.is_flag(name@) || self@.is_option(name@),
        ensures
            n == self@.count_of(name@),
    {
        match lookup(&self.flag_map, name) {
            Some(index) => self.flags[index].count,
            None => {
                let index: usize = lookup(&self.option_map, name).unwrap();
                self.options[index].values.len()
            },
        }
    }

    /// Returns `true` if the named flag or option was found. Any of its
    /// aliases can stand for `name`.
    pub fn found(&self, name: &str) -> (seen: bool)
        requires
            self@.wf(),
            self@.is_flag(name@) || self@.is_option(name@),
        ensures
            seen == (self@.count_of(name@) > 0),
    {
        self.count(name) > 0
    }

    /// Counts the flag at `index` once more.
    fn count_flag(&mut self, index: usize)
        requires
            index < old(self)@.flags.len(),
            old(self)@.flags[index as int] < usize::MAX,
        ensures
            final(self)@ == old(self)@.bump(index as int),
    {
        let seen: usize = self.flags[index].count;
        self.flags.set(index, Flag { count: seen + 1 });
        proof {
            assert(self@.flags =~= old(self)@.bump(index as int).flags);
            assert(self@ =~= old(self)@.bump(index as int));
        }
    }

    /// Appends `value` to the values of the option at `index`.
    fn supply(&mut self, index: usize, value: String)
        requires
            index < old(self)@.options.len(),
        ensures
            final(self)@ == old(self)@.supply(index as int, value@),
    {
        let ghost before = self.options@[index as int]@;
        self.options[index].values.push(value);
        proof {
            let after = OptView { values: before.values.push(value@), ..before };
            assert(self.options@[index as int]@ =~= after);
            assert(self@.options =~= old(self)@.supply(index as int, value@).options);
            assert(self@ =~= old(self)@.supply(index as int, value@));
        }
    }

    /// Appends `token` to the positional arguments.
    fn keep(&mut self, token: String)
        ensures
            final(self)@ == old(self)@.keep(seq![token@]),
    {
        self.args.push(token);
        proof {
            assert(self@.args =~= old(self)@.args + seq![token@]);
            assert(self@ =~= old(self)@.keep(seq![token@]));
        }
    }

    /// The text that the name `key` asks to be shown, if it asks for one:
    /// the helptext under the name `help`, the version under the name
    /// `version`.
    fn shortcut(&self, key: &str, help: &str, version: &str) -> (text: Option<String>)
        ensures
            text_of(text) == shown(self@, key@, help@, version@),
    {
        if same_text(key, help) {
            if let Some(text) = &self.helptext {
                return Some(trim(text.as_str()));
            }
        }
        if same_text(key, version) {
            if let Some(text) = &self.version {
                return Some(trim(text.as_str()));
            }
        }
        None
    }

    /// Reads the token `arg`, of the form `name=value`: the name, without
    /// its dashes, must be an option, and gets the value.
    pub fn handle_equals_opt(&mut self, arg: &str) -> (r: Result<(), Error>)
        requires
            old(self)@.wf(),
            arg@.contains('='),
        ensures
            final(self)@ == assign(old(self)@, arg@).parser,
            unit_status_of(r) == assign(old(self)@, arg@).status,
            final(self)@.wf(),
            forall|n: int| #[trigger] old(self)@.room(n) ==> final(self)@.room(n),
    {
        let len: usize = arg.unicode_len();
        let at: usize = find_char(arg, '=').unwrap();
        let name = arg.substring_char(0, at);
        let value = arg.substring_char(at + 1, len);
        let dashes: usize = count_dashes(name);
        let key = name.substring_char(dashes, at);
        match lookup(&self.option_map, key) {
            Some(index) => {
                if value.unicode_len() == 0 {
                    Err(Error::missing_value(name))
                } else {
                    proof {
                        lemma_supply(self@, index as int, value@);
                    }
                    self.supply(index, String::from_str(value));
                    Ok(())
                }
            },
            None => Err(Error::unknown_option(name)),
        }
    }

    /// Reads the token `arg`, of the form `--name`: a flag is counted, an
    /// option takes the next token of `stream` as its value. `room` is how
    /// far every flag count can still grow.
    fn handle_long_opt(&mut self, arg: &str, stream: &mut ArgStream, Ghost(room): Ghost<int>) -> (r:
        Result<Outcome, Error>)
        requires
            old(self)@.wf(),
            old(self)@.room(room),
            room >= 1,
            arg@.len() >= 2,
            old(stream).cursor() <= old(stream).tokens().len(),
        ensures
            ({
                let s = long_name(old(self)@, arg@, old(stream).tokens(), old(stream).cursor() as int);
                &&& final(self)@ == s.parser
                &&& status_of(r) == s.status
                &&& final(stream).cursor() == old(stream).cursor() + s.extra.len()
            }),
            final(stream).tokens() == old(stream).tokens(),
            final(stream).cursor() <= final(stream).tokens().len(),
            final(self)@.wf(),
            final(self)@.room(room - 1),
    {
        let len: usize = arg.unicode_len();
        let key = arg.substring_char(2, len);
        if let Some(index) = lookup(&self.flag_map, key) {
            proof {
                lemma_bump(self@, index as int, room);
            }
            self.count_flag(index);
            Ok(Outcome::Parsed)
        } else {
            proof {
                lemma_room_le(self@, room, room - 1);
            }
            if let Some(index) = lookup(&self.option_map, key) {
                if stream.has_next() {
                    let value = stream.next();
                    proof {
                        lemma_supply(self@, index as int, value@);
                    }
                    self.supply(index, value);
                    Ok(Outcome::Parsed)
                } else {
                    Err(Error::missing_value(arg))
                }
            } else {
                match self.shortcut(key, "help", "version") {
                    Some(text) => Ok(Outcome::Show(text)),
                    None => Err(Error::unknown_name(arg)),
                }
            }
        }
    }

    /// Reads the token `arg`, of the form `-abc`: each character after the
    /// dash is a name of its own; a flag is counted, an option takes the
    /// next token of `stream` as its value. `room` is how far every flag
    /// count can still grow.
    fn handle_short_opt(&mut self, arg: &str, stream: &mut ArgStream, Ghost(room): Ghost<int>) -> (r:
        Result<Outcome, Error>)
        requires
            old(self)@.wf(),
            old(self)@.room(room),
            room >= arg@.len() - 1,
            arg@.len() >= 1,
            old(stream).cursor() <= old(stream).tokens().len(),
        ensures
            ({
                let s = cluster(old(self)@, arg@, 1, old(stream).tokens(), old(stream).cursor() as int);
                &&& final(self)@ == s.parser
                &&& status_of(r) == s.status
                &&& final(stream).cursor() == old(stream).cursor() + s.extra.len()
            }),
            final(stream).tokens() == old(stream).tokens(),
            final(stream).cursor() <= final(stream).tokens().len(),
            final(self)@.wf(),
            final(self)@.room(room - (arg@.len() - 1)),
    {
        let len: usize = arg.unicode_len();
        let ascii = arg.is_ascii();
        let ghost tokens = stream.tokens();
        let ghost goal = cluster(self@, arg@, 1, tokens, stream.cursor() as int);
        let ghost from = stream.cursor();
        let mut j: usize = 1;
        while j < len
            invariant
                1 <= j <= len,
                len == arg@.len(),
                ascii == arg.is_ascii(),
                stream.tokens() == tokens,
                tokens == old(stream).tokens(),
                from == old(stream).cursor(),
                goal == cluster(old(self)@, arg@, 1, tokens, from as int),
                from <= stream.cursor() <= tokens.len(),
                self@.wf(),
                self@.room(room - (j - 1)),
                room >= len - 1,
                ({
                    let rest = cluster(self@, arg@, j as int, tokens, stream.cursor() as int);
                    &&& goal.parser == rest.parser
                    &&& goal.status == rest.status
                    &&& goal.extra.len() == (stream.cursor() - from) + rest.extra.len()
                }),
            decreases len - j,
        {
            // Cutting a character out takes longer the further it stands
            // from the start, unless every character is one byte.
            let c = if ascii {
                arg.substring_ascii(j, j + 1)
            } else {
                arg.substring_char(j, j + 1)
            };
            assert(c@ =~= seq![arg@[j as int]]);
            if let Some(index) = lookup(&self.flag_map, c) {
                proof {
                    lemma_bump(self@, index as int, room - (j - 1));
                }
                self.count_flag(index);
            } else {
                proof {
                    lemma_room_le(self@, room - (j - 1), room - (len - 1));
                }
                if let Some(index) = lookup(&self.option_map, c) {
                    if stream.has_next() {
                        let value = stream.next();
                        proof {
                            lemma_supply(self@, index as int, value@);
                            lemma_room_le(self@, room - (j - 1), room - j);
                        }
                        self.supply(index, value);
                    } else {
                        return Err(
                            if len > 2 {
                                Error::missing_value_in(c, arg)
                            } else {
                                Error::missing_value(arg)
                            },
                        );
                    }
                } else {
                    return match self.shortcut(c, "h", "v") {
                        Some(text) => Ok(Outcome::Show(text)),
                        None => Err(
                            if len > 2 {
                                Error::unknown_name_in(c, arg)
                            } else {
                                Error::unknown_name(arg)
                            },
                        ),
                    };
                }
            }
            j = j + 1;
        }
        Ok(Outcome::Parsed)
    }

    /// Appends every token that is left in `stream` to the positional
    /// arguments.
    fn keep_rest(&mut self, stream: &mut ArgStream)
        requires
            old(self)@.wf(),
            old(stream).cursor() <= old(stream).tokens().len(),
        ensures
            final(self)@ == old(self)@.keep(old(stream).tokens().skip(old(stream).cursor() as int)),
            final(stream).tokens() == old(stream).tokens(),
            final(stream).cursor() == old(stream).tokens().len(),
            final(self)@.wf(),
    {
        let ghost tokens = stream.tokens();
        let ghost from = stream.cursor() as int;
        proof {
            lemma_keep(self@, Seq::empty());
            assert(self@ =~= self@.keep(tokens.subrange(from, from)));
        }
        while stream.has_next()
            invariant
                stream.tokens() == tokens,
                from == old(stream).cursor(),
                from <= stream.cursor() <= tokens.len(),
                self@ == old(self)@.keep(tokens.subrange(from, stream.cursor() as int)),
                old(self)@.wf(),
                self@.wf(),
            decreases tokens.len() - stream.cursor(),
        {
            let ghost at = stream.cursor() as int;
            let token = stream.next();
            proof {
                lemma_keep(self@, seq![token@]);
                assert(tokens.subrange(from, at) + seq![token@] =~= tokens.subrange(from, at + 1));
                assert(old(self)@.keep(tokens.subrange(from, at)).keep(seq![token@]) =~= old(
                    self,
                )@.keep(tokens.subrange(from, at + 1)));
            }
            self.keep(token);
        }
        proof {
            assert(tokens.subrange(from, tokens.len() as int) =~= tokens.skip(from));
        }
    }

    /// Shows the helptext of the sub-command that the next token of
    /// `stream` names: the built-in `help` command.
    fn help_for(&self, stream: &mut ArgStream) -> (r: Result<Outcome, Error>)
        requires
            self@.wf(),
        ensures
            ({
                let s = help_command(self@, old(stream).tokens(), old(stream).cursor() as int);
                &&& status_of(r) == s.status
                &&& final(stream).cursor() == old(stream).cursor() + s.extra.len()
            }),
            final(stream).tokens() == old(stream).tokens(),
    {
        if stream.has_next() {
            let name = stream.next();
            match lookup(&self.command_map, name.as_str()) {
                Some(index) => {
                    let ghost sub = self.commands@[index as int]@;
                    assert(self@.commands[index as int] == sub);
                    match &self.commands[index].helptext {
                        Some(text) => Ok(Outcome::Show(trim(text.as_str()))),
                        None => Ok(Outcome::Show(String::new())),
                    }
                },
                None => Err(Error::unknown_command(name.as_str())),
            }
        } else {
            Err(Error::MissingHelpArg)
        }
    }

    /// Parses the tokens that are left in `stream`.
    ///
    /// Tokens are read until none is left or one stops the parse: with an
    /// error, or because it asks for the help or version text. What was
    /// found before that is kept. A sub-command reads every token after its
    /// name; its callback is called once it has parsed them all.
    pub fn parse_argstream(&mut self, stream: &mut ArgStream) -> (r: Result<Outcome, Error>)
        requires
            old(self)@.wf(),
            old(self)@.room(budget(old(stream).tokens(), old(stream).cursor() as int)),
        ensures
            ({
                let run = run(old(self)@, old(stream).tokens(), old(stream).cursor() as int, true);
                &&& final(self)@ == run.parser
                &&& status_of(r) == run.status
                &&& final(stream).cursor() == run.cursor
            }),
            final(stream).tokens() == old(stream).tokens(),
            final(self)@.wf(),
        decreases old(stream).tokens().len() - old(stream).cursor(),
    {
        let ghost tokens = stream.tokens();
        let ghost goal = run(self@, tokens, stream.cursor() as int, true);
        let mut first = true;
        while stream.has_next()
            invariant
                stream.tokens() == tokens,
                tokens == old(stream).tokens(),
                goal == run(old(self)@, tokens, old(stream).cursor() as int, true),
                old(stream).cursor() <= stream.cursor(),
                self@.wf(),
                self@.room(budget(tokens, stream.cursor() as int)),
                ({
                    let rest = run(self@, tokens, stream.cursor() as int, first);
                    &&& goal.parser == rest.parser
                    &&& goal.status == rest.status
                    &&& goal.cursor == rest.cursor
                }),
            decreases tokens.len() - stream.cursor(),
        {
            let ghost at = stream.cursor() as int;
            let ghost before = self@;
            let arg = stream.next();
            let class = classify_token(arg.as_str());
            proof {
                lemma_budget(tokens, at + 1, at + 1);
                assert(budget(tokens, at) == arg@.len() + budget(tokens, at + 1));
            }
            if class == TokenClass::EndOfOptions {
                self.keep_rest(stream);
                return Ok(Outcome::Parsed);
            } else if class == TokenClass::Inline {
                proof {
                    lemma_room_le(before, budget(tokens, at), budget(tokens, at + 1));
                }
                match self.handle_equals_opt(arg.as_str()) {
                    Ok(_) => {},
                    Err(e) => {
                        return Err(e);
                    },
                }
            } else if class == TokenClass::Long {
                proof {
                    lemma_room_le(before, budget(tokens, at), budget(tokens, at + 1) + 1);
                }
                let result = self.handle_long_opt(
                    arg.as_str(),
                    stream,
                    Ghost(budget(tokens, at + 1) + 1),
                );
                proof {
                    lemma_budget(tokens, at + 1, stream.cursor() as int);
                    lemma_room_le(self@, budget(tokens, at + 1), budget(tokens, stream.cursor() as int));
                }
                match result {
                    Ok(Outcome::Parsed) => {},
                    other => {
                        return other;
                    },
                }
            } else if class == TokenClass::Cluster {
                proof {
                    lemma_room_le(before, budget(tokens, at), budget(tokens, at + 1) + arg@.len() - 1);
                }
                let result = self.handle_short_opt(
                    arg.as_str(),
                    stream,
                    Ghost(budget(tokens, at + 1) + arg@.len() - 1),
                );
                proof {
                    lemma_budget(tokens, at + 1, stream.cursor() as int);
                    lemma_room_le(self@, budget(tokens, at + 1), budget(tokens, stream.cursor() as int));
                }
                match result {
                    Ok(Outcome::Parsed) => {},
                    other => {
                        return other;
                    },
                }
            } else if class == TokenClass::Word && first && self.command_map.contains_key(
                arg.as_str(),
            ) {
                proof {
                    lemma_room_le(before, budget(tokens, at), budget(tokens, at + 1));
                }
                let index: usize = lookup(&self.command_map, arg.as_str()).unwrap();
                let mut cmd_parser = self.commands.remove(index);
                self.command_map.clear();
                self.commands.clear();
                proof {
                    assert(cmd_parser@ == before.commands[index as int]);
                    assert(self@.commands =~= Seq::empty());
                    assert(self@ =~= before.without_commands());
                }
                match cmd_parser.parse_argstream(stream) {
                    Ok(Outcome::Parsed) => {
                        match &cmd_parser.callback {
                            Some(callback) => {
                                callback.call(arg.as_str(), &cmd_parser);
                            },
                            None => {},
                        }
                        self.cmd_name = Some(arg);
                        self.cmd_parser = Some(Box::new(cmd_parser));
                        proof {
                            assert(self@ =~= before.entered(arg@, cmd_parser@));
                        }
                        return Ok(Outcome::Parsed);
                    },
                    other => {
                        return other;
                    },
                }
            } else if class == TokenClass::Word && first && self.cmd_help && same_text(
                arg.as_str(),
                "help",
            ) {
                return self.help_for(stream);
            } else {
                proof {
                    lemma_room_le(before, budget(tokens, at), budget(tokens, at + 1));
                    lemma_keep(self@, seq![arg@]);
                }
                self.keep(arg);
            }
            first = false;
        }
        Ok(Outcome::Parsed)
    }

    /// Parses a vector of arguments.
    ///
    /// The arguments are read as `parse_argstream` reads them, from the
    /// first on.
    pub fn parse_vec(&mut self, args: Vec<&str>) -> (r: Result<Outcome, Error>)
        requires
            old(self)@.wf(),
            old(self)@.room(budget(args.deep_view(), 0)),
        ensures
            ({
                let run = run(old(self)@, args.deep_view(), 0, true);
                &&& final(self)@ == run.parser
                &&& status_of(r) == run.status
            }),
            final(self)@.wf(),
    {
        let mut strings: Vec<String> = Vec::new();
        let mut i: usize = 0;
        while i < args.len()
            invariant
                i <= args.len(),
                strings.len() == i,
                forall|j: int| 0 <= j < i ==> strings@[j]@ == args@[j]@,
            decreases args.len() - i,
        {
            strings.push(String::from_str(args[i]));
            i = i + 1;
        }
        assert(strings.deep_view() =~= args.deep_view());
        let mut stream = ArgStream::new(strings);
        self.parse_argstream(&mut stream)
    }

    /// Parses a vector of arguments, where no flag count can overflow.
    ///
    /// Every character of the arguments could be one more meeting of a
    /// flag. Where their number does not fit `usize`, or a flag count has
    /// no room for it, nothing is parsed and the parser stays as it is;
    /// else the arguments are parsed as `parse_vec` parses them.
    pub fn try_parse_vec(&mut self, args: Vec<&str>) -> (r: Option<Result<Outcome, Error>>)
        requires
            old(self)@.wf(),
        ensures
            ({
                let tokens = args.deep_view();
                let fits = budget(tokens, 0) <= usize::MAX && old(self)@.room(budget(tokens, 0));
                let run = run(old(self)@, tokens, 0, true);
                match r {
                    Some(result) => fits && final(self)@ == run.parser && status_of(result)
                        == run.status,
                    None => !fits && final(self)@ == old(self)@,
                }
            }),
            final(self)@.wf(),
    {
        match budget_of(&args) {
            Some(room) => {
                if self.has_room(room) {
                    Some(self.parse_vec(args))
                } else {
                    None
                }
            },
            None => None,
        }
    }
}

} // verus!
