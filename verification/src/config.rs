//! The resolution context: what is to be done with which file.

use vstd::prelude::*;
use crate::pattern::capture_pair;
use crate::pattern::named_captures;
use crate::text::after_last;
use crate::text::chars_of;
use crate::text::copy_range;
use crate::text::find;
use crate::text::last_part;
use crate::text::lemma_position;
use crate::text::position;
use crate::text::spells;

verus! {

/// What the caller wants done with the file.
#[derive(Debug, Clone, Copy, PartialEq, Eq, Structural)]
pub enum Action {
    View,
    Cat,
    Edit,
    Compose,
    Print,
}

/// The action that a name selects: `see`, `change` and `create` are other
/// names of `view`, `edit` and `compose`, and any unknown name means `view`.
pub open spec fn action_named(name: Seq<char>) -> Action {
    if name == "cat"@ {
        Action::Cat
    } else if name == "edit"@ || name == "change"@ {
        Action::Edit
    } else if name == "compose"@ || name == "create"@ {
        Action::Compose
    } else if name == "print"@ {
        Action::Print
    } else {
        Action::View
    }
}

impl Action {
    /// The action named by `actionstr`.
    pub fn from(actionstr: &str) -> (action: Action)
        ensures
            action == action_named(actionstr@),
    {
        let name = chars_of(actionstr);
        Action::from_chars(name.as_slice())
    }

    /// The action named by the characters `name`.
    pub fn from_chars(name: &[char]) -> (action: Action)
        ensures
            action == action_named(name@),
    {
        if spells(name, "cat") {
            Action::Cat
        } else if spells(name, "edit") || spells(name, "change") {
            Action::Edit
        } else if spells(name, "compose") || spells(name, "create") {
            Action::Compose
        } else if spells(name, "print") {
            Action::Print
        } else {
            Action::View
        }
    }
}

/// Everything the resolver reads about one invocation.
#[derive(Debug)]
pub struct Config {
    pub filename: String,
    pub mimetype: String,
    pub mimetype_source: String,
    pub action: Action,
    pub xtermcmd: String,
    pub pager: String,
    pub running_in_x: bool,
    pub debug: bool,
    pub nopager: bool,
    pub norun: bool,
}

/// The mathematical value of a `Config`.
pub ghost struct ConfigView {
    pub filename: Seq<char>,
    pub mimetype: Seq<char>,
    pub mimetype_source: Seq<char>,
    pub action: Action,
    pub xtermcmd: Seq<char>,
    pub pager: Seq<char>,
    pub running_in_x: bool,
    pub debug: bool,
    pub nopager: bool,
    pub norun: bool,
}

impl View for Config {
    type V = ConfigView;

    open spec fn view(&self) -> ConfigView {
        ConfigView {
            filename: self.filename@,
            mimetype: self.mimetype@,
            mimetype_source: self.mimetype_source@,
            action: self.action,
            xtermcmd: self.xtermcmd@,
            pager: self.pager@,
            running_in_x: self.running_in_x,
            debug: self.debug,
            nopager: self.nopager,
            norun: self.norun,
        }
    }
}

/// The configuration before any argument or environment variable is read:
/// action `view`, terminal launcher `xterm`, pager `less`, every flag off.
pub open spec fn default_config() -> ConfigView {
    ConfigView {
        filename: Seq::empty(),
        mimetype: Seq::empty(),
        mimetype_source: Seq::empty(),
        action: Action::View,
        xtermcmd: "xterm"@,
        pager: "less"@,
        running_in_x: false,
        debug: false,
        nopager: false,
        norun: false,
    }
}

impl Default for Config {
    fn default() -> (config: Config)
        ensures
            config@ == default_config(),
    {
        Config {
            filename: String::new(),
            mimetype: String::new(),
            mimetype_source: String::new(),
            action: Action::View,
            xtermcmd: "xterm".to_owned(),
            pager: "less".to_owned(),
            running_in_x: false,
            debug: false,
            nopager: false,
            norun: false,
        }
    }
}

/// `config` after one environment variable: `PAGER` and `XTERMCMD` name the
/// pager and the terminal launcher, `DISPLAY` says that X is running, and
/// any other variable changes nothing.
pub open spec fn with_variable(config: ConfigView, key: Seq<char>, value: Seq<char>) -> ConfigView {
    if key == "PAGER"@ {
        ConfigView { pager: value, ..config }
    } else if key == "XTERMCMD"@ {
        ConfigView { xtermcmd: value, ..config }
    } else if key == "DISPLAY"@ {
        ConfigView { running_in_x: true, ..config }
    } else {
        config
    }
}

/// `config` after the environment variables `vars`, taken in order.
pub open spec fn with_variables(config: ConfigView, vars: Seq<(Seq<char>, Seq<char>)>) -> ConfigView
    decreases vars.len(),
{
    if vars.len() == 0 {
        config
    } else {
        with_variables(with_variable(config, vars[0].0, vars[0].1), vars.drop_first())
    }
}

/// Whether an argument is an option: it starts with two dashes.
pub open spec fn is_option(argument: Seq<char>) -> bool {
    argument.len() >= 2 && argument[0] == '-' && argument[1] == '-'
}

/// `config` after one option `--key` or `--key=value`: `--action` sets the
/// action named by the value, `--debug`, `--nopager` and `--norun` set their
/// flags, and any other option changes nothing.
pub open spec fn with_option(config: ConfigView, argument: Seq<char>) -> ConfigView {
    let eq = position(argument, '=');
    let key = argument.subrange(0, eq);
    let value = if eq < argument.len() {
        argument.subrange(eq + 1, argument.len() as int)
    } else {
        Seq::empty()
    };
    if key == "--action"@ {
        ConfigView { action: action_named(value), ..config }
    } else if key == "--debug"@ {
        ConfigView { debug: true, ..config }
    } else if key == "--nopager"@ {
        ConfigView { nopager: true, ..config }
    } else if key == "--norun"@ {
        ConfigView { norun: true, ..config }
    } else {
        config
    }
}

/// `config` after one argument that is no option, where `typed` holds the
/// MIME type and the file name that the argument spells out, if it has the
/// form `type:file`. Such an argument sets both; if the file name is still
/// empty after that, the whole argument is the file name.
pub open spec fn with_file(
    config: ConfigView,
    argument: Seq<char>,
    typed: Option<(Seq<char>, Seq<char>)>,
) -> ConfigView {
    let named = match typed {
        Some(pair) => ConfigView { mimetype: pair.0, filename: pair.1, ..config },
        None => config,
    };
    if named.filename.len() == 0 {
        ConfigView { filename: argument, ..named }
    } else {
        named
    }
}

/// The regular expression for an argument of the form `type:file`.
pub open spec fn typed_pattern() -> Seq<char> {
    "^(?P<mimetype>[^/:]+/[^/:]+):(?P<filename>.*)"@
}

/// The MIME type and the file name that `argument` spells out, if it has the
/// form `type:file`.
pub open spec fn typed_argument(argument: Seq<char>) -> Option<(Seq<char>, Seq<char>)> {
    named_captures(typed_pattern(), argument, "mimetype"@, "filename"@)
}

/// `config` after one argument.
pub open spec fn with_argument(config: ConfigView, argument: Seq<char>) -> ConfigView {
    if is_option(argument) {
        with_option(config, argument)
    } else {
        with_file(config, argument, typed_argument(argument))
    }
}

/// `config` after the arguments `args`, taken in order.
pub open spec fn with_arguments(config: ConfigView, args: Seq<Seq<char>>) -> ConfigView
    decreases args.len(),
{
    if args.len() == 0 {
        config
    } else {
        with_arguments(with_argument(config, args[0]), args.drop_first())
    }
}

/// The configuration that a command line and an environment stand for. The
/// name of the program, without its directories, names the action to start
/// from; then the environment variables are read, then the arguments after
/// the program's name.
pub open spec fn parsed_config(args: Seq<Seq<char>>, vars: Seq<(Seq<char>, Seq<char>)>) -> ConfigView {
    let start = ConfigView { action: action_named(after_last(args[0], '/')), ..default_config() };
    with_arguments(with_variables(start, vars), args.drop_first())
}

/// The text of each string of `strings`.
pub open spec fn texts(strings: Seq<String>) -> Seq<Seq<char>> {
    strings.map_values(|s: String| s@)
}

/// The texts of each pair of `pairs`.
pub open spec fn text_pairs(pairs: Seq<(String, String)>) -> Seq<(Seq<char>, Seq<char>)> {
    pairs.map_values(|p: (String, String)| (p.0@, p.1@))
}

impl Config {
    /// Reads one environment variable into the configuration.
    pub fn apply_variable(&mut self, key: &str, value: &str)
        ensures
            final(self)@ == with_variable(old(self)@, key@, value@),
    {
        let name = chars_of(key);
        if spells(name.as_slice(), "PAGER") {
            self.pager = value.to_owned();
        } else if spells(name.as_slice(), "XTERMCMD") {
            self.xtermcmd = value.to_owned();
        } else if spells(name.as_slice(), "DISPLAY") {
            self.running_in_x = true;
        }
    }

    /// Reads one option, `--key` or `--key=value`, into the configuration.
    pub fn apply_option(&mut self, argument: &str)
        ensures
            final(self)@ == with_option(old(self)@, argument@),
    {
        let chars = chars_of(argument);
        let eq = find(chars.as_slice(), 0, '=');
        proof {
            assert(chars@.subrange(0, chars.len() as int) == chars@);
            lemma_position(chars@, '=');
        }
        let key = copy_range(chars.as_slice(), 0, eq);
        let value = if eq < chars.len() {
            copy_range(chars.as_slice(), eq + 1, chars.len())
        } else {
            Vec::new()
        };
        if spells(key.as_slice(), "--action") {
            self.action = Action::from_chars(value.as_slice());
        } else if spells(key.as_slice(), "--debug") {
            self.debug = true;
        } else if spells(key.as_slice(), "--nopager") {
            self.nopager = true;
        } else if spells(key.as_slice(), "--norun") {
            self.norun = true;
        }
    }

    /// Reads one argument that is no option into the configuration, where
    /// `typed` holds the MIME type and the file name that the argument
    /// spells out, if it has the form `type:file`.
    pub fn apply_file(&mut self, argument: &str, typed: Option<(String, String)>)
        ensures
            final(self)@ == with_file(
                old(self)@,
                argument@,
                match typed {
                    Some(pair) => Some((pair.0@, pair.1@)),
                    None => None,
                },
            ),
    {
        match typed {
            Some(pair) => {
                self.mimetype = pair.0;
                self.filename = pair.1;
            },
            None => {},
        }
        if self.filename.as_str().is_empty() {
            self.filename = argument.to_owned();
        }
    }

    /// Reads one argument into the configuration.
    pub fn apply_argument(&mut self, argument: &str)
        ensures
            final(self)@ == with_argument(old(self)@, argument@),
    {
        let chars = chars_of(argument);
        if chars.len() >= 2 && chars[0] == '-' && chars[1] == '-' {
            self.apply_option(argument);
        } else {
            let typed = capture_pair(
                "^(?P<mimetype>[^/:]+/[^/:]+):(?P<filename>.*)",
                argument,
                "mimetype",
                "filename",
            );
            self.apply_file(argument, typed);
        }
    }

    /// The configuration that the command line `args` and the environment
    /// `envvars` stand for. The first argument is the name of the program.
    /// It is an error if no file name is given.
    pub fn parse(args: Vec<String>, envvars: Vec<(String, String)>) -> (parsed: Result<
        Config,
        &'static str,
    >)
        requires
            args.len() > 0,
        ensures
            match parsed {
                Ok(config) => config@ == parsed_config(texts(args@), text_pairs(envvars@))
                    && config@.filename.len() > 0,
                Err(message) => parsed_config(texts(args@), text_pairs(envvars@)).filename.len()
                    == 0 && message@ == "No filename was given in arguments"@,
            },
    {
        let ghost words = texts(args@);
        let ghost vars = text_pairs(envvars@);
        let program = chars_of(args[0].as_str());
        let programname = last_part(program.as_slice(), '/');
        let mut config = Config::default();
        config.action = Action::from_chars(programname.as_slice());
        let ghost start = config@;

        let mut i: usize = 0;
        proof {
            assert(vars.subrange(0, vars.len() as int) == vars);
        }
        while i < envvars.len()
            invariant
                i <= envvars.len(),
                vars == text_pairs(envvars@),
                with_variables(config@, vars.subrange(i as int, vars.len() as int))
                    == with_variables(start, vars),
            decreases envvars.len() - i,
        {
            let ghost rest = vars.subrange(i as int, vars.len() as int);
            assert(rest.drop_first() == vars.subrange(i + 1, vars.len() as int));
            config.apply_variable(envvars[i].0.as_str(), envvars[i].1.as_str());
            i += 1;
        }
        let ghost middle = config@;

        let mut j: usize = 1;
        while j < args.len()
            invariant
                1 <= j <= args.len(),
                words == texts(args@),
                with_arguments(config@, words.subrange(j as int, words.len() as int))
                    == with_arguments(middle, words.drop_first()),
            decreases args.len() - j,
        {
            let ghost rest = words.subrange(j as int, words.len() as int);
            assert(rest.drop_first() == words.subrange(j + 1, words.len() as int));
            config.apply_argument(args[j].as_str());
            j += 1;
        }

        if config.filename.as_str().is_empty() {
            Err("No filename was given in arguments")
        } else {
            Ok(config)
        }
    }
}

} // verus!
