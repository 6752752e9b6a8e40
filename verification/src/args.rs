//! The command line: what each argument means, and what a complete command
//! line asks for. Splitting arguments into options and values is the work of
//! the `lexopt` crate.
use vstd::prelude::*;
use lexopt::ValueExt;

use crate::chart::XAxis;
use crate::double::{is_below, is_finite, is_nan, ONE, ZERO};
use crate::mlflow::option_text;
use crate::table::Format;
use crate::text::{push_text, same_text};

verus! {

/// The command-line parser of the `lexopt` crate.
#[verifier::external_type_specification]
#[verifier::external_body]
pub struct ExParser(lexopt::Parser);

/// One argument of the command line.
pub enum Argument {
    /// A short option, without its dash.
    Short(char),
    /// A long option, without its dashes.
    Long(String),
    /// A free-standing value.
    Value(String),
}

/// What an argument holds.
pub enum ArgumentModel {
    Short(char),
    Long(Seq<char>),
    Value(Seq<char>),
}

impl View for Argument {
    type V = ArgumentModel;

    open spec fn view(&self) -> ArgumentModel {
        match *self {
            Argument::Short(c) => ArgumentModel::Short(c),
            Argument::Long(name) => ArgumentModel::Long(name@),
            Argument::Value(text) => ArgumentModel::Value(text@),
        }
    }
}

/// What a parser holds, written as texts: the option that was handed out last,
/// which a missing value is told of by, behind the `--` that ends the options
/// too; whether that `--` has come, by a mark that spells no option (a short
/// option `-` is itself spelled `--`); what is left of the argument in hand,
/// with the `=` before a value; and the arguments behind it.
pub uninterp spec fn pending(parser: lexopt::Parser) -> Seq<Seq<char>>;

/// What a parser hands out next, and what it then holds.
pub uninterp spec fn next_step(state: Seq<Seq<char>>) -> (
    Result<Option<ArgumentModel>, Seq<char>>,
    Seq<Seq<char>>,
);

/// What a parser hands out as the value of the last option, and what it then
/// holds.
pub uninterp spec fn value_step(state: Seq<Seq<char>>) -> (
    Result<Seq<char>, Seq<char>>,
    Seq<Seq<char>>,
);

/// The sentence that refuses a text as a count.
pub uninterp spec fn count_refusal(text: Seq<char>) -> Seq<char>;

/// The lengths of a list of texts, with one more for each.
pub open spec fn total_len(list: Seq<Seq<char>>) -> nat
    decreases list.len(),
{
    if list.len() == 0 {
        0
    } else {
        total_len(list.drop_last()) + list.last().len() + 1
    }
}

/// How much a parser has still to hand out.
pub open spec fn weight(state: Seq<Seq<char>>) -> nat {
    total_len(state.skip(1))
}

/// What a parser holds before anything is handed out.
pub open spec fn fresh(args: Seq<Seq<char>>) -> Seq<Seq<char>> {
    seq![Seq::empty(), Seq::empty()] + args
}

/// A result with its texts taken as what they hold.
pub open spec fn step_model(result: Result<Option<Argument>, String>) -> Result<
    Option<ArgumentModel>,
    Seq<char>,
> {
    match result {
        Ok(Some(argument)) => Ok(Some(argument@)),
        Ok(None) => Ok(None),
        Err(sentence) => Err(sentence@),
    }
}

/// A text or a sentence, taken as what it holds.
pub open spec fn text_model(result: Result<String, String>) -> Result<Seq<char>, Seq<char>> {
    match result {
        Ok(text) => Ok(text@),
        Err(sentence) => Err(sentence@),
    }
}

/// `lexopt::Parser::from_args`: a parser over the arguments behind the
/// program's name, with all of them still to hand out.
#[verifier::external_body]
fn parser_over(args: Vec<String>) -> (parser: lexopt::Parser)
    ensures
        pending(parser) == fresh(crate::text::texts(args@)),
{
    lexopt::Parser::from_args(args)
}

/// `lexopt::Parser::next`: the next argument, with a value decoded as text
/// and an error as its sentence. Both follow from what the parser holds, and
/// an argument handed out leaves less to hand out.
#[verifier::external_body]
fn next_argument(parser: &mut lexopt::Parser) -> (argument: Result<Option<Argument>, String>)
    ensures
        step_model(argument) == next_step(pending(*old(parser))).0,
        pending(*final(parser)) == next_step(pending(*old(parser))).1,
        argument is Ok && argument->Ok_0 is Some ==> weight(pending(*final(parser))) < weight(
            pending(*old(parser)),
        ),
{
    match parser.next() {
        Ok(Some(lexopt::Arg::Short(c))) => Ok(Some(Argument::Short(c))),
        Ok(Some(lexopt::Arg::Long(name))) => Ok(Some(Argument::Long(name.to_string()))),
        Ok(Some(lexopt::Arg::Value(value))) => match value.string() {
            Ok(text) => Ok(Some(Argument::Value(text))),
            Err(error) => Err(error.to_string()),
        },
        Ok(None) => Ok(None),
        Err(error) => Err(error.to_string()),
    }
}

/// `lexopt::Parser::value`: the value of the last option, decoded as text,
/// and an error as its sentence. Both follow from what the parser holds, and
/// there is never more to hand out afterwards.
#[verifier::external_body]
fn option_value(parser: &mut lexopt::Parser) -> (value: Result<String, String>)
    ensures
        text_model(value) == value_step(pending(*old(parser))).0,
        pending(*final(parser)) == value_step(pending(*old(parser))).1,
        value is Ok ==> weight(pending(*final(parser))) <= weight(pending(*old(parser))),
{
    match parser.value() {
        Ok(value) => match value.string() {
            Ok(text) => Ok(text),
            Err(error) => Err(error.to_string()),
        },
        Err(error) => Err(error.to_string()),
    }
}

/// The number that an optional plus sign and digits spell.
pub open spec fn count_of(text: Seq<char>) -> Option<int> {
    let digits = if text.len() > 0 && text[0] == '+' {
        text.skip(1)
    } else {
        text
    };
    if digits.len() > 0 && crate::text::all_digits(digits) {
        Some(crate::text::decimal(digits))
    } else {
        None
    }
}

/// `lexopt::ValueExt::parse` at `usize`: the number that an optional plus
/// sign and digits spell, where it fits; otherwise the sentence that follows
/// from the text.
#[verifier::external_body]
fn parse_count(text: &str) -> (count: Result<usize, String>)
    ensures
        match count {
            Ok(n) => count_of(text@) == Some(n as int),
            Err(sentence) => {
                &&& count_of(text@) is None || count_of(text@)->0 > usize::MAX
                &&& sentence@ == count_refusal(text@)
            },
        },
{
    match std::path::PathBuf::from(text).into_os_string().parse::<usize>() {
        Ok(count) => Ok(count),
        Err(error) => Err(error.to_string()),
    }
}

/// `out` is what a text may read as.
pub open spec fn answers<R: Fn(&str) -> Result<u64, String>>(
    read: R,
    text: Seq<char>,
    out: Result<u64, Seq<char>>,
) -> bool {
    exists|t: &str, answer: Result<u64, String>|
        t@ == text && #[trigger] call_ensures(read, (t,), answer) && out == number_model(answer)
}

/// A double or a sentence, taken as what it holds.
pub open spec fn number_model(result: Result<u64, String>) -> Result<u64, Seq<char>> {
    match result {
        Ok(bits) => Ok(bits),
        Err(sentence) => Err(sentence@),
    }
}

/// How the value of an option is read as a double.
pub struct Reader<R> {
    /// The double, or the sentence that refuses the text.
    pub read: R,
}

/// The bits of five, the seconds between two polls.
pub const FIVE: u64 = 0x4014_0000_0000_0000;

/// What the program is asked to do.
pub enum Command {
    /// Open the terminal interface.
    Tui,
    /// Draw a chart once.
    Show,
    /// Draw a chart again and again.
    Tail,
    /// Print the runs table.
    Ls,
    /// Print one run.
    Summary {
        /// The run's name.
        run: String,
    },
    /// Print the flat table of parameters and metrics.
    Export,
}

/// What a command holds.
pub enum CommandModel {
    Tui,
    Show,
    Tail,
    Ls,
    Summary { run: Seq<char> },
    Export,
}

impl View for Command {
    type V = CommandModel;

    open spec fn view(&self) -> CommandModel {
        match *self {
            Command::Tui => CommandModel::Tui,
            Command::Show => CommandModel::Show,
            Command::Tail => CommandModel::Tail,
            Command::Ls => CommandModel::Ls,
            Command::Summary { run } => CommandModel::Summary { run: run@ },
            Command::Export => CommandModel::Export,
        }
    }
}

/// The settings that options change.
pub struct Settings {
    /// The tag filter, where given.
    pub tag: Option<String>,
    /// The runs filter, where given.
    pub runs_filter: Option<String>,
    /// How tables are printed.
    pub format: Format,
    /// The smoothing factor, where given.
    pub smooth: Option<u64>,
    /// The x axis.
    pub x_axis: XAxis,
    /// The seconds between two polls.
    pub interval: u64,
    /// The frame width, where given.
    pub width: Option<usize>,
    /// The frame height, where given.
    pub height: Option<usize>,
    /// Whether the summary cache is left alone.
    pub no_cache: bool,
    /// Whether charts are always drawn with cell glyphs.
    pub no_pixels: bool,
}

/// What settings hold.
#[verifier::ext_equal]
pub struct SettingsModel {
    pub tag: Option<Seq<char>>,
    pub runs_filter: Option<Seq<char>>,
    pub format: Format,
    pub smooth: Option<u64>,
    pub x_axis: XAxis,
    pub interval: u64,
    pub width: Option<usize>,
    pub height: Option<usize>,
    pub no_cache: bool,
    pub no_pixels: bool,
}

impl View for Settings {
    type V = SettingsModel;

    open spec fn view(&self) -> SettingsModel {
        SettingsModel {
            tag: option_text(self.tag),
            runs_filter: option_text(self.runs_filter),
            format: self.format,
            smooth: self.smooth,
            x_axis: self.x_axis,
            interval: self.interval,
            width: self.width,
            height: self.height,
            no_cache: self.no_cache,
            no_pixels: self.no_pixels,
        }
    }
}

impl SettingsModel {
    /// The settings before any option.
    pub open spec fn start() -> SettingsModel {
        SettingsModel {
            tag: None,
            runs_filter: None,
            format: Format::Text,
            smooth: None,
            x_axis: XAxis::Step,
            interval: FIVE,
            width: None,
            height: None,
            no_cache: false,
            no_pixels: false,
        }
    }
}

/// A complete command line.
pub struct Args {
    /// What to do.
    pub command: Command,
    /// Where the logs are.
    pub logdir: String,
    /// The tag filter; empty where none was given.
    pub tag: String,
    /// Everything else.
    pub settings: Settings,
}

/// What a complete command line holds.
pub struct ArgsModel {
    pub command: CommandModel,
    pub logdir: Seq<char>,
    pub tag: Seq<char>,
    pub settings: SettingsModel,
}

impl View for Args {
    type V = ArgsModel;

    open spec fn view(&self) -> ArgsModel {
        ArgsModel {
            command: self.command@,
            logdir: self.logdir@,
            tag: self.tag@,
            settings: self.settings@,
        }
    }
}

/// What an option is for.
#[derive(Clone, Copy, PartialEq, Eq, Structural, Debug)]
pub enum Choice {
    Tag,
    Runs,
    Csv,
    Json,
    Smooth,
    Axis,
    Interval,
    Width,
    Height,
    NoCache,
    Pixels,
    Help,
}

/// What an argument is an option for.
pub open spec fn choice_of(argument: ArgumentModel) -> Option<Choice> {
    match argument {
        ArgumentModel::Short(c) => if c == 't' {
            Some(Choice::Tag)
        } else if c == 'x' {
            Some(Choice::Axis)
        } else if c == 'h' {
            Some(Choice::Help)
        } else {
            None
        },
        ArgumentModel::Long(name) => if name == "tag"@ {
            Some(Choice::Tag)
        } else if name == "runs"@ {
            Some(Choice::Runs)
        } else if name == "csv"@ {
            Some(Choice::Csv)
        } else if name == "json"@ {
            Some(Choice::Json)
        } else if name == "smooth"@ {
            Some(Choice::Smooth)
        } else if name == "x"@ {
            Some(Choice::Axis)
        } else if name == "interval"@ {
            Some(Choice::Interval)
        } else if name == "width"@ {
            Some(Choice::Width)
        } else if name == "height"@ {
            Some(Choice::Height)
        } else if name == "no-cache"@ {
            Some(Choice::NoCache)
        } else if name == "pixels"@ {
            Some(Choice::Pixels)
        } else if name == "help"@ {
            Some(Choice::Help)
        } else {
            None
        },
        ArgumentModel::Value(_) => None,
    }
}

/// Whether an option is followed by a value.
pub open spec fn takes_value(choice: Choice) -> bool {
    match choice {
        Choice::Csv | Choice::Json | Choice::NoCache | Choice::Help => false,
        _ => true,
    }
}

/// The option as it is spelled on the command line.
pub open spec fn spelled(argument: ArgumentModel) -> Seq<char> {
    match argument {
        ArgumentModel::Short(c) => seq!['-', c],
        ArgumentModel::Long(name) => "--"@ + name,
        ArgumentModel::Value(text) => text,
    }
}

/// The sentence for an option that means nothing.
pub open spec fn invalid_option(argument: ArgumentModel) -> Seq<char> {
    "invalid option '"@ + spelled(argument) + "'"@
}

/// Finds what an option is for.
pub fn choose_option(argument: &Argument) -> (choice: Option<Choice>)
    ensures
        choice == choice_of(argument@),
{
    match argument {
        Argument::Short(c) => if *c == 't' {
            Some(Choice::Tag)
        } else if *c == 'x' {
            Some(Choice::Axis)
        } else if *c == 'h' {
            Some(Choice::Help)
        } else {
            None
        },
        Argument::Long(name) => if same_text(name, "tag") {
            Some(Choice::Tag)
        } else if same_text(name, "runs") {
            Some(Choice::Runs)
        } else if same_text(name, "csv") {
            Some(Choice::Csv)
        } else if same_text(name, "json") {
            Some(Choice::Json)
        } else if same_text(name, "smooth") {
            Some(Choice::Smooth)
        } else if same_text(name, "x") {
            Some(Choice::Axis)
        } else if same_text(name, "interval") {
            Some(Choice::Interval)
        } else if same_text(name, "width") {
            Some(Choice::Width)
        } else if same_text(name, "height") {
            Some(Choice::Height)
        } else if same_text(name, "no-cache") {
            Some(Choice::NoCache)
        } else if same_text(name, "pixels") {
            Some(Choice::Pixels)
        } else if same_text(name, "help") {
            Some(Choice::Help)
        } else {
            None
        },
        Argument::Value(_) => None,
    }
}

/// Writes the sentence for an option that means nothing.
pub fn refuse_option(argument: &Argument) -> (sentence: String)
    ensures
        sentence@ == invalid_option(argument@),
{
    let mut sentence = "invalid option '".to_owned();
    let ghost front = sentence@;
    match argument {
        Argument::Short(c) => {
            sentence.push('-');
            sentence.push(*c);
        },
        Argument::Long(name) => {
            push_text(&mut sentence, "--");
            push_text(&mut sentence, name);
        },
        Argument::Value(text) => {
            push_text(&mut sentence, text);
        },
    }
    assert(sentence@ =~= front + spelled(argument@));
    push_text(&mut sentence, "'");
    sentence
}

impl SettingsModel {
    /// The settings behind an option without a value.
    pub open spec fn flagged(self, choice: Choice) -> SettingsModel {
        match choice {
            Choice::Csv => SettingsModel { format: Format::Csv, ..self },
            Choice::Json => SettingsModel { format: Format::Json, ..self },
            Choice::NoCache => SettingsModel { no_cache: true, ..self },
            _ => self,
        }
    }
}

/// The axis of a name.
pub open spec fn axis_named(name: Seq<char>) -> Option<XAxis> {
    if name == "step"@ {
        Some(XAxis::Step)
    } else if name == "wall"@ {
        Some(XAxis::Wall)
    } else if name == "relative"@ {
        Some(XAxis::Relative)
    } else if name == "tokens"@ {
        Some(XAxis::Tokens)
    } else {
        None
    }
}

/// A double in `[0, 1)`.
pub open spec fn smoothing(bits: u64) -> bool {
    !crate::double::nan(bits) && !crate::double::below(bits, ZERO) && crate::double::below(bits, ONE)
}

/// A finite double above zero.
pub open spec fn positive(bits: u64) -> bool {
    crate::double::finite(bits) && crate::double::below(ZERO, bits)
}

impl<R: Fn(&str) -> Result<u64, String>> Reader<R> {
    /// The function takes every text, and gives one answer for it.
    pub open spec fn ok(self) -> bool {
        &&& forall|text: &str| #[trigger] call_requires(self.read, (text,))
        &&& forall|text: Seq<char>, a: Result<u64, Seq<char>>, b: Result<u64, Seq<char>>| #[trigger]
            answers(self.read, text, a) && #[trigger] answers(self.read, text, b) ==> a == b
    }

    /// How a text reads as a double.
    pub open spec fn reading(self, text: Seq<char>) -> Result<u64, Seq<char>> {
        choose|out: Result<u64, Seq<char>>| #[trigger] answers(self.read, text, out)
    }

    /// The settings behind an option with a value, or the sentence that
    /// refuses the value.
    pub open spec fn valued(self, settings: SettingsModel, choice: Choice, text: Seq<char>) -> Result<
        SettingsModel,
        Seq<char>,
    > {
        match choice {
            Choice::Tag => Ok(SettingsModel { tag: Some(text), ..settings }),
            Choice::Runs => Ok(SettingsModel { runs_filter: Some(text), ..settings }),
            Choice::Smooth => match self.reading(text) {
                Err(sentence) => Err(sentence),
                Ok(bits) => if smoothing(bits) {
                    Ok(SettingsModel { smooth: Some(bits), ..settings })
                } else {
                    Err("--smooth must be in [0, 1)"@)
                },
            },
            Choice::Axis => match axis_named(text) {
                Some(axis) => Ok(SettingsModel { x_axis: axis, ..settings }),
                None => Err(
                    "unknown x axis `"@ + text + "` (step|wall|relative|tokens)"@,
                ),
            },
            Choice::Interval => match self.reading(text) {
                Err(sentence) => Err(sentence),
                Ok(bits) => if positive(bits) {
                    Ok(SettingsModel { interval: bits, ..settings })
                } else {
                    Err("--interval must be positive"@)
                },
            },
            Choice::Width => match counted_value(text) {
                Err(sentence) => Err(sentence),
                Ok(n) => Ok(SettingsModel { width: Some(n), ..settings }),
            },
            Choice::Height => match counted_value(text) {
                Err(sentence) => Err(sentence),
                Ok(n) => Ok(SettingsModel { height: Some(n), ..settings }),
            },
            Choice::Pixels => if text == "auto"@ {
                Ok(SettingsModel { no_pixels: false, ..settings })
            } else if text == "never"@ {
                Ok(SettingsModel { no_pixels: true, ..settings })
            } else {
                Err("unknown pixels mode `"@ + text + "` (auto|never)"@)
            },
            _ => Ok(settings),
        }
    }
}

/// The count that a text spells, or the sentence that refuses it.
pub open spec fn counted_value(text: Seq<char>) -> Result<usize, Seq<char>> {
    if count_of(text) is Some && count_of(text)->0 <= usize::MAX {
        Ok(count_of(text)->0 as usize)
    } else {
        Err(count_refusal(text))
    }
}

impl Settings {
    /// The settings before any option.
    pub fn new() -> (settings: Settings)
        ensures
            settings@ == SettingsModel::start(),
    {
        Settings {
            tag: None,
            runs_filter: None,
            format: Format::Text,
            smooth: None,
            x_axis: XAxis::Step,
            interval: FIVE,
            width: None,
            height: None,
            no_cache: false,
            no_pixels: false,
        }
    }

    /// Sets what an option without a value asks for.
    pub fn flag(&mut self, choice: Choice)
        ensures
            final(self)@ == old(self)@.flagged(choice),
    {
        match choice {
            Choice::Csv => {
                self.format = Format::Csv;
            },
            Choice::Json => {
                self.format = Format::Json;
            },
            Choice::NoCache => {
                self.no_cache = true;
            },
            _ => {},
        }
    }
}

fn quoted_between(front: &str, text: &str, back: &str) -> (sentence: String)
    ensures
        sentence@ == front@ + text@ + back@,
{
    let mut sentence = front.to_owned();
    push_text(&mut sentence, text);
    push_text(&mut sentence, back);
    sentence
}

impl<R: Fn(&str) -> Result<u64, String>> Reader<R> {
    fn number(&self, text: &str) -> (out: Result<u64, String>)
        requires
            self.ok(),
        ensures
            number_model(out) == self.reading(text@),
    {
        let out = (self.read)(text);
        assert(answers(self.read, text@, number_model(out)));
        assert(answers(self.read, text@, self.reading(text@)));
        out
    }

    /// Takes the value of an option in.
    pub fn set(&self, settings: &mut Settings, choice: Choice, text: String) -> (done: Result<
        (),
        String,
    >)
        requires
            self.ok(),
        ensures
            match done {
                Ok(()) => self.valued(old(settings)@, choice, text@) == Ok::<
                    SettingsModel,
                    Seq<char>,
                >(final(settings)@),
                Err(sentence) => self.valued(old(settings)@, choice, text@) == Err::<
                    SettingsModel,
                    Seq<char>,
                >(sentence@),
            },
    {
        match choice {
            Choice::Tag => {
                settings.tag = Some(text);
            },
            Choice::Runs => {
                settings.runs_filter = Some(text);
            },
            Choice::Smooth => match self.number(&text) {
                Err(sentence) => {
                    return Err(sentence);
                },
                Ok(bits) => {
                    if is_nan(bits) || is_below(bits, ZERO) || !is_below(bits, ONE) {
                        return Err("--smooth must be in [0, 1)".to_owned());
                    }
                    settings.smooth = Some(bits);
                },
            },
            Choice::Axis => {
                if same_text(&text, "step") {
                    settings.x_axis = XAxis::Step;
                } else if same_text(&text, "wall") {
                    settings.x_axis = XAxis::Wall;
                } else if same_text(&text, "relative") {
                    settings.x_axis = XAxis::Relative;
                } else if same_text(&text, "tokens") {
                    settings.x_axis = XAxis::Tokens;
                } else {
                    return Err(
                        quoted_between(
                            "unknown x axis `",
                            &text,
                            "` (step|wall|relative|tokens)",
                        ),
                    );
                }
            },
            Choice::Interval => match self.number(&text) {
                Err(sentence) => {
                    return Err(sentence);
                },
                Ok(bits) => {
                    if !is_finite(bits) || !is_below(ZERO, bits) {
                        return Err("--interval must be positive".to_owned());
                    }
                    settings.interval = bits;
                },
            },
            Choice::Width => match parse_count(&text) {
                Err(sentence) => {
                    return Err(sentence);
                },
                Ok(n) => {
                    settings.width = Some(n);
                },
            },
            Choice::Height => match parse_count(&text) {
                Err(sentence) => {
                    return Err(sentence);
                },
                Ok(n) => {
                    settings.height = Some(n);
                },
            },
            Choice::Pixels => {
                if same_text(&text, "auto") {
                    settings.no_pixels = false;
                } else if same_text(&text, "never") {
                    settings.no_pixels = true;
                } else {
                    return Err(
                        quoted_between("unknown pixels mode `", &text, "` (auto|never)"),
                    );
                }
            },
            _ => {},
        }
        Ok(())
    }
}

/// What has been read of a command line: the first free-standing value, the
/// others, and the settings.
pub struct Draft {
    /// The command's name, or a logdir.
    pub command_name: Option<String>,
    /// The values behind it.
    pub positionals: Vec<String>,
    /// What the options set.
    pub settings: Settings,
}

/// What a draft holds.
#[verifier::ext_equal]
pub struct DraftModel {
    pub command_name: Option<Seq<char>>,
    pub positionals: Seq<Seq<char>>,
    pub settings: SettingsModel,
}

impl View for Draft {
    type V = DraftModel;

    open spec fn view(&self) -> DraftModel {
        DraftModel {
            command_name: option_text(self.command_name),
            positionals: crate::text::texts(self.positionals@),
            settings: self.settings@,
        }
    }
}

/// The names of the commands; any other first value is a logdir.
pub open spec fn is_command(name: Seq<char>) -> bool {
    name == "show"@ || name == "tail"@ || name == "ls"@ || name == "summary"@ || name == "export"@
}

/// What the program is asked to do by a name, and by the run behind it where
/// it takes one.
pub open spec fn command_named(name: Seq<char>, run: Seq<char>) -> CommandModel {
    if name == "show"@ {
        CommandModel::Show
    } else if name == "tail"@ {
        CommandModel::Tail
    } else if name == "ls"@ {
        CommandModel::Ls
    } else if name == "summary"@ {
        CommandModel::Summary { run }
    } else if name == "export"@ {
        CommandModel::Export
    } else {
        CommandModel::Tui
    }
}

impl DraftModel {
    /// The draft before any argument.
    pub open spec fn start() -> DraftModel {
        DraftModel {
            command_name: None,
            positionals: Seq::empty(),
            settings: SettingsModel::start(),
        }
    }

    /// The draft behind a free-standing value.
    pub open spec fn with_value(self, text: Seq<char>) -> DraftModel {
        match self.command_name {
            None => DraftModel { command_name: Some(text), ..self },
            Some(_) => DraftModel { positionals: self.positionals.push(text), ..self },
        }
    }

    /// How many of the values behind the first a command takes.
    pub open spec fn wanted(self) -> int {
        if self.command_name == Some("summary"@) {
            2
        } else if self.command_name is Some && is_command(self.command_name->0) {
            1
        } else {
            0
        }
    }

    /// What a complete draft asks for: nothing where no value was given (the
    /// help is due), or the sentence that refuses it.
    pub open spec fn finished(self) -> Result<Option<ArgsModel>, Seq<char>> {
        match self.command_name {
            None => Ok(None),
            Some(name) => {
                let command = command_named(name, self.positionals[1]);
                if self.wanted() >= 1 && self.positionals.len() == 0 {
                    Err("missing <logdir>"@)
                } else if self.wanted() == 2 && self.positionals.len() == 1 {
                    Err("missing <run> (see `vertov ls`)"@)
                } else if self.positionals.len() > self.wanted() {
                    Err("unexpected argument `"@ + self.positionals[self.wanted()] + "`"@)
                } else if (command is Show || command is Tail) && self.settings.tag is None {
                    Err("missing -t <tag> (vertov never renders all tags unasked)"@)
                } else {
                    Ok(
                        Some(
                            ArgsModel {
                                command,
                                logdir: if is_command(name) {
                                    self.positionals[0]
                                } else {
                                    name
                                },
                                tag: match self.settings.tag {
                                    Some(tag) => tag,
                                    None => Seq::empty(),
                                },
                                settings: self.settings,
                            },
                        ),
                    )
                }
            },
        }
    }
}

/// A result of the whole command line, taken as what it holds.
pub open spec fn args_model(result: Result<Option<Args>, String>) -> Result<
    Option<ArgsModel>,
    Seq<char>,
> {
    match result {
        Ok(Some(args)) => Ok(Some(args@)),
        Ok(None) => Ok(None),
        Err(sentence) => Err(sentence@),
    }
}

impl Draft {
    /// The draft before any argument.
    pub fn new() -> (draft: Draft)
        ensures
            draft@ == DraftModel::start(),
    {
        let draft = Draft {
            command_name: None,
            positionals: Vec::new(),
            settings: Settings::new(),
        };
        assert(draft@ =~= DraftModel::start());
        draft
    }

    /// Takes a free-standing value in: the first is the command, or the logdir.
    pub fn take(&mut self, text: String)
        ensures
            final(self)@ == old(self)@.with_value(text@),
    {
        if self.command_name.is_none() {
            self.command_name = Some(text);
        } else {
            let ghost before = self.positionals@;
            self.positionals.push(text);
            assert(crate::text::texts(self.positionals@) =~= crate::text::texts(before).push(text@));
        }
    }

    /// Completes a draft: says what it asks for, or what is wrong with it.
    pub fn finish(self) -> (result: Result<Option<Args>, String>)
        ensures
            args_model(result) == self@.finished(),
    {
        let name = match self.command_name {
            None => {
                return Ok(None);
            },
            Some(name) => name,
        };
        let ghost model = self@;
        let known = same_text(&name, "show") || same_text(&name, "tail") || same_text(&name, "ls")
            || same_text(&name, "summary") || same_text(&name, "export");
        let summary = same_text(&name, "summary");
        let wanted: usize = if summary {
            2
        } else if known {
            1
        } else {
            0
        };
        assert(wanted == model.wanted());
        let given: usize = self.positionals.len();
        assert(model.positionals.len() == given);
        if known && given == 0 {
            return Err("missing <logdir>".to_owned());
        }
        if summary && given == 1 {
            return Err("missing <run> (see `vertov ls`)".to_owned());
        }
        if given > wanted {
            assert(model.positionals[wanted as int] == self.positionals@[wanted as int]@);
            return Err(quoted_between("unexpected argument `", &self.positionals[wanted], "`"));
        }
        let command = if same_text(&name, "show") {
            Command::Show
        } else if same_text(&name, "tail") {
            Command::Tail
        } else if same_text(&name, "ls") {
            Command::Ls
        } else if summary {
            assert(model.positionals[1] == self.positionals@[1]@);
            Command::Summary { run: self.positionals[1].clone() }
        } else if same_text(&name, "export") {
            Command::Export
        } else {
            Command::Tui
        };
        let charted = same_text(&name, "show") || same_text(&name, "tail");
        assert(command@ == command_named(name@, model.positionals[1]));
        assert(charted == (command@ is Show || command@ is Tail)) by {
            reveal_strlit("show");
            reveal_strlit("tail");
            reveal_strlit("ls");
            reveal_strlit("summary");
            reveal_strlit("export");
        }
        let tag = match &self.settings.tag {
            Some(tag) => tag.clone(),
            None => {
                if charted {
                    return Err(
                        "missing -t <tag> (vertov never renders all tags unasked)".to_owned(),
                    );
                }
                String::new()
            },
        };
        let logdir = if known {
            assert(model.positionals[0] == self.positionals@[0]@);
            self.positionals[0].clone()
        } else {
            name
        };
        Ok(Some(Args { command, logdir, tag, settings: self.settings }))
    }
}

impl<R: Fn(&str) -> Result<u64, String>> Reader<R> {
    /// What the rest of a command line asks for, behind a draft. Every
    /// argument that is handed out leaves less to hand out.
    pub open spec fn parsed(
        self,
        draft: DraftModel,
        state: Seq<Seq<char>>,
    ) -> Result<Option<ArgsModel>, Seq<char>>
        decreases weight(state),
    {
        let (step, after) = next_step(state);
        match step {
            Err(sentence) => Err(sentence),
            Ok(None) => draft.finished(),
            Ok(Some(argument)) => if weight(after) >= weight(state) {
                Err(Seq::empty())
            } else if argument is Value {
                self.parsed(draft.with_value(argument->Value_0), after)
            } else {
                match choice_of(argument) {
                    None => Err(invalid_option(argument)),
                    Some(Choice::Help) => Ok(None),
                    Some(choice) => if !takes_value(choice) {
                        self.parsed(
                            DraftModel { settings: draft.settings.flagged(choice), ..draft },
                            after,
                        )
                    } else {
                        let (value, rest) = value_step(after);
                        match value {
                            Err(sentence) => Err(sentence),
                            Ok(text) => match self.valued(draft.settings, choice, text) {
                                Err(sentence) => Err(sentence),
                                Ok(settings) => if weight(rest) > weight(after) {
                                    Err(Seq::empty())
                                } else {
                                    self.parsed(DraftModel { settings, ..draft }, rest)
                                },
                            },
                        }
                    },
                }
            },
        }
    }

    /// Reads a whole command line. `None` asks for the help.
    pub fn parse_from(&self, parser: lexopt::Parser) -> (result: Result<Option<Args>, String>)
        requires
            self.ok(),
        ensures
            args_model(result) == self.parsed(DraftModel::start(), pending(parser)),
    {
        let ghost goal = self.parsed(DraftModel::start(), pending(parser));
        let mut left = parser;
        let mut draft = Draft::new();
        loop
            invariant
                self.ok(),
                goal == self.parsed(DraftModel::start(), pending(parser)),
                self.parsed(draft@, pending(left)) == goal,
            decreases weight(pending(left)),
        {
            let argument = match next_argument(&mut left) {
                Err(sentence) => {
                    return Err(sentence);
                },
                Ok(None) => {
                    return draft.finish();
                },
                Ok(Some(argument)) => argument,
            };
            let choice = choose_option(&argument);
            if let Argument::Value(text) = argument {
                draft.take(text);
                continue ;
            }
            match choice {
                None => {
                    return Err(refuse_option(&argument));
                },
                Some(Choice::Help) => {
                    return Ok(None);
                },
                Some(Choice::Csv) | Some(Choice::Json) | Some(Choice::NoCache) => {
                    draft.settings.flag(choice.unwrap());
                },
                Some(choice) => {
                    match option_value(&mut left) {
                        Err(sentence) => {
                            return Err(sentence);
                        },
                        Ok(text) => {
                            if let Err(sentence) = self.set(&mut draft.settings, choice, text) {
                                return Err(sentence);
                            }
                        },
                    }
                },
            }
        }
    }

    /// Reads the arguments behind the program's name. `None` asks for the
    /// help.
    pub fn parse_args(&self, args: Vec<String>) -> (result: Result<Option<Args>, String>)
        requires
            self.ok(),
        ensures
            args_model(result) == self.parsed(
                DraftModel::start(),
                fresh(crate::text::texts(args@)),
            ),
    {
        self.parse_from(parser_over(args))
    }
}

} // verus!
