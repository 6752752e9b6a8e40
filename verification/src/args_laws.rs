//! What the command line means: each option is spelled as it is and sets what
//! it names, each command takes its values, and the rest is refused.
use vstd::arithmetic::power2::{lemma2_to64, lemma2_to64_rest};
use vstd::prelude::*;

use crate::args::{
    axis_named, choice_of, command_named, counted_value, is_command, positive, smoothing, next_step,
    spelled, takes_value, value_step, weight, ArgsModel, ArgumentModel, Choice, CommandModel,
    DraftModel, Reader, SettingsModel, FIVE,
};
use crate::chart::XAxis;
use crate::double::{finite, ONE, ZERO};
use crate::exact::{
    law_order_is_the_order_of_numbers, lemma_measures_bits, lemma_measures_zero, measures,
    signed_units,
};
use crate::table::Format;
use crate::text::{decimal_text, law_decimal_round_trip};

verus! {

/// The options and how they are spelled; a few have a short form.
pub proof fn law_options_are_spelled()
    ensures
        choice_of(ArgumentModel::Long("tag"@)) == Some(Choice::Tag),
        choice_of(ArgumentModel::Long("runs"@)) == Some(Choice::Runs),
        choice_of(ArgumentModel::Long("csv"@)) == Some(Choice::Csv),
        choice_of(ArgumentModel::Long("json"@)) == Some(Choice::Json),
        choice_of(ArgumentModel::Long("smooth"@)) == Some(Choice::Smooth),
        choice_of(ArgumentModel::Long("x"@)) == Some(Choice::Axis),
        choice_of(ArgumentModel::Long("interval"@)) == Some(Choice::Interval),
        choice_of(ArgumentModel::Long("width"@)) == Some(Choice::Width),
        choice_of(ArgumentModel::Long("height"@)) == Some(Choice::Height),
        choice_of(ArgumentModel::Long("no-cache"@)) == Some(Choice::NoCache),
        choice_of(ArgumentModel::Long("pixels"@)) == Some(Choice::Pixels),
        choice_of(ArgumentModel::Long("help"@)) == Some(Choice::Help),
        choice_of(ArgumentModel::Short('t')) == Some(Choice::Tag),
        choice_of(ArgumentModel::Short('x')) == Some(Choice::Axis),
        choice_of(ArgumentModel::Short('h')) == Some(Choice::Help),
{
    reveal_strlit("tag");
    reveal_strlit("runs");
    reveal_strlit("csv");
    reveal_strlit("json");
    reveal_strlit("smooth");
    reveal_strlit("x");
    reveal_strlit("interval");
    reveal_strlit("width");
    reveal_strlit("height");
    reveal_strlit("no-cache");
    reveal_strlit("pixels");
    reveal_strlit("help");
    assert("tag"@.len() == 3 && "csv"@.len() == 3 && "x"@.len() == 1);
    assert("runs"@.len() == 4 && "json"@.len() == 4 && "help"@.len() == 4);
    assert("width"@.len() == 5);
    assert("smooth"@.len() == 6 && "height"@.len() == 6 && "pixels"@.len() == 6);
    assert("interval"@.len() == 8 && "no-cache"@.len() == 8);
    assert("tag"@[0] == 't' && "csv"@[0] == 'c' && "runs"@[0] == 'r' && "json"@[0] == 'j');
    assert("help"@[0] == 'h' && "smooth"@[0] == 's' && "height"@[0] == 'h');
    assert("pixels"@[0] == 'p' && "interval"@[0] == 'i' && "no-cache"@[0] == 'n');
}

/// Any other option means nothing, and a value is no option.
pub proof fn law_other_options_mean_nothing(c: char, name: Seq<char>)
    ensures
        c != 't' && c != 'x' && c != 'h' ==> choice_of(ArgumentModel::Short(c)) is None,
        name != "tag"@ && name != "runs"@ && name != "csv"@ && name != "json"@ && name != "smooth"@
            && name != "x"@ && name != "interval"@ && name != "width"@ && name != "height"@ && name
            != "no-cache"@ && name != "pixels"@ && name != "help"@ ==> choice_of(
            ArgumentModel::Long(name),
        ) is None,
        choice_of(ArgumentModel::Value(name)) is None,
        spelled(ArgumentModel::Short(c)) == seq!['-', c],
        spelled(ArgumentModel::Long(name)) == "--"@ + name,
{
}

/// The switches stand alone; every other option is followed by a value.
pub proof fn law_switches_take_no_value(choice: Choice)
    ensures
        takes_value(choice) <==> choice != Choice::Csv && choice != Choice::Json && choice
            != Choice::NoCache && choice != Choice::Help,
{
}

/// A switch sets what it names, and nothing else; of two formats the later
/// one counts.
pub proof fn law_switches_set_what_they_name(settings: SettingsModel)
    ensures
        settings.flagged(Choice::Csv) == (SettingsModel { format: Format::Csv, ..settings }),
        settings.flagged(Choice::Json) == (SettingsModel { format: Format::Json, ..settings }),
        settings.flagged(Choice::NoCache) == (SettingsModel { no_cache: true, ..settings }),
        settings.flagged(Choice::Csv).flagged(Choice::Json) == settings.flagged(Choice::Json),
{
}

/// Before any option: aligned text, the step axis, a poll every five seconds,
/// the cache and pixels in use, and nothing else chosen.
pub proof fn law_settings_at_the_start()
    ensures
        ({
            let start = SettingsModel::start();
            &&& start.format == Format::Text
            &&& start.x_axis == XAxis::Step
            &&& measures(start.interval, 5120)
            &&& start.tag is None && start.runs_filter is None && start.smooth is None
            &&& start.width is None && start.height is None
            &&& !start.no_cache && !start.no_pixels
        }),
{
    lemma2_to64();
    lemma2_to64_rest();
    lemma_measures_bits(FIVE, 1025, 0x4_0000_0000_0000, 5120);
}

/// The axes by their names, and no others.
pub proof fn law_axes_by_name(name: Seq<char>)
    ensures
        axis_named("step"@) == Some(XAxis::Step),
        axis_named("wall"@) == Some(XAxis::Wall),
        axis_named("relative"@) == Some(XAxis::Relative),
        axis_named("tokens"@) == Some(XAxis::Tokens),
        name != "step"@ && name != "wall"@ && name != "relative"@ && name != "tokens"@
            ==> axis_named(name) is None,
{
    reveal_strlit("step");
    reveal_strlit("wall");
    reveal_strlit("relative");
    reveal_strlit("tokens");
    assert("step"@.len() == 4 && "wall"@.len() == 4);
    assert("relative"@.len() == 8 && "tokens"@.len() == 6);
    assert("step"@[0] == 's' && "wall"@[0] == 'w');
}

/// Smoothing is a number from zero up to one, one left out; an interval is a
/// number above zero, and no infinity.
pub proof fn law_ranges_of_numbers(bits: u64)
    requires
        finite(bits),
    ensures
        ({
            let one = 1024 * vstd::arithmetic::power2::pow2(1064);
            &&& smoothing(bits) == (0 <= signed_units(bits) < one)
            &&& positive(bits) == (signed_units(bits) > 0)
        }),
        !smoothing(0x7FF0_0000_0000_0000),
        !positive(0x7FF0_0000_0000_0000),
{
    lemma2_to64();
    lemma2_to64_rest();
    lemma_measures_bits(ONE, 1023, 0, 1024);
    lemma_measures_zero();
    law_order_is_the_order_of_numbers(bits, ONE);
    law_order_is_the_order_of_numbers(bits, ZERO);
    law_order_is_the_order_of_numbers(ZERO, bits);
    assert(0 * vstd::arithmetic::power2::pow2(1064) == 0) by (nonlinear_arith);
}

/// A count is spelled by its digits, with or without a plus sign; one that
/// does not fit is refused.
pub proof fn law_counts_are_read(n: nat)
    requires
        n <= usize::MAX,
    ensures
        counted_value(decimal_text(n)) == Ok::<usize, Seq<char>>(n as usize),
        counted_value(seq!['+'] + decimal_text(n)) == Ok::<usize, Seq<char>>(n as usize),
        counted_value(Seq::empty()) is Err,
{
    law_decimal_round_trip(n);
    let digits = decimal_text(n);
    let signed = seq!['+'] + digits;
    assert(signed.skip(1) =~= digits);
    assert(crate::text::digit(digits[0]));
}

impl<R: Fn(&str) -> Result<u64, String>> Reader<R> {
    /// An option with a value sets what it names to that value, and nothing
    /// else.
    pub proof fn law_options_set_what_they_name(
        self,
        settings: SettingsModel,
        text: Seq<char>,
        bits: u64,
        axis: XAxis,
        n: usize,
    )
        ensures
            self.valued(settings, Choice::Tag, text) == Ok::<SettingsModel, Seq<char>>(
                (SettingsModel { tag: Some(text), ..settings }),
            ),
            self.valued(settings, Choice::Runs, text) == Ok::<SettingsModel, Seq<char>>(
                (SettingsModel { runs_filter: Some(text), ..settings }),
            ),
            self.reading(text) == Ok::<u64, Seq<char>>(bits) && smoothing(bits) ==> self.valued(
                settings,
                Choice::Smooth,
                text,
            ) == Ok::<SettingsModel, Seq<char>>(
                (SettingsModel { smooth: Some(bits), ..settings }),
            ),
            self.reading(text) == Ok::<u64, Seq<char>>(bits) && positive(bits) ==> self.valued(
                settings,
                Choice::Interval,
                text,
            ) == Ok::<SettingsModel, Seq<char>>((SettingsModel { interval: bits, ..settings })),
            axis_named(text) == Some(axis) ==> self.valued(settings, Choice::Axis, text) == Ok::<
                SettingsModel,
                Seq<char>,
            >((SettingsModel { x_axis: axis, ..settings })),
            counted_value(text) == Ok::<usize, Seq<char>>(n) ==> self.valued(
                settings,
                Choice::Width,
                text,
            ) == Ok::<SettingsModel, Seq<char>>((SettingsModel { width: Some(n), ..settings })),
            counted_value(text) == Ok::<usize, Seq<char>>(n) ==> self.valued(
                settings,
                Choice::Height,
                text,
            ) == Ok::<SettingsModel, Seq<char>>((SettingsModel { height: Some(n), ..settings })),
            self.valued(settings, Choice::Pixels, "auto"@) == Ok::<SettingsModel, Seq<char>>(
                (SettingsModel { no_pixels: false, ..settings }),
            ),
            self.valued(settings, Choice::Pixels, "never"@) == Ok::<SettingsModel, Seq<char>>(
                (SettingsModel { no_pixels: true, ..settings }),
            ),
    {
        reveal_strlit("auto");
        reveal_strlit("never");
        assert("auto"@.len() == 4 && "never"@.len() == 5);
    }

    /// A value out of its range is refused by a sentence that names the
    /// option, and one that does not read by the reader's own.
    pub proof fn law_values_out_of_range_are_refused(
        self,
        settings: SettingsModel,
        text: Seq<char>,
        bits: u64,
        sentence: Seq<char>,
    )
        ensures
            self.reading(text) == Ok::<u64, Seq<char>>(bits) && !smoothing(bits) ==> self.valued(
                settings,
                Choice::Smooth,
                text,
            ) == Err::<SettingsModel, Seq<char>>("--smooth must be in [0, 1)"@),
            self.reading(text) == Ok::<u64, Seq<char>>(bits) && !positive(bits) ==> self.valued(
                settings,
                Choice::Interval,
                text,
            ) == Err::<SettingsModel, Seq<char>>("--interval must be positive"@),
            self.reading(text) == Err::<u64, Seq<char>>(sentence) ==> self.valued(
                settings,
                Choice::Smooth,
                text,
            ) == Err::<SettingsModel, Seq<char>>(sentence) && self.valued(
                settings,
                Choice::Interval,
                text,
            ) == Err::<SettingsModel, Seq<char>>(sentence),
            axis_named(text) is None ==> self.valued(settings, Choice::Axis, text) == Err::<
                SettingsModel,
                Seq<char>,
            >("unknown x axis `"@ + text + "` (step|wall|relative|tokens)"@),
            text != "auto"@ && text != "never"@ ==> self.valued(settings, Choice::Pixels, text)
                == Err::<SettingsModel, Seq<char>>(
                "unknown pixels mode `"@ + text + "` (auto|never)"@,
            ),
            counted_value(text) is Err ==> self.valued(settings, Choice::Width, text) is Err
                && self.valued(settings, Choice::Height, text) is Err,
    {
    }
}

/// The commands by their names.
pub proof fn law_commands_by_name(name: Seq<char>, run: Seq<char>)
    ensures
        command_named("show"@, run) is Show,
        command_named("tail"@, run) is Tail,
        command_named("ls"@, run) is Ls,
        command_named("summary"@, run) == (CommandModel::Summary { run }),
        command_named("export"@, run) is Export,
        is_command("show"@) && is_command("tail"@) && is_command("ls"@) && is_command("summary"@)
            && is_command("export"@),
        !is_command(name) ==> command_named(name, run) is Tui,
{
    reveal_strlit("show");
    reveal_strlit("tail");
    reveal_strlit("ls");
    reveal_strlit("summary");
    reveal_strlit("export");
    assert("show"@.len() == 4 && "tail"@.len() == 4 && "ls"@.len() == 2);
    assert("summary"@.len() == 7 && "export"@.len() == 6);
    assert("show"@[0] == 's' && "tail"@[0] == 't');
}

/// The first value is the command or the logdir, the others follow in order.
pub proof fn law_values_are_taken_in_order(
    draft: DraftModel,
    first: Seq<char>,
    second: Seq<char>,
    third: Seq<char>,
)
    requires
        draft.command_name is None,
        draft.positionals.len() == 0,
    ensures
        ({
            let after = draft.with_value(first).with_value(second).with_value(third);
            &&& after.command_name == Some(first)
            &&& after.positionals == seq![second, third]
            &&& after.settings == draft.settings
        }),
{
    assert(draft.with_value(first).with_value(second).with_value(third).positionals =~= seq![
        second,
        third,
    ]);
}

/// A complete draft.
pub open spec fn draft(name: Seq<char>, values: Seq<Seq<char>>, settings: SettingsModel) -> DraftModel {
    DraftModel { command_name: Some(name), positionals: values, settings }
}

/// A logdir alone opens the interface on it; `ls` and `export` take a logdir,
/// `summary` a logdir and a run, `show` and `tail` a logdir and, by an option,
/// a tag.
pub proof fn law_commands_take_their_values(
    dir: Seq<char>,
    run: Seq<char>,
    tag: Seq<char>,
    settings: SettingsModel,
)
    requires
        !is_command(dir),
        settings.tag == Some(tag),
    ensures
        draft(dir, Seq::empty(), settings).finished() == Ok::<Option<ArgsModel>, Seq<char>>(
            Some(ArgsModel { command: CommandModel::Tui, logdir: dir, tag, settings }),
        ),
        draft("ls"@, seq![dir], settings).finished() == Ok::<Option<ArgsModel>, Seq<char>>(
            Some(ArgsModel { command: CommandModel::Ls, logdir: dir, tag, settings }),
        ),
        draft("export"@, seq![dir], settings).finished() == Ok::<Option<ArgsModel>, Seq<char>>(
            Some(ArgsModel { command: CommandModel::Export, logdir: dir, tag, settings }),
        ),
        draft("summary"@, seq![dir, run], settings).finished() == Ok::<
            Option<ArgsModel>,
            Seq<char>,
        >(
            Some(
                ArgsModel { command: CommandModel::Summary { run }, logdir: dir, tag, settings },
            ),
        ),
        draft("show"@, seq![dir], settings).finished() == Ok::<Option<ArgsModel>, Seq<char>>(
            Some(ArgsModel { command: CommandModel::Show, logdir: dir, tag, settings }),
        ),
        draft("tail"@, seq![dir], settings).finished() == Ok::<Option<ArgsModel>, Seq<char>>(
            Some(ArgsModel { command: CommandModel::Tail, logdir: dir, tag, settings }),
        ),
{
    law_commands_by_name(dir, run);
    law_commands_by_name(dir, seq![dir][1]);
    law_commands_by_name(dir, Seq::<Seq<char>>::empty()[1]);
    reveal_strlit("show");
    reveal_strlit("tail");
    reveal_strlit("ls");
    reveal_strlit("summary");
    reveal_strlit("export");
    assert("show"@.len() == 4 && "tail"@.len() == 4 && "ls"@.len() == 2);
    assert("summary"@.len() == 7 && "export"@.len() == 6);
}

/// What is missing or too much is refused: a command without its logdir, a
/// summary without its run, a chart without a tag, a value too many.
pub proof fn law_incomplete_lines_are_refused(
    name: Seq<char>,
    dir: Seq<char>,
    run: Seq<char>,
    more: Seq<char>,
    settings: SettingsModel,
)
    requires
        name == "show"@ || name == "tail"@ || name == "ls"@ || name == "export"@,
    ensures
        draft(name, Seq::empty(), settings).finished() == Err::<Option<ArgsModel>, Seq<char>>(
            "missing <logdir>"@,
        ),
        draft("summary"@, Seq::empty(), settings).finished() == Err::<
            Option<ArgsModel>,
            Seq<char>,
        >("missing <logdir>"@),
        draft("summary"@, seq![dir], settings).finished() == Err::<Option<ArgsModel>, Seq<char>>(
            "missing <run> (see `vertov ls`)"@,
        ),
        draft(name, seq![dir, more], settings).finished() == Err::<Option<ArgsModel>, Seq<char>>(
            "unexpected argument `"@ + more + "`"@,
        ),
        draft("summary"@, seq![dir, run, more], settings).finished() == Err::<
            Option<ArgsModel>,
            Seq<char>,
        >("unexpected argument `"@ + more + "`"@),
        !is_command(dir) ==> draft(dir, seq![more], settings).finished() == Err::<
            Option<ArgsModel>,
            Seq<char>,
        >("unexpected argument `"@ + more + "`"@),
        settings.tag is None && (name == "show"@ || name == "tail"@) ==> draft(
            name,
            seq![dir],
            settings,
        ).finished() == Err::<Option<ArgsModel>, Seq<char>>(
            "missing -t <tag> (vertov never renders all tags unasked)"@,
        ),
        (DraftModel { command_name: None, positionals: Seq::empty(), settings }).finished() == Ok::<
            Option<ArgsModel>,
            Seq<char>,
        >(None),
{
    reveal_strlit("show");
    reveal_strlit("tail");
    reveal_strlit("ls");
    reveal_strlit("summary");
    reveal_strlit("export");
    assert("show"@.len() == 4 && "tail"@.len() == 4 && "ls"@.len() == 2);
    assert("summary"@.len() == 7 && "export"@.len() == 6);
    assert("show"@[0] == 's' && "tail"@[0] == 't');
}

impl<R: Fn(&str) -> Result<u64, String>> Reader<R> {
    /// A command line is read argument by argument: values are taken in order,
    /// a switch and an option with its value set what they name, help is asked
    /// for at once, and what means nothing is refused.
    pub proof fn law_lines_are_read_argument_by_argument(
        self,
        draft: DraftModel,
        state: Seq<Seq<char>>,
        argument: ArgumentModel,
        after: Seq<Seq<char>>,
        text: Seq<char>,
        rest: Seq<Seq<char>>,
        settings: SettingsModel,
        sentence: Seq<char>,
    )
        requires
            weight(after) < weight(state),
            weight(rest) <= weight(after),
        ensures
            next_step(state).0 == Ok::<Option<ArgumentModel>, Seq<char>>(None) ==> self.parsed(
                draft,
                state,
            ) == draft.finished(),
            next_step(state).0 == Err::<Option<ArgumentModel>, Seq<char>>(sentence) ==> self.parsed(
                draft,
                state,
            ) == Err::<Option<ArgsModel>, Seq<char>>(sentence),
            next_step(state) == (
                Ok::<Option<ArgumentModel>, Seq<char>>(Some(ArgumentModel::Value(text))),
                after,
            ) ==> self.parsed(draft, state) == self.parsed(draft.with_value(text), after),
            next_step(state) == (Ok::<Option<ArgumentModel>, Seq<char>>(Some(argument)), after)
                && argument !is Value && choice_of(argument) is None ==> self.parsed(draft, state)
                == Err::<Option<ArgsModel>, Seq<char>>(
                "invalid option '"@ + spelled(argument) + "'"@,
            ),
            next_step(state) == (Ok::<Option<ArgumentModel>, Seq<char>>(Some(argument)), after)
                && argument !is Value && choice_of(argument) == Some(Choice::Help) ==> self.parsed(
                draft,
                state,
            ) == Ok::<Option<ArgsModel>, Seq<char>>(None),
            next_step(state) == (Ok::<Option<ArgumentModel>, Seq<char>>(Some(argument)), after)
                && argument !is Value && choice_of(argument) == Some(Choice::Csv) ==> self.parsed(
                draft,
                state,
            ) == self.parsed(
                DraftModel {
                    settings: SettingsModel { format: Format::Csv, ..draft.settings },
                    ..draft
                },
                after,
            ),
            next_step(state) == (Ok::<Option<ArgumentModel>, Seq<char>>(Some(argument)), after)
                && argument !is Value && choice_of(argument) == Some(Choice::Tag) && value_step(
                after,
            ) == (Ok::<Seq<char>, Seq<char>>(text), rest) ==> self.parsed(draft, state)
                == self.parsed(
                DraftModel {
                    settings: SettingsModel { tag: Some(text), ..draft.settings },
                    ..draft
                },
                rest,
            ),
            next_step(state) == (Ok::<Option<ArgumentModel>, Seq<char>>(Some(argument)), after)
                && argument !is Value && choice_of(argument) == Some(Choice::Tag) && value_step(
                after,
            ).0 == Err::<Seq<char>, Seq<char>>(sentence) ==> self.parsed(draft, state) == Err::<
                Option<ArgsModel>,
                Seq<char>,
            >(sentence),
    {
    }
}

} // verus!
