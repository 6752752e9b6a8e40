use vertov::args::{Args, Command, Reader};
use vertov::cache::{cache_name, fnv1a};
use vertov::caption::{status_line, tab};
use vertov::chart::XAxis;
use vertov::numeric::Wording;
use vertov::run::Stamp;
use vertov::screen::View;
use vertov::table::{fmt_duration, Cell, Format, Table};
use vertov::text::{decode_strict, decode_text};
use vertov::tui::{fuzzy_match, RunsSort};

fn number(text: &str) -> Option<u64> {
    text.parse::<f64>().ok().map(f64::to_bits)
}

fn show(value: u64) -> String {
    f64::from_bits(value).to_string()
}

fn sample() -> Table {
    Table {
        columns: vec!["run".into(), "points".into(), "best".into()],
        rows: vec![
            vec![
                Cell::Text("adam".into()),
                Cell::Int(100),
                Cell::Float(0.25f64.to_bits()),
            ],
            vec![Cell::Text("sgd, v2".into()), Cell::Int(90), Cell::Empty],
        ],
    }
}

fn render(table: &Table, format: Format) -> String {
    table.render(format, &Wording { number, show })
}

#[test]
fn text_aligns_numbers_right() {
    assert_eq!(
        render(&sample(), Format::Text),
        "run      points  best\n\
         adam        100  0.25\n\
         sgd, v2      90\n"
    );
}

#[test]
fn csv_escapes_commas() {
    assert_eq!(
        render(&sample(), Format::Csv),
        "run,points,best\nadam,100,0.25\n\"sgd, v2\",90,\n"
    );
}

#[test]
fn json_uses_null_for_gaps() {
    assert_eq!(
        render(&sample(), Format::Json),
        "[\n  {\"run\": \"adam\", \"points\": 100, \"best\": 0.25},\n  {\"run\": \"sgd, v2\", \"points\": 90, \"best\": null}\n]\n"
    );
}

#[test]
fn durations() {
    assert_eq!(fmt_duration(45.0f64.to_bits()), "45s");
    assert_eq!(fmt_duration(245.0f64.to_bits()), "4m05s");
    assert_eq!(fmt_duration(7890.0f64.to_bits()), "2h11m");
    assert_eq!(fmt_duration(4_712_400.0f64.to_bits()), "54d13h");
}

#[test]
fn text_widths_count_chars_not_bytes() {
    let table = Table {
        columns: vec!["run".into(), "n".into()],
        rows: vec![
            vec![Cell::Text("метрики".into()), Cell::Int(1)],
            vec![Cell::Text("ascii".into()), Cell::Int(2)],
        ],
    };
    assert_eq!(
        render(&table, Format::Text),
        "run      n\nметрики  1\nascii    2\n"
    );
}

#[test]
fn significant_truncation_never_rounds() {
    let fmt_sig = |value: f64, digits: usize| {
        Wording { number, show }.fmt_sig(value.to_bits(), digits)
    };
    assert_eq!(fmt_sig(0.9999999, 5), "0.99999");
    assert_eq!(fmt_sig(0.916704475879, 5), "0.91670");
    assert_eq!(fmt_sig(487424.0, 5), "487424");
    assert_eq!(fmt_sig(487424.75, 5), "487424");
    assert_eq!(fmt_sig(-0.0001234567, 4), "-0.0001234");
    assert_eq!(fmt_sig(1.5, 5), "1.5");
    assert_eq!(fmt_sig(f64::NAN, 5), "NaN");
    assert_eq!(fmt_sig(1.23456789e-7, 4), "0.0000001234");
}

#[test]
fn json_escapes_signs_and_controls() {
    let table = Table {
        columns: vec!["a\"b".into()],
        rows: vec![
            vec![Cell::Text("c\\d\ne\u{1}".into())],
            vec![Cell::Float(f64::NAN.to_bits())],
        ],
    };
    assert_eq!(
        render(&table, Format::Json),
        "[\n  {\"a\\\"b\": \"c\\\\d\\ne\\u0001\"},\n  {\"a\\\"b\": null}\n]\n"
    );
}

#[test]
fn fuzzy_subsequence() {
    assert!(fuzzy_match("train/loss", "tl"));
    assert!(fuzzy_match("train/loss", "loss"));
    assert!(fuzzy_match("train/loss", ""));
    assert!(!fuzzy_match("train/loss", "xyz"));
    assert!(!fuzzy_match("train/loss", "lt"));
}

#[test]
fn text_is_decoded() {
    assert_eq!(decode_strict("größe".as_bytes()), Some("größe".to_owned()));
    assert_eq!(decode_strict(b"gr\xFF"), None);
    assert_eq!(decode_text(b"gr\xFF"), "gr\u{FFFD}");
}

#[test]
fn cache_names_hash_the_root() {
    // The published 64-bit FNV-1a values.
    assert_eq!(fnv1a(b""), 0xcbf2_9ce4_8422_2325);
    assert_eq!(fnv1a(b"a"), 0xaf63_dc4c_8601_ec8c);
    assert_eq!(fnv1a(b"foobar"), 0x8594_4171_f739_67e8);
    assert!(cache_name(b"foobar").starts_with("85944171f73967e8"));
}

#[test]
fn views_and_sorts_come_round() {
    let mut view = View::Runs;
    for _ in 0..5 {
        view = view.next();
    }
    assert_eq!(view, View::Runs);
    assert_eq!(tab(View::Scalars).key, "2");
    let mut sort = RunsSort::Name;
    let mut labels = Vec::new();
    loop {
        labels.push(sort.label());
        sort = sort.next();
        if sort == RunsSort::Name {
            break;
        }
    }
    assert_eq!(labels.first(), Some(&"run"));
    assert!(labels.len() > 1);
}

#[test]
fn status_lines_say_what_is_waited_for() {
    let quiet = Stamp { secs: 7, nanos: 0 };
    let interval = Stamp { secs: 5, nanos: 0 };
    let waiting = status_line(true, quiet, interval);
    let stale = status_line(false, quiet, interval);
    assert_ne!(waiting, stale);
}

fn read(text: &str) -> Result<u64, String> {
    text.parse::<f64>().map(f64::to_bits).map_err(|error| error.to_string())
}

fn parse(args: &[&str]) -> Result<Option<Args>, String> {
    Reader { read }.parse_args(args.iter().map(|arg| arg.to_string()).collect())
}

fn parsed(args: &[&str]) -> Args {
    match parse(args) {
        Ok(Some(args)) => args,
        Ok(None) => panic!("help was asked for"),
        Err(sentence) => panic!("{sentence}"),
    }
}

fn refused(args: &[&str]) -> String {
    match parse(args) {
        Err(sentence) => sentence,
        Ok(_) => panic!("expected a refusal"),
    }
}

#[test]
fn command_lines_are_read() {
    let show = parsed(&[
        "show", "runs/", "-t", "loss", "--smooth=0.97", "-xwall", "--width", "60", "--json",
    ]);
    assert!(matches!(show.command, Command::Show));
    assert_eq!((show.logdir.as_str(), show.tag.as_str()), ("runs/", "loss"));
    assert_eq!(show.settings.smooth, Some(0.97f64.to_bits()));
    assert_eq!(show.settings.x_axis, XAxis::Wall);
    assert_eq!((show.settings.width, show.settings.height), (Some(60), None));
    assert_eq!(show.settings.format, Format::Json);
    assert_eq!(show.settings.interval, 5.0f64.to_bits());

    let tui = parsed(&["runs/", "--pixels", "never", "--no-cache"]);
    assert!(matches!(tui.command, Command::Tui));
    assert_eq!(tui.logdir, "runs/");
    assert!(tui.settings.no_pixels && tui.settings.no_cache);

    let summary = parsed(&["summary", "runs/", "adam", "--csv"]);
    assert!(matches!(summary.command, Command::Summary { run } if run == "adam"));

    let behind = parsed(&["ls", "--", "--odd"]);
    assert_eq!(behind.logdir, "--odd");

    assert!(matches!(parsed(&["export", "d", "--runs", "lr > 1"]).command, Command::Export));
    let tail = parsed(&["tail", "d", "--tag", "a", "--interval", "2.5", "--x", "tokens"]);
    assert!(matches!(tail.command, Command::Tail));
    assert_eq!(tail.settings.interval, 2.5f64.to_bits());
    assert_eq!(tail.settings.x_axis, XAxis::Tokens);
}

#[test]
fn help_is_asked_for() {
    assert!(matches!(parse(&[]), Ok(None)));
    assert!(matches!(parse(&["-h"]), Ok(None)));
    assert!(matches!(parse(&["show", "--help"]), Ok(None)));
}

#[test]
fn command_lines_are_refused() {
    assert_eq!(refused(&["ls"]), "missing <logdir>");
    assert_eq!(refused(&["summary", "d"]), "missing <run> (see `vertov ls`)");
    assert_eq!(refused(&["ls", "d", "e"]), "unexpected argument `e`");
    assert_eq!(
        refused(&["show", "d"]),
        "missing -t <tag> (vertov never renders all tags unasked)"
    );
    assert_eq!(refused(&["d", "--smooth", "1"]), "--smooth must be in [0, 1)");
    assert_eq!(refused(&["d", "--interval", "0"]), "--interval must be positive");
    assert_eq!(
        refused(&["d", "-x", "epoch"]),
        "unknown x axis `epoch` (step|wall|relative|tokens)"
    );
    assert_eq!(refused(&["d", "--pixels", "on"]), "unknown pixels mode `on` (auto|never)");
    assert_eq!(refused(&["d", "--odd"]), "invalid option '--odd'");
    assert_eq!(refused(&["d", "-z"]), "invalid option '-z'");
    assert_eq!(refused(&["d", "--width"]), "missing argument for option '--width'");
    assert!(refused(&["d", "--width", "wide"]).contains("wide"));
    assert!(refused(&["d", "--smooth", "much"]).contains("invalid"));
    assert_eq!(
        refused(&["d", "--csv=1"]),
        "unexpected argument for option '--csv': \"1\""
    );
}

#[test]
fn dense_cells_are_halved_where_the_terminal_scales() {
    assert_eq!(vertov::panel::standard_density(true, (22, 44)), (11, 22));
    assert_eq!(vertov::panel::standard_density(true, (10, 44)), (10, 44));
    assert_eq!(vertov::panel::standard_density(true, (11, 20)), (11, 20));
    assert_eq!(vertov::panel::standard_density(false, (22, 44)), (22, 44));
}
