//! What the catalog knows of a run: its first and last wall time, its last
//! write, its state, the places that names resolve to, and counts of what a
//! refresh found.
use vstd::prelude::*;

use crate::chart::counter_names;
use crate::double::{finite, nan};
use crate::exact::{law_order_is_the_order_of_numbers, signed_units};
use crate::numeric::{Moments, Numeric};
use crate::run::{
    backend_label, ends_with, first_resolving, hparam_of_param, only_suffix, resolves, status_of,
    Backend, Intake, RefreshReport, RunModel, RunStatus, Stamp,
};
use crate::hparams::HparamModel;
use crate::params::ParamModel;
use crate::series::{lower, upper, PointStamp, SeriesClass};

verus! {

/// Of two numbers the smaller and the larger.
pub proof fn law_lower_and_upper(a: u64, b: u64)
    requires
        finite(a),
        finite(b),
    ensures
        lower(a, b) == a || lower(a, b) == b,
        upper(a, b) == a || upper(a, b) == b,
        signed_units(lower(a, b)) <= signed_units(a),
        signed_units(lower(a, b)) <= signed_units(b),
        signed_units(upper(a, b)) >= signed_units(a),
        signed_units(upper(a, b)) >= signed_units(b),
{
    law_order_is_the_order_of_numbers(a, b);
    law_order_is_the_order_of_numbers(b, a);
}

/// Where one of two is no number, the other is both the smaller and the
/// larger.
pub proof fn law_no_number_gives_way(a: u64, b: u64)
    requires
        nan(a) != nan(b),
    ensures
        lower(a, b) == (if nan(a) {
            b
        } else {
            a
        }),
        upper(a, b) == lower(a, b),
{
}

/// The wall times of a run bracket every one that was seen, and are among
/// those seen; zero is no wall time.
pub proof fn law_walls_bracket_what_was_seen(run: RunModel, wall: u64)
    requires
        finite(wall),
        run.first_wall matches Some(first) ==> finite(first),
        run.last_wall matches Some(last) ==> finite(last),
    ensures
        signed_units(wall) == 0 ==> run.walled(wall) == run,
        signed_units(wall) != 0 ==> ({
            let after = run.walled(wall);
            &&& after.first_wall matches Some(first) && signed_units(first) <= signed_units(wall)
                && (first == wall || run.first_wall == Some(first)) && (
            run.first_wall matches Some(known) ==> signed_units(first) <= signed_units(known))
            &&& after.last_wall matches Some(last) && signed_units(last) >= signed_units(wall) && (
            last == wall || run.last_wall == Some(last)) && (run.last_wall matches Some(known)
                ==> signed_units(last) >= signed_units(known))
            &&& after.series == run.series && after.hparams == run.hparams && after.last_write
                == run.last_write && after.finished == run.finished && after.preemptions
                == run.preemptions
        }),
{
    law_order_is_the_order_of_numbers(wall, 0);
    assert(crate::double::units(0) == 0);
    if let Some(first) = run.first_wall {
        law_lower_and_upper(first, wall);
    }
    if let Some(last) = run.last_wall {
        law_lower_and_upper(last, wall);
    }
}

/// The last write of a run is the latest that was seen.
pub proof fn law_last_write_is_the_latest(run: RunModel, a: Stamp, b: Stamp)
    ensures
        ({
            let after = run.written(a).written(b);
            &&& after.last_write matches Some(last) && last.total() >= a.total() && last.total()
                >= b.total() && (run.last_write matches Some(known) ==> last.total()
                >= known.total()) && (last == a || last == b || run.last_write == Some(last))
            &&& after.series == run.series && after.first_wall == run.first_wall
        }),
        a.total() == a.secs * 1_000_000_000 + a.nanos,
{
}

/// A run that said it is finished is finished; else it is active as long as
/// its last write is no older than the window, idle beyond, and unknown where
/// no write was seen.
pub proof fn law_states_of_a_run(run: RunModel, now: Stamp, window: Stamp, last: Stamp)
    ensures
        run.finished == Some(true) ==> status_of(run, now, window) == RunStatus::Finished,
        run.finished != Some(true) && run.last_write is None ==> status_of(run, now, window)
            == RunStatus::Unknown,
        run.finished != Some(true) && run.last_write == Some(last) ==> (status_of(run, now, window)
            == RunStatus::Active) == (now.total() <= last.total() + window.total()),
        run.finished != Some(true) && run.last_write == Some(last) ==> (status_of(run, now, window)
            == RunStatus::Idle) == (now.total() > last.total() + window.total()),
{
}

/// A run whose files were replaced starts over: no series, no restarts, no
/// wall times; its hyperparameters, its state and its last write stay.
pub proof fn law_replaced_files_start_over(run: RunModel, tag: Seq<char>)
    ensures
        ({
            let after = run.reset();
            &&& !after.series.dom().contains(tag)
            &&& after.preemptions == 0
            &&& after.first_wall is None && after.last_wall is None
            &&& after.hparams == run.hparams && after.finished == run.finished
            &&& after.last_write == run.last_write && after.backend == run.backend && after.dir
                == run.dir
        }),
{
}

/// A run starts with nothing known.
pub proof fn law_run_starts_empty(backend: Backend, dir: Seq<char>, name: Seq<char>)
    ensures
        ({
            let run = RunModel::start(backend, dir);
            &&& run.backend == backend && run.dir == dir
            &&& !run.series.dom().contains(name) && !run.hparams.dom().contains(name)
            &&& run.first_wall is None && run.last_wall is None && run.last_write is None
            &&& run.finished is None && run.preemptions == 0
        }),
{
}

/// The labels of the backends.
pub proof fn law_backends_have_labels()
    ensures
        backend_label(Backend::Tfevents) == "tfevents"@,
        backend_label(Backend::Dvclive) == "dvclive"@,
        backend_label(Backend::Mlflow) == "mlflow"@,
        backend_label(Backend::Wandb) == "wandb"@,
{
}

/// A name that is there resolves to itself; one that is not, to the one name
/// that ends in a slash and it; and to nothing where several or none do.
pub proof fn law_names_resolve(names: Seq<Seq<char>>, wanted: Seq<char>, found: Option<usize>)
    requires
        resolves(names, wanted, found),
    ensures
        names.contains(wanted) ==> (found matches Some(at) && at < names.len() && names[at as int]
            == wanted),
        !names.contains(wanted) ==> match found {
            Some(at) => {
                &&& at < names.len()
                &&& ends_with(names[at as int], seq!['/'] + wanted)
                &&& forall|i: int|
                    0 <= i < names.len() && ends_with(#[trigger] names[i], seq!['/'] + wanted)
                        ==> i == at
            },
            None => forall|i: int|
                0 <= i < names.len() && ends_with(#[trigger] names[i], seq!['/'] + wanted)
                    ==> exists|j: int|
                    0 <= j < names.len() && j != i && ends_with(
                        #[trigger] names[j],
                        seq!['/'] + wanted,
                    ),
        },
{
    if names.contains(wanted) {
        let i = choose|i: int| 0 <= i < names.len() && names[i] == wanted;
        assert(names[i] == wanted);
    } else {
        let suffix = seq!['/'] + wanted;
        assert forall|i: int| 0 <= i < names.len() implies #[trigger] names[i] != wanted by {
            if names[i] == wanted {
                assert(names.contains(wanted));
            }
        }
        if found is None {
            assert forall|i: int|
                0 <= i < names.len() && ends_with(
                    #[trigger] names[i],
                    seq!['/'] + wanted,
                ) implies exists|j: int|
                0 <= j < names.len() && j != i && ends_with(
                    #[trigger] names[j],
                    seq!['/'] + wanted,
                ) by {
                assert(!only_suffix(names, suffix, i));
            }
        }
    }
}

/// What a text ends with.
pub proof fn law_endings(front: Seq<char>, back: Seq<char>, text: Seq<char>)
    ensures
        ends_with(front + back, back),
        ends_with(text, back) ==> text == text.take(text.len() - back.len()) + back,
{
    assert((front + back).skip(front.len() as int) =~= back);
    if ends_with(text, back) {
        assert(text =~= text.take(text.len() - back.len()) + back);
    }
}

/// A token counter is looked for under the name that was given, and else under
/// the conventional ones, in their order.
pub proof fn law_counters_are_looked_for(tag: Seq<char>)
    ensures
        counter_names(Some(tag)) == seq![tag],
        counter_names(None) == seq![
            "tokens"@,
            "consumed_tokens"@,
            "total_tokens"@,
            "num_tokens"@,
            "tokens_seen"@,
        ],
{
}

/// Of the names that are looked for, the first one that resolves counts.
pub proof fn law_first_resolving_name_counts(
    names: Seq<Seq<char>>,
    first: Seq<char>,
    second: Seq<char>,
    found: Option<Seq<char>>,
)
    requires
        first_resolving(names, seq![first, second], found),
        names.contains(first),
    ensures
        found == Some(first),
{
    let wanted = seq![first, second];
    let i = choose|i: int| 0 <= i < names.len() && names[i] == first;
    assert(names[i] == first);
    assert(wanted[0] == first);
    if found is None {
        assert(resolves(names, wanted[0], None));
    } else {
        let tag = found->0;
        let (k, at) = choose|k: int, at: usize|
            {
                &&& 0 <= k < wanted.len()
                &&& #[trigger] resolves(names, wanted[k], Some(at))
                &&& names[at as int] == tag
                &&& forall|j: int| 0 <= j < k ==> resolves(names, #[trigger] wanted[j], None)
            };
        if k > 0 {
            assert(resolves(names, wanted[0], None));
        }
    }
}

/// A typed parameter is a hyperparameter of the same type and value.
pub proof fn law_parameters_keep_their_type(bits: u64, truth: bool, text: Seq<char>)
    ensures
        hparam_of_param(ParamModel::Number(bits)) == HparamModel::Number(bits),
        hparam_of_param(ParamModel::Truth(truth)) == HparamModel::Truth(truth),
        hparam_of_param(ParamModel::Text(text)) == HparamModel::Text(text),
{
}

/// A report counts each thing under its own name, and nothing else.
pub proof fn law_reports_count_each_thing(report: RefreshReport)
    requires
        report.new_points < u64::MAX,
        report.preemptions < u64::MAX,
        report.dropped_records < u64::MAX,
        report.new_files < u64::MAX,
        report.dead_files < u64::MAX,
    ensures
        report.point(false) == (RefreshReport {
            new_points: (report.new_points + 1) as u64,
            ..report
        }),
        report.point(true) == (RefreshReport {
            new_points: (report.new_points + 1) as u64,
            preemptions: (report.preemptions + 1) as u64,
            ..report
        }),
        report.dropped() == (RefreshReport {
            dropped_records: (report.dropped_records + 1) as u64,
            ..report
        }),
        report.opened() == (RefreshReport { new_files: (report.new_files + 1) as u64, ..report }),
        report.died() == (RefreshReport { dead_files: (report.dead_files + 1) as u64, ..report }),
        RefreshReport::start().new_points == 0 && RefreshReport::start().new_files == 0
            && RefreshReport::start().preemptions == 0 && RefreshReport::start().dropped_records
            == 0 && RefreshReport::start().dead_files == 0,
{
}

impl<
    F: Fn(&str) -> Option<u64>,
    G: Fn(u64) -> u64,
    H: Fn(Moments, u64) -> Moments,
> Numeric<F, G, H> {
    /// A scalar of a text backend is a point of a scalar series: the last one
    /// of its tag, counted, held where the series is, and seen by the wall
    /// times; no other series changes.
    pub proof fn law_scalar_is_the_last_point(
        self,
        intake: Intake,
        name: Seq<char>,
        tag: Seq<char>,
        point: PointStamp,
        other: Seq<char>,
    )
        requires
            other != tag,
            intake.report.new_points < u64::MAX,
        ensures
            ({
                let after = self.take_scalar(intake, name, tag, point);
                let series = after.run.series[tag];
                &&& after.run.series.dom().contains(tag)
                &&& series.segments.len() > 0
                &&& series.segments.last().last == point
                &&& !intake.run.series.dom().contains(tag) ==> series.class == SeriesClass::Scalar
                    && series.segments.len() == 1 && series.segments[0].count == 1
                &&& intake.run.series.dom().contains(tag) ==> series.class
                    == intake.run.series[tag].class
                &&& after.run.series.dom().contains(other) == intake.run.series.dom().contains(
                    other,
                )
                &&& after.run.series[other] == intake.run.series[other]
                &&& after.report.new_points == intake.report.new_points + 1
                &&& after.run.first_wall == intake.run.walled(point.wall).first_wall
                &&& after.run.last_wall == intake.run.walled(point.wall).last_wall
                &&& intake.points.dom().contains((name, tag)) ==> after.points[(name, tag)].0
                    == intake.points[(name, tag)].0.pushed(point)
                &&& after.points.dom() == intake.points.dom()
                &&& after.histograms == intake.histograms
            }),
    {
        let after = self.take_scalar(intake, name, tag, point);
        assert(after.points.dom() =~= intake.points.dom());
    }

    /// A point that does not lie behind the last one of its series is a
    /// restart, which the run and the report count once; no other point is.
    pub proof fn law_each_restart_counts_once(
        self,
        intake: Intake,
        name: Seq<char>,
        tag: Seq<char>,
        point: PointStamp,
    )
        requires
            intake.run.preemptions < u64::MAX,
            intake.report.preemptions < u64::MAX,
            intake.report.new_points < u64::MAX,
        ensures
            ({
                let after = self.take_scalar(intake, name, tag, point);
                let segments = intake.run.series[tag].segments;
                let again = intake.run.series.dom().contains(tag) && segments.len() > 0
                    && point.step <= segments.last().last.step;
                &&& again ==> after.run.preemptions == intake.run.preemptions + 1
                &&& again ==> after.report.preemptions == intake.report.preemptions + 1
                &&& again ==> after.run.series[tag].segments.len() == segments.len() + 1
                &&& !again ==> after.run.preemptions == intake.run.preemptions
                &&& !again ==> after.report.preemptions == intake.report.preemptions
            }),
    {
    }
}

} // verus!
