# vertov

A read-only terminal viewer for ML training runs. Point it at a logdir and get
live charts, a runs table and comparison views, from the files that trainers
already write: TensorBoard event files, dvclive, the MLflow file store and
wandb's offline logs.

```sh
vertov runs/                  # the interface: runs table, scalars, live tail
vertov show runs/ -t loss     # a chart to the terminal, once
vertov export runs/ --csv     # the flat table of runs, params and metrics
```

## Layout

- `src/` is the library: formats, catalog, reload loop, summary cache, filters,
  tables, charts and the interface's state. All of it is verified with Verus.
- `app/` is the program around it: the command line, the file system, the
  terminal, and arithmetic on doubles.
- `tests/` runs the library over files held in memory.

## What is proved

Each function's contract says what it returns or changes. Above them stand laws,
the public proof functions named `law_..`. Among them:

- a growing file is taken in once, however it was read in pieces: event files
  (`law_two_polls_are_one`), metric files and TSVs
  (`law_metric_growth_is_taken_once`, `law_tsv_growth_is_taken_once`), wandb logs
  (`law_read_resumes`);
- what is materialized of a series is what the refreshes observed of it, over
  however many event files or in whichever other backend
  (`law_first_refresh_settles`, `law_refresh_stays_settled`,
  `law_materialized_is_what_was_observed`), whenever it is asked for
  (`law_materialize_before_or_after`), and so for histograms
  (`law_histograms_are_what_was_observed`, `law_histograms_before_or_after`);
  of several event files none may grow once a later one was read
  (`law_only_the_last_file_grows`, `law_home_takes_in_new_files`);
- what is written is read back, record by record and field by field
  (`law_file_round_trip`, `law_event_round_trip`, `law_records_read_back`);
- damage stays local (`law_corruption_stays_local`), a torn end is a state
  (`law_torn_record_is_short`, `law_torn_line_stays_unread`,
  `law_torn_log_record_is_unread`);
- a restart loses nothing and disturbs no other series
  (`law_points_lose_nothing`, `law_restarts_are_per_series`);
- summaries count every point and their extremes are real
  (`law_summary_counts_every_point`, `law_summary_extremes_are_real`);
- a start from the cache comes to what a project that stayed open comes to
  (`law_saved_project_starts_warm`, `law_cache_changes_nothing`), and a torn
  cache is no cache (`law_torn_cache_is_refused`).
