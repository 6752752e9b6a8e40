//! What holds of a watched logdir: growth is taken in once, and what is kept
//! was seen and holds the filter.
use vstd::prelude::*;

use crate::arith::{Arith, Operation};
use crate::discover::within;
use crate::drain::LogModel;
use crate::event::{event_of, PayloadModel, ValueModel};
use crate::record::{frame, law_whole_records_stay, Frame};
use crate::watch::Catch;

verus! {

/// Every kept series was seen, and its tag holds the filter.
pub open spec fn keeps_the_filter(catch: Catch, filter: Seq<char>) -> bool {
    forall|run: Seq<char>, tag: Seq<char>|
        catch.runs.dom().contains(run) && #[trigger] catch.runs[run].dom().contains(tag) ==> within(
            tag,
            filter,
        ) && catch.seen.contains(tag)
}

impl<O: Fn(Operation, u64, u64) -> u64, I: Fn(i64) -> u64> Arith<O, I> {
    /// Watching bytes and then more of them is watching both at once; where the
    /// framing died, nothing behind it is taken in.
    pub proof fn law_watched_growth_is_taken_once(
        self,
        catch: Catch,
        run: Seq<char>,
        filter: Seq<char>,
        first: Seq<u8>,
        second: Seq<u8>,
    )
        ensures
            ({
                let (caught, left, bad) = self.watch_frames(catch, run, filter, first);
                if bad {
                    self.watch_frames(catch, run, filter, first + second) == (
                        caught,
                        left + second,
                        true,
                    )
                } else {
                    self.watch_frames(catch, run, filter, first + second) == self.watch_frames(
                        caught,
                        run,
                        filter,
                        left + second,
                    )
                }
            }),
        decreases first.len(),
    {
        law_whole_records_stay(first, second);
        if let Frame::Whole { data, data_crc, size } = frame(first) {
            let tail = first.skip(size as int);
            assert((first + second).skip(size as int) =~= tail + second);
            self.law_watched_growth_is_taken_once(
                self.watch_record(catch, run, filter, data),
                run,
                filter,
                tail,
                second,
            );
        }
    }

    /// A watched file that is read twice, split anywhere, ends where one read at
    /// once ends.
    pub proof fn law_two_watches_are_one(
        self,
        catch: Catch,
        filter: Seq<char>,
        log: LogModel,
        first: Seq<u8>,
        second: Seq<u8>,
        failed: bool,
    )
        requires
            !log.dead,
            log.fits(first + second),
        ensures
            ({
                let (between, half) = self.watch_file(catch, filter, log, first, false);
                !half.dead ==> self.watch_file(between, filter, half, second, failed)
                    == self.watch_file(catch, filter, log, first + second, failed)
            }),
    {
        let (between, half) = self.watch_file(catch, filter, log, first, false);
        let ahead = log.pending + first;
        assert(log.fits(first));
        assert(log.pending + (first + second) =~= ahead + second);
        self.law_watched_growth_is_taken_once(catch, log.run, filter, ahead, second);
        self.lemma_left_unwatched(catch, log.run, filter, ahead);
        if !half.dead {
            assert(half.fits(second));
            self.lemma_left_unwatched(between, log.run, filter, half.pending + second);
        }
    }

    proof fn lemma_left_unwatched(
        self,
        catch: Catch,
        run: Seq<char>,
        filter: Seq<char>,
        bytes: Seq<u8>,
    )
        ensures
            self.watch_frames(catch, run, filter, bytes).1.len() <= bytes.len(),
        decreases bytes.len(),
    {
        if let Frame::Whole { data, data_crc, size } = frame(bytes) {
            if 0 < size <= bytes.len() {
                self.lemma_left_unwatched(
                    self.watch_record(catch, run, filter, data),
                    run,
                    filter,
                    bytes.skip(size as int),
                );
            }
        }
    }

    proof fn lemma_values_keep_the_filter(
        self,
        catch: Catch,
        run: Seq<char>,
        filter: Seq<char>,
        step: i64,
        values: Seq<ValueModel>,
    )
        requires
            keeps_the_filter(catch, filter),
        ensures
            keeps_the_filter(self.watch_values(catch, run, filter, step, values), filter),
        decreases values.len(),
    {
        if values.len() > 0 {
            let before = self.watch_values(catch, run, filter, step, values.drop_last());
            let after = self.watch_values(catch, run, filter, step, values);
            self.lemma_values_keep_the_filter(catch, run, filter, step, values.drop_last());
            assert forall|name: Seq<char>, tag: Seq<char>|
                after.runs.dom().contains(name) && #[trigger] after.runs[name].dom().contains(
                    tag,
                ) implies within(tag, filter) && after.seen.contains(tag) by {
                if before.runs.dom().contains(name) {
                    assert(before.runs[name].dom().contains(tag) || tag == values.last().tag);
                }
            }
        }
    }

    proof fn lemma_frames_keep_the_filter(
        self,
        catch: Catch,
        run: Seq<char>,
        filter: Seq<char>,
        bytes: Seq<u8>,
    )
        requires
            keeps_the_filter(catch, filter),
        ensures
            keeps_the_filter(self.watch_frames(catch, run, filter, bytes).0, filter),
        decreases bytes.len(),
    {
        if let Frame::Whole { data, data_crc, size } = frame(bytes) {
            if 0 < size <= bytes.len() {
                if let Ok(event) = event_of(data) {
                    if let PayloadModel::Summary(values) = event.payload {
                        self.lemma_values_keep_the_filter(catch, run, filter, event.step, values);
                    }
                }
                self.lemma_frames_keep_the_filter(
                    self.watch_record(catch, run, filter, data),
                    run,
                    filter,
                    bytes.skip(size as int),
                );
            }
        }
    }

    /// Reading a watched file on keeps only series whose tags hold the filter,
    /// and all of them are among the tags seen.
    pub proof fn law_watched_tags_hold_the_filter(
        self,
        catch: Catch,
        filter: Seq<char>,
        log: LogModel,
        tail: Seq<u8>,
        failed: bool,
    )
        requires
            keeps_the_filter(catch, filter),
        ensures
            keeps_the_filter(self.watch_file(catch, filter, log, tail, failed).0, filter),
    {
        self.lemma_frames_keep_the_filter(catch, log.run, filter, log.pending + tail);
    }
}

} // verus!
