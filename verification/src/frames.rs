//! How long the latest frames took to draw.

use vstd::prelude::*;

use crate::time::Duration;

verus! {

/// How many frame times are kept.
pub const MAX_FRAME_TIMES: usize = 100;

/// The time of the latest frame, and the times of the latest frames.
#[derive(Debug)]
pub struct FrameStats {
    last_frame_time: Duration,
    frame_times: Vec<Duration>,
}

/// [`FrameStats`] with the times as a sequence, oldest first.
#[verifier::ext_equal]
pub struct FramesView {
    pub last_frame_time: Duration,
    pub frame_times: Seq<Duration>,
}

impl View for FrameStats {
    type V = FramesView;

    closed spec fn view(&self) -> FramesView {
        FramesView { last_frame_time: self.last_frame_time, frame_times: self.frame_times@ }
    }
}

/// Statistics of no frames.
pub open spec fn no_frames() -> FramesView {
    FramesView { last_frame_time: Duration { nanos: 0 }, frame_times: Seq::empty() }
}

/// The statistics after one more frame: with too many times, the oldest leaves.
pub open spec fn recorded(frames: FramesView, elapsed: Duration) -> FramesView {
    let times = frames.frame_times.push(elapsed);
    FramesView {
        last_frame_time: elapsed,
        frame_times: if times.len() > MAX_FRAME_TIMES {
            times.drop_first()
        } else {
            times
        },
    }
}

impl Default for FrameStats {
    fn default() -> (stats: FrameStats)
        ensures
            stats@ == no_frames(),
    {
        FrameStats { last_frame_time: Duration::zero(), frame_times: Vec::new() }
    }
}

impl FrameStats {
    /// Record the time that a frame took.
    pub fn record(&mut self, elapsed: Duration)
        ensures
            final(self)@ == recorded(old(self)@, elapsed),
    {
        let ghost before = self.frame_times@;
        self.last_frame_time = elapsed;
        self.frame_times.push(elapsed);
        if self.frame_times.len() > MAX_FRAME_TIMES {
            self.frame_times.remove(0);
            assert(self.frame_times@ =~= before.push(elapsed).drop_first());
        }
    }

    /// The time of the latest frame.
    pub fn last_frame_time(&self) -> (time: Duration)
        ensures
            time == self@.last_frame_time,
    {
        self.last_frame_time
    }

    /// The times of the latest frames, oldest first.
    pub fn frame_times(&self) -> (times: &Vec<Duration>)
        ensures
            times@ == self@.frame_times,
    {
        &self.frame_times
    }
}

/// The statistics of frames recorded one after the other, from the start.
pub open spec fn recorded_all(times: Seq<Duration>) -> FramesView
    decreases times.len(),
{
    if times.len() == 0 {
        no_frames()
    } else {
        recorded(recorded_all(times.drop_last()), times.last())
    }
}

/// However many frames there were, the times kept are those of the latest ones, at most
/// [`MAX_FRAME_TIMES`] of them.
pub proof fn law_latest_frame_times_are_kept(times: Seq<Duration>)
    ensures
        recorded_all(times).frame_times == if times.len() > MAX_FRAME_TIMES {
            times.skip(times.len() - MAX_FRAME_TIMES)
        } else {
            times
        },
        times.len() > 0 ==> recorded_all(times).last_frame_time == times.last(),
    decreases times.len(),
{
    if times.len() > 0 {
        law_latest_frame_times_are_kept(times.drop_last());
        assert(recorded_all(times).frame_times =~= if times.len() > MAX_FRAME_TIMES {
            times.skip(times.len() - MAX_FRAME_TIMES)
        } else {
            times
        });
    } else {
        assert(recorded_all(times).frame_times =~= times);
    }
}

/// One more frame is the latest, and its time stands last. The other times that are kept are
/// those from before, without the oldest where there were a hundred or more.
pub proof fn law_recording_adds_one_frame(frames: FramesView, elapsed: Duration)
    ensures
        recorded(frames, elapsed).last_frame_time == elapsed,
        recorded(frames, elapsed).frame_times.len() > 0,
        recorded(frames, elapsed).frame_times.last() == elapsed,
        frames.frame_times.len() < 100 ==> recorded(frames, elapsed).frame_times.drop_last()
            == frames.frame_times,
        frames.frame_times.len() >= 100 ==> recorded(frames, elapsed).frame_times.drop_last()
            == frames.frame_times.skip(1),
        no_frames().last_frame_time.nanos == 0,
        no_frames().frame_times.len() == 0,
{
    if frames.frame_times.len() < 100 {
        assert(recorded(frames, elapsed).frame_times.drop_last() =~= frames.frame_times);
    } else {
        assert(recorded(frames, elapsed).frame_times.drop_last() =~= frames.frame_times.skip(1));
    }
}

} // verus!
