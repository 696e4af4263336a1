//! The steps of a playback that is running.
use vstd::prelude::*;
use crate::anim::{plan_of, playback_duration, pulls, schedule, beginning, Frame, Schedule};
use crate::animation::{AnimTarget, Animation, PlaybackOptions};
use crate::mode::Mode;
use crate::playback::{resolved_models, target_models};
use crate::registry::{cancel_reason, decode_cancel_reason, places, PlaybackFinishReason};

verus! {

/// What is next in a playback.
#[derive(Debug)]
pub enum Step {
    /// Wait until the frame's time, then send its updates.
    Frame(Frame),
    /// Wait until the end of the playback.
    End { at_ms: u64 },
    /// The playback is over.
    Over,
}

/// A playback that is running.
pub struct Player<'a> {
    pub frames: Schedule<'a>,
    /// The end of the playback, while it is still to be waited for.
    pub end: Option<u64>,
    pub revert_on_finish: bool,
}

impl<'a> Player<'a> {
    /// The playback can go on.
    pub open(crate) spec fn ready(self) -> bool {
        self.frames.wf() && self.frames.plan().room(self.frames@)
    }

    /// Starts a playback.
    pub fn start(animation: &'a Animation, options: &PlaybackOptions) -> (r: Self)
        requires
            options.wf(),
            ({
                let plan = plan_of(*animation, *options);
                plan.endless() || plan.total_time(plan.rounds()) <= u64::MAX
            }),
        ensures
            r.frames.wf(),
            r.frames.plan() == plan_of(*animation, *options),
            r.frames@ == beginning(),
            r.revert_on_finish == options.revert_on_finish,
            ({
                let plan = plan_of(*animation, *options);
                match r.end {
                    Some(end) => !plan.endless() && end == plan.total_time(plan.rounds()),
                    None => plan.endless(),
                }
            }),
    {
        Player {
            frames: schedule(animation, options),
            end: playback_duration(animation, options),
            revert_on_finish: options.revert_on_finish,
        }
    }

    /// Tells whether the playback can go on.
    pub fn is_ready(&self) -> (r: bool)
        requires
            self.frames.wf(),
        ensures
            r == self.ready(),
    {
        self.frames.has_room()
    }

    /// Decides what is next: the frames one after another, then the end where there
    /// is one.
    pub fn step(&mut self) -> (r: Step)
        requires
            old(self).ready(),
        ensures
            final(self).frames.wf(),
            final(self).frames.plan() == old(self).frames.plan(),
            final(self).revert_on_finish == old(self).revert_on_finish,
            ({
                let plan = old(self).frames.plan();
                let before = old(self).frames@;
                let after = final(self).frames@;
                match r {
                    Step::Frame(frame) => {
                        &&& pulls(plan, before, after, Some(frame@))
                        &&& final(self).end == old(self).end
                    },
                    Step::End { at_ms } => {
                        &&& pulls(plan, before, after, None)
                        &&& old(self).end == Some(at_ms)
                        &&& final(self).end is None
                    },
                    Step::Over => {
                        &&& pulls(plan, before, after, None)
                        &&& old(self).end is None
                        &&& final(self).end is None
                    },
                }
            }),
    {
        match self.frames.next() {
            Some(frame) => Step::Frame(frame),
            None => match self.end {
                Some(at_ms) => {
                    self.end = None;
                    Step::End { at_ms }
                },
                None => Step::Over,
            },
        }
    }

    /// How the playback ended: by itself, or for the reason of its cancellation.
    /// Returns with it whether lights go back to the modes they had; the lights of
    /// a playback that another one replaces do not.
    pub fn finish(&self, cancelled: Option<u8>) -> (r: (PlaybackFinishReason, bool))
        ensures
            r.0 == match cancelled {
                Some(code) => cancel_reason(code),
                None => PlaybackFinishReason::Natural,
            },
            r.1 == (self.revert_on_finish && r.0 != PlaybackFinishReason::Chained),
    {
        let reason = match cancelled {
            Some(code) => decode_cancel_reason(code),
            None => PlaybackFinishReason::Natural,
        };
        (reason, self.revert_on_finish && reason != PlaybackFinishReason::Chained)
    }
}

/// The lights of a target among the first `n` targets.
pub open spec fn lights_for(
    targets: Seq<(AnimTarget, Seq<int>)>,
    target: AnimTarget,
    n: int,
) -> Seq<int>
    decreases n,
{
    if n <= 0 {
        Seq::empty()
    } else if targets[n - 1].0 == target {
        targets[n - 1].1
    } else {
        lights_for(targets, target, n - 1)
    }
}

/// The updates that the first `n` operations of a frame stand for: each light of
/// the target gets the mode.
pub open spec fn updates(
    targets: Seq<(AnimTarget, Seq<int>)>,
    ops: Seq<(AnimTarget, Mode)>,
    n: int,
) -> Seq<(int, Mode)>
    decreases n,
{
    if n <= 0 {
        Seq::empty()
    } else {
        let (target, mode) = ops[n - 1];
        updates(targets, ops, n - 1) + lights_for(targets, target, targets.len() as int).map_values(
            |i: int| (i, mode),
        )
    }
}

fn place_of(targets: &Vec<(AnimTarget, Vec<usize>)>, target: AnimTarget) -> (r: Option<usize>)
    ensures
        ({
            let models = resolved_models(targets@);
            let chosen = lights_for(models, target, models.len() as int);
            match r {
                Some(k) => k < targets@.len() && places(targets@[k as int].1@) == chosen,
                None => chosen == Seq::<int>::empty(),
            }
        }),
{
    let ghost models = resolved_models(targets@);
    let mut n: usize = targets.len();
    while n > 0
        invariant
            n <= targets@.len(),
            models == resolved_models(targets@),
            lights_for(models, target, models.len() as int) == lights_for(
                models,
                target,
                n as int,
            ),
        decreases n,
    {
        assert(models[n - 1] == (targets@[n - 1].0, places(targets@[n - 1].1@)));
        if targets[n - 1].0 == target {
            return Some(n - 1);
        }
        n -= 1;
    }
    None
}

/// Finds the updates that the operations of a frame stand for, in order.
pub fn frame_updates(targets: &Vec<(AnimTarget, Vec<usize>)>, ops: &Vec<(AnimTarget, Mode)>) -> (r:
    Vec<(usize, Mode)>)
    ensures
        target_models(r@) == updates(resolved_models(targets@), ops@, ops@.len() as int),
{
    let ghost models = resolved_models(targets@);
    let mut r: Vec<(usize, Mode)> = Vec::new();
    let mut n: usize = 0;
    assert(target_models(r@) =~= Seq::<(int, Mode)>::empty());
    while n < ops.len()
        invariant
            n <= ops@.len(),
            models == resolved_models(targets@),
            target_models(r@) == updates(models, ops@, n as int),
        decreases ops.len() - n,
    {
        let (target, mode) = ops[n];
        let ghost before = target_models(r@);
        let ghost chosen = lights_for(models, target, models.len() as int);
        let ghost mapped = chosen.map_values(|i: int| (i, mode));
        if let Some(k) = place_of(targets, target) {
            let indices = &targets[k].1;
            let mut i: usize = 0;
            assert(before + mapped.take(0) =~= before);
            while i < indices.len()
                invariant
                    i <= indices@.len(),
                    places(indices@) == chosen,
                    mapped == chosen.map_values(|i: int| (i, mode)),
                    target_models(r@) == before + mapped.take(i as int),
                decreases indices.len() - i,
            {
                let ghost all = r@;
                r.push((indices[i], mode));
                assert(chosen[i as int] == indices@[i as int]);
                assert(target_models(r@) =~= target_models(all).push(mapped[i as int]));
                assert(mapped.take(i + 1) =~= mapped.take(i as int).push(mapped[i as int]));
                i += 1;
            }
            assert(mapped.take(i as int) =~= mapped);
        } else {
            assert(before + mapped =~= before);
        }
        n += 1;
    }
    r
}

/// Every target stands once among those resolved.
pub open spec fn resolved_once(targets: Seq<(AnimTarget, Seq<int>)>) -> bool {
    forall|i: int, j: int|
        0 <= i < j < targets.len() ==> (#[trigger] targets[i]).0 != (#[trigger] targets[j]).0
}

proof fn lights_of_target(targets: Seq<(AnimTarget, Seq<int>)>, t: int, n: int)
    requires
        resolved_once(targets),
        0 <= t < n <= targets.len(),
    ensures
        lights_for(targets, targets[t].0, n) == targets[t].1,
    decreases n,
{
    if t < n - 1 {
        assert(targets[t].0 != targets[n - 1].0);
        lights_of_target(targets, t, n - 1);
    }
}

proof fn updates_begin(
    targets: Seq<(AnimTarget, Seq<int>)>,
    ops: Seq<(AnimTarget, Mode)>,
    k: int,
    n: int,
)
    requires
        0 <= k <= n <= ops.len(),
    ensures
        updates(targets, ops, k).len() <= updates(targets, ops, n).len(),
        forall|i: int|
            0 <= i < updates(targets, ops, k).len() ==> updates(targets, ops, k)[i] == #[trigger]
                updates(targets, ops, n)[i],
    decreases n - k,
{
    if k < n {
        updates_begin(targets, ops, k, n - 1);
    }
}

/// An operation of a frame sets every light of its target, in order, to its mode. The
/// operations follow one another: the lights of one come right after those of the
/// operations before it.
pub proof fn operations_set_the_lights_of_their_target(
    targets: Seq<(AnimTarget, Seq<int>)>,
    ops: Seq<(AnimTarget, Mode)>,
    k: int,
    t: int,
)
    requires
        resolved_once(targets),
        0 <= k < ops.len(),
        0 <= t < targets.len(),
        ops[k].0 == targets[t].0,
    ensures
        ({
            let all = updates(targets, ops, ops.len() as int);
            let start = updates(targets, ops, k).len();
            let lights = targets[t].1;
            &&& k == 0 ==> start == 0
            &&& updates(targets, ops, k + 1).len() == start + lights.len()
            &&& start + lights.len() <= all.len()
            &&& forall|i: int|
                0 <= i < lights.len() ==> all[start + i] == ((#[trigger] lights[i]), ops[k].1)
            &&& k == ops.len() - 1 ==> all.len() == start + lights.len()
        }),
{
    lights_of_target(targets, t, targets.len() as int);
    updates_begin(targets, ops, k + 1, ops.len() as int);
    let start = updates(targets, ops, k).len();
    let lights = targets[t].1;
    let all = updates(targets, ops, ops.len() as int);
    assert forall|i: int| 0 <= i < lights.len() implies all[start + i] == (
        (#[trigger] lights[i]),
        ops[k].1,
    ) by {
        assert(updates(targets, ops, k + 1)[start + i] == (lights[i], ops[k].1));
    }
}

proof fn no_lights(targets: Seq<(AnimTarget, Seq<int>)>, target: AnimTarget, n: int)
    requires
        0 <= n <= targets.len(),
        forall|i: int| 0 <= i < targets.len() ==> (#[trigger] targets[i]).0 != target,
    ensures
        lights_for(targets, target, n).len() == 0,
    decreases n,
{
    if n > 0 {
        assert(targets[n - 1].0 != target);
        no_lights(targets, target, n - 1);
    }
}

/// An operation whose target plays no light sets none.
pub proof fn operations_without_lights_set_nothing(
    targets: Seq<(AnimTarget, Seq<int>)>,
    ops: Seq<(AnimTarget, Mode)>,
    k: int,
)
    requires
        0 <= k < ops.len(),
        forall|i: int| 0 <= i < targets.len() ==> (#[trigger] targets[i]).0 != ops[k].0,
    ensures
        updates(targets, ops, k + 1) == updates(targets, ops, k),
{
    no_lights(targets, ops[k].0, targets.len() as int);
}

} // verus!
