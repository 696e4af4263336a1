//! The clock-free schedule of an animation's playback.
use vstd::prelude::*;
use std::collections::VecDeque;
use crate::animation::{lookup, AnimTarget, Animation, Keyframe, PlaybackOptions, Single};
use crate::fade::{
    between, dimmed, interpolate, scale_brightness, scaled_duration, scaled_durations_are_bounded,
    scaled_ms, scaled_zero,
};
use crate::mode::Mode;

verus! {

/// A group of target updates scheduled at one playback-relative instant.
#[derive(Clone, Debug, PartialEq, Eq)]
pub struct Frame {
    pub at_ms: u64,
    pub ops: Vec<(AnimTarget, Mode)>,
}

/// What a frame holds.
#[verifier::ext_equal]
pub struct FrameModel {
    pub at: int,
    pub ops: Seq<(AnimTarget, Mode)>,
}

impl View for Frame {
    type V = FrameModel;

    open spec fn view(&self) -> FrameModel {
        FrameModel { at: self.at_ms as int, ops: self.ops@ }
    }
}

/// What a frame holds, if there is one.
pub open spec fn model_of(frame: Option<Frame>) -> Option<FrameModel> {
    match frame {
        Some(frame) => Some(frame@),
        None => None,
    }
}

/// What frames hold.
pub open spec fn frame_models(frames: Seq<Frame>) -> Seq<FrameModel> {
    frames.map_values(|frame: Frame| frame@)
}

/// More milliseconds than any one keyframe takes.
pub const SPAN_LIMIT: u64 = 0x40_0000_0000;

/// The milliseconds between two steps of a fade.
pub open spec fn step_length(fps: int) -> int {
    if 1000int / fps < 33 {
        33
    } else {
        1000int / fps
    }
}

/// What a fade sets one target to in step `k` of `n`: the mode on the way from
/// what the keyframe before set, or, where there is no way between the two, the
/// mode itself in the last step and nothing before it. A target that the
/// keyframe before does not name fades from its own mode.
pub open spec fn step_op(
    previous: Seq<(AnimTarget, Mode)>,
    entry: (AnimTarget, Mode),
    k: int,
    n: int,
) -> Option<Mode> {
    let prior = match lookup(previous, entry.0) {
        Some(mode) => mode,
        None => entry.1,
    };
    match between(prior, entry.1, k, n) {
        Some(mode) => Some(mode),
        None => if k == n {
            Some(entry.1)
        } else {
            None
        },
    }
}

/// What a fade sets in step `k` of `n`.
pub open(crate) spec fn step_ops(
    previous: Seq<(AnimTarget, Mode)>,
    current: Seq<(AnimTarget, Mode)>,
    k: int,
    n: int,
    scale: Single,
) -> Seq<(AnimTarget, Mode)>
    decreases current.len(),
{
    if current.len() == 0 {
        Seq::empty()
    } else {
        let head = step_ops(previous, current.drop_last(), k, n, scale);
        match step_op(previous, current.last(), k, n) {
            Some(mode) => head.push((current.last().0, dimmed(mode, scale))),
            None => head,
        }
    }
}

/// What a keyframe sets at once.
pub open(crate) spec fn hold_ops(
    current: Seq<(AnimTarget, Mode)>,
    scale: Single,
) -> Seq<(AnimTarget, Mode)> {
    current.map_values(|entry: (AnimTarget, Mode)| (entry.0, dimmed(entry.1, scale)))
}

/// The frames of the first `k` of `n` steps of a fade; a step that sets nothing
/// has none.
pub open(crate) spec fn fade_frames(
    previous: Seq<(AnimTarget, Mode)>,
    current: Seq<(AnimTarget, Mode)>,
    at: int,
    step: int,
    k: int,
    n: int,
    scale: Single,
) -> Seq<FrameModel>
    decreases k,
{
    if k <= 0 {
        Seq::empty()
    } else {
        let head = fade_frames(previous, current, at, step, k - 1, n, scale);
        let ops = step_ops(previous, current, k, n, scale);
        if ops.len() == 0 {
            head
        } else {
            head.push(FrameModel { at: at + (k - 1) * step, ops })
        }
    }
}

/// Where a playback stands: the loop and the keyframe that come next, their
/// start, whether the playback is over, and the frames that are still to come
/// before them.
#[verifier::ext_equal]
pub struct Playhead {
    pub loop_index: int,
    pub keyframe: int,
    pub at: int,
    pub done: bool,
    pub pending: Seq<FrameModel>,
}

/// The beginning of a playback.
pub open spec fn beginning() -> Playhead {
    Playhead { loop_index: 0, keyframe: 0, at: 0, done: false, pending: Seq::empty() }
}

/// What a playback follows.
pub struct Plan {
    pub keyframes: Seq<Keyframe>,
    pub speed: Single,
    pub scale: Single,
    pub step: int,
    pub looping: bool,
    pub limit: Option<int>,
}

/// Whether an animation loops with the given controls.
pub open spec fn loops(animation: Animation, options: PlaybackOptions) -> bool {
    match options.loop_override {
        Some(looping) => looping,
        None => animation.loop_default,
    }
}

/// What the playback of an animation follows.
pub open spec fn plan_of(animation: Animation, options: PlaybackOptions) -> Plan {
    Plan {
        keyframes: animation.keyframes@,
        speed: options.speed,
        scale: options.bri_scale,
        step: step_length(options.fps as int),
        looping: loops(animation, options),
        limit: if loops(animation, options) && options.max_loops > 0 {
            Some(options.max_loops as int)
        } else {
            None
        },
    }
}

/// The keyframe that sets something.
pub open spec fn is_lit(keyframe: Keyframe) -> bool {
    keyframe.lights@.len() > 0
}

impl Plan {
    /// The controls are valid.
    pub open spec fn wf(self) -> bool {
        &&& self.speed.is_speed()
        &&& self.scale.is_fraction()
        &&& 33 <= self.step <= 1000
        &&& self.limit matches Some(limit) ==> self.looping && 0 < limit <= u32::MAX
    }

    /// The playback never ends by itself.
    pub open spec fn endless(self) -> bool {
        self.looping && self.limit is None
    }

    /// The number of times that the keyframes are played.
    pub open spec fn rounds(self) -> int {
        if self.looping {
            self.limit->0
        } else {
            1
        }
    }

    /// The keyframe that is on when keyframe `i` of a loop begins.
    pub open spec fn previous(self, loop_index: int, i: int) -> Option<int> {
        if i > 0 {
            Some(i - 1)
        } else if loop_index > 0 && self.looping {
            Some(self.keyframes.len() - 1)
        } else {
            None
        }
    }

    /// The milliseconds of the fade into a keyframe. At the seam of a loop, a
    /// first keyframe without a fade takes that of the last.
    pub open spec fn fade(self, loop_index: int, i: int) -> int {
        let own = scaled_duration(self.keyframes[i].fade_ms as int, self.speed);
        if self.previous(loop_index, i) is None {
            0
        } else if i == 0 && own == 0 {
            scaled_duration(self.keyframes.last().fade_ms as int, self.speed)
        } else {
            own
        }
    }

    /// The number of steps of a fade.
    pub open spec fn steps(self, fade: int) -> int {
        if fade / self.step < 1 {
            1
        } else {
            fade / self.step
        }
    }

    /// The milliseconds that a fade takes, in whole steps.
    pub open spec fn fade_span(self, loop_index: int, i: int) -> int {
        let fade = self.fade(loop_index, i);
        if fade > 0 {
            self.steps(fade) * self.step
        } else {
            0
        }
    }

    /// The milliseconds for which a keyframe stays, in whole polls of 50.
    pub open spec fn hold_span(self, i: int) -> int {
        let hold = scaled_duration(self.keyframes[i].hold_ms as int, self.speed);
        if hold < 50 {
            50
        } else {
            hold / 50 * 50
        }
    }

    /// The milliseconds from the beginning of a keyframe to that of the next.
    pub open spec fn span(self, loop_index: int, i: int) -> int {
        self.fade_span(loop_index, i) + self.hold_span(i)
    }

    /// The frames of a keyframe that begins at a given time.
    pub open(crate) spec fn frames(self, loop_index: int, i: int, at: int) -> Seq<FrameModel> {
        let current = self.keyframes[i].lights@;
        let fade = self.fade(loop_index, i);
        if fade > 0 {
            let before = self.previous(loop_index, i)->0;
            let n = self.steps(fade);
            fade_frames(self.keyframes[before].lights@, current, at, self.step, n, n, self.scale)
        } else {
            seq![FrameModel { at, ops: hold_ops(current, self.scale) }]
        }
    }

    /// The playback ends with this loop.
    pub open spec fn ends_after(self, loop_index: int) -> bool {
        !self.looping || (self.limit matches Some(limit) && loop_index + 1 >= limit)
    }

    /// The playback after the frames of the next keyframe have been queued.
    pub open(crate) spec fn queued(self, head: Playhead) -> Playhead {
        let n = self.keyframes.len() as int;
        if head.done || n == 0 {
            head
        } else {
            let l = head.loop_index;
            let i = head.keyframe;
            let at = head.at + self.span(l, i);
            let pending = head.pending + self.frames(l, i, head.at);
            if i + 1 < n {
                Playhead { loop_index: l, keyframe: i + 1, at, done: false, pending }
            } else if self.ends_after(l) {
                Playhead { loop_index: l + 1, keyframe: i + 1, at, done: true, pending }
            } else {
                Playhead { loop_index: l + 1, keyframe: 0, at, done: false, pending }
            }
        }
    }

    /// The playback after the frames of the next `k` keyframes have been queued.
    pub open(crate) spec fn after(self, head: Playhead, k: nat) -> Playhead
        decreases k,
    {
        if k == 0 {
            head
        } else {
            self.queued(self.after(head, (k - 1) as nat))
        }
    }

    /// A place that the playback can be at.
    pub open spec fn on_track(self, head: Playhead) -> bool {
        let n = self.keyframes.len();
        ||| head.done
        ||| n == 0
        ||| {
            &&& 0 <= head.keyframe < n
            &&& 0 <= head.loop_index
            &&& !self.looping ==> head.loop_index == 0
            &&& self.limit matches Some(limit) ==> head.loop_index < limit
        }
    }

    /// A keyframe has frames: it sets something, or it sets nothing at once. The
    /// steps of a fade that set nothing have none.
    pub open spec fn yields(self, loop_index: int, i: int) -> bool {
        is_lit(self.keyframes[i]) || self.fade(loop_index, i) == 0
    }

    /// The next frame is there or the playback is over when `k` keyframes have been
    /// queued, and not before.
    pub open(crate) spec fn ready_after(self, head: Playhead, k: nat) -> bool {
        let there = self.after(head, k);
        &&& forall|j: nat|
            #![trigger self.after(head, j)]
            j < k ==> self.after(head, j).pending.len() == 0 && !self.after(head, j).done
        &&& there.pending.len() > 0 || there.done || self.keyframes.len() == 0
    }

    /// The time and the number of the loop can be counted.
    pub open spec fn counted(self, head: Playhead) -> bool {
        head.at <= u64::MAX && head.loop_index <= u32::MAX
    }

    /// The next frame or the end of the playback comes, and the place after it can
    /// be counted.
    pub open(crate) spec fn room(self, head: Playhead) -> bool {
        exists|k: nat| #[trigger] self.ready_after(head, k) && self.counted(self.after(head, k))
    }

    /// The time from the beginning of a loop to its keyframe `i`.
    pub open spec fn loop_time(self, loop_index: int, i: int) -> int
        decreases i,
    {
        if i <= 0 {
            0
        } else {
            self.loop_time(loop_index, i - 1) + self.span(loop_index, i - 1)
        }
    }

    /// The time from the beginning of a playback to its loop `l`.
    pub open spec fn total_time(self, l: int) -> int
        decreases l,
    {
        if l <= 0 {
            0
        } else {
            self.total_time(l - 1) + self.loop_time(l - 1, self.keyframes.len() as int)
        }
    }
}

/// A keyframe takes at least 50 milliseconds and less than a fixed bound, a fade
/// no more than its time or one step.
pub proof fn spans_are_bounded(plan: Plan, loop_index: int, i: int)
    requires
        plan.wf(),
        0 <= i < plan.keyframes.len(),
    ensures
        50 <= plan.span(loop_index, i) < SPAN_LIMIT,
        0 <= plan.fade(loop_index, i) <= 0x10_0000_0000,
        plan.fade(loop_index, i) > 0 ==> 1 <= plan.steps(plan.fade(loop_index, i)) < 0x1_0000_0000,
        0 <= plan.fade_span(loop_index, i) <= 0x10_0000_0000 + 1000,
{
    let speed = plan.speed;
    scaled_durations_are_bounded(plan.keyframes[i].hold_ms as int, speed);
    scaled_durations_are_bounded(plan.keyframes[i].fade_ms as int, speed);
    scaled_durations_are_bounded(plan.keyframes.last().fade_ms as int, speed);
    let fade = plan.fade(loop_index, i);
    let step = plan.step;
    let n = fade / step;
    if fade > 0 {
        assert(n * step <= fade && n < 0x1_0000_0000) by (nonlinear_arith)
            requires
                33 <= step,
                n == fade / step,
                0 <= fade <= 0x10_0000_0000,
        ;
        assert(plan.steps(fade) * step <= fade + step) by (nonlinear_arith)
            requires
                n * step <= fade,
                plan.steps(fade) == n || plan.steps(fade) == 1,
                step > 0,
                fade > 0,
        ;
        assert(plan.steps(fade) * step >= 0) by (nonlinear_arith)
            requires
                plan.steps(fade) >= 1,
                step > 0,
        ;
    }
}

/// Every step of a fade but the last may set nothing; the last one sets every
/// target that the keyframe names.
pub proof fn last_step_sets_every_target(
    previous: Seq<(AnimTarget, Mode)>,
    current: Seq<(AnimTarget, Mode)>,
    n: int,
    scale: Single,
)
    ensures
        step_ops(previous, current, n, n, scale).len() == current.len(),
        forall|i: int|
            0 <= i < current.len() ==> (#[trigger] step_ops(
                previous,
                current,
                n,
                n,
                scale,
            )[i]).0 == current[i].0,
    decreases current.len(),
{
    if current.len() > 0 {
        last_step_sets_every_target(previous, current.drop_last(), n, scale);
        let head = step_ops(previous, current.drop_last(), n, n, scale);
        let all = step_ops(previous, current, n, n, scale);
        assert forall|i: int| 0 <= i < current.len() implies (#[trigger] all[i]).0
            == current[i].0 by {
            if i < current.len() - 1 {
                assert(all[i] == head[i]);
                assert(current.drop_last()[i] == current[i]);
            }
        }
    }
}

proof fn lit_keyframes_have_frames(plan: Plan, loop_index: int, i: int, at: int)
    requires
        plan.wf(),
        0 <= i < plan.keyframes.len(),
        is_lit(plan.keyframes[i]),
    ensures
        plan.frames(loop_index, i, at).len() > 0,
{
    spans_are_bounded(plan, loop_index, i);
    let fade = plan.fade(loop_index, i);
    if fade > 0 {
        let before = plan.keyframes[plan.previous(loop_index, i)->0].lights@;
        last_step_sets_every_target(
            before,
            plan.keyframes[i].lights@,
            plan.steps(fade),
            plan.scale,
        );
    }
}

proof fn dark_fades_have_no_frames(
    previous: Seq<(AnimTarget, Mode)>,
    at: int,
    step: int,
    k: int,
    n: int,
    scale: Single,
)
    ensures
        fade_frames(previous, Seq::empty(), at, step, k, n, scale).len() == 0,
    decreases k,
{
    if k > 0 {
        dark_fades_have_no_frames(previous, at, step, k - 1, n, scale);
    }
}

proof fn keyframes_that_yield_have_frames(plan: Plan, loop_index: int, i: int, at: int)
    requires
        plan.wf(),
        0 <= i < plan.keyframes.len(),
    ensures
        plan.yields(loop_index, i) <==> plan.frames(loop_index, i, at).len() > 0,
{
    spans_are_bounded(plan, loop_index, i);
    let fade = plan.fade(loop_index, i);
    if is_lit(plan.keyframes[i]) {
        lit_keyframes_have_frames(plan, loop_index, i, at);
    } else if fade > 0 {
        let n = plan.steps(fade);
        let before = plan.keyframes[plan.previous(loop_index, i)->0].lights@;
        assert(plan.keyframes[i].lights@ =~= Seq::<(AnimTarget, Mode)>::empty());
        dark_fades_have_no_frames(before, at, plan.step, n, n, plan.scale);
    }
}

/// Queueing keyframes goes forward.
proof fn queueing_goes_forward(plan: Plan, head: Playhead, k: nat)
    requires
        plan.wf(),
        plan.on_track(head),
    ensures
        plan.on_track(plan.after(head, k)),
        plan.after(head, k).at >= head.at,
        plan.after(head, k).loop_index >= head.loop_index,
        plan.after(head, k).pending.len() >= head.pending.len(),
    decreases k,
{
    if k > 0 {
        queueing_goes_forward(plan, head, (k - 1) as nat);
        let before = plan.after(head, (k - 1) as nat);
        if !before.done && plan.keyframes.len() > 0 {
            spans_are_bounded(plan, before.loop_index, before.keyframe);
        }
    }
}

/// The frame that is waited for is not there yet, so more keyframes have to be queued
/// and the next one can be counted.
proof fn waiting_goes_on(plan: Plan, start: Playhead, k: nat, last: nat)
    requires
        plan.wf(),
        plan.on_track(start),
        plan.ready_after(start, last),
        plan.counted(plan.after(start, last)),
        k <= last,
        plan.after(start, k).pending.len() == 0,
        !plan.after(start, k).done,
        plan.keyframes.len() > 0,
    ensures
        k < last,
        plan.on_track(plan.after(start, k)),
        plan.counted(plan.queued(plan.after(start, k))),
{
    queueing_goes_forward(plan, start, k);
    queueing_goes_forward(plan, start, k + 1);
    assert(plan.after(start, k + 1) == plan.queued(plan.after(start, k)));
    let rest = (last - k - 1) as nat;
    queueing_goes_forward(plan, plan.after(start, k + 1), rest);
    after_adds(plan, start, k + 1, rest);
}

/// There is no room where nothing has come yet and what comes next cannot be counted.
proof fn no_room(plan: Plan, start: Playhead, k: nat)
    requires
        plan.wf(),
        plan.on_track(start),
        plan.keyframes.len() > 0,
        forall|j: nat|
            #![trigger plan.after(start, j)]
            j <= k ==> plan.after(start, j).pending.len() == 0 && !plan.after(start, j).done,
        !plan.counted(plan.after(start, k + 1)),
    ensures
        !plan.room(start),
{
    if plan.room(start) {
        let last = choose|last: nat| #[trigger]
            plan.ready_after(start, last) && plan.counted(plan.after(start, last));
        if last <= k {
            assert(plan.after(start, last).pending.len() == 0);
        }
        queueing_goes_forward(plan, start, k + 1);
        queueing_goes_forward(plan, plan.after(start, k + 1), (last - k - 1) as nat);
        after_adds(plan, start, k + 1, (last - k - 1) as nat);
    }
}

/// An endless playback of keyframes without frames has none after its first keyframe.
proof fn silence_goes_on(plan: Plan, head: Playhead, k: nat)
    requires
        plan.wf(),
        plan.on_track(head),
        plan.endless(),
        plan.keyframes.len() > 0,
        head.pending.len() == 0,
        !head.done,
        head.loop_index > 0 || head.keyframe > 0,
        forall|i: int| 0 <= i < plan.keyframes.len() ==> !#[trigger] plan.yields(1, i),
    ensures
        plan.after(head, k).pending.len() == 0,
        !plan.after(head, k).done,
        plan.after(head, k).loop_index > 0 || plan.after(head, k).keyframe > 0,
        plan.on_track(plan.after(head, k)),
    decreases k,
{
    if k > 0 {
        silence_goes_on(plan, head, (k - 1) as nat);
        let before = plan.after(head, (k - 1) as nat);
        let l = before.loop_index;
        let i = before.keyframe;
        assert(!plan.yields(1, i));
        assert(plan.fade(l, i) == plan.fade(1, i));
        keyframes_that_yield_have_frames(plan, l, i, before.at);
    }
}

/// What taking the next frame does: keyframes are queued until there is a frame or
/// the playback is over; then the first frame that is queued is taken, if there is
/// one.
pub open(crate) spec fn pulls(
    plan: Plan,
    before: Playhead,
    after: Playhead,
    taken: Option<FrameModel>,
) -> bool {
    exists|k: nat| #[trigger] pulls_after(plan, before, after, taken, k)
}

/// The next frame is taken after `k` keyframes have been queued.
pub open(crate) spec fn pulls_after(
    plan: Plan,
    before: Playhead,
    after: Playhead,
    taken: Option<FrameModel>,
    k: nat,
) -> bool {
    let head = plan.after(before, k);
    &&& forall|j: nat|
        #![trigger plan.after(before, j)]
        j < k ==> plan.after(before, j).pending.len() == 0 && !plan.after(before, j).done
    &&& match taken {
        Some(frame) => head.pending.len() > 0 && frame == head.pending[0] && after == (Playhead {
            pending: head.pending.drop_first(),
            ..head
        }),
        None => head.pending.len() == 0 && (head.done || plan.keyframes.len() == 0) && after
            == head,
    }
}

/// A clock-free iteration over an entire playback.
pub struct Schedule<'a> {
    anim: &'a Animation,
    speed: Single,
    step_ms: u64,
    bri_scale: Single,
    looping: bool,
    loop_limit: Option<u32>,
    loop_index: u32,
    keyframe_index: usize,
    at_ms: u64,
    pending: VecDeque<Frame>,
    done: bool,
}

impl<'a> View for Schedule<'a> {
    type V = Playhead;

    closed spec fn view(&self) -> Playhead {
        Playhead {
            loop_index: self.loop_index as int,
            keyframe: self.keyframe_index as int,
            at: self.at_ms as int,
            done: self.done,
            pending: frame_models(self.pending@),
        }
    }
}

/// Builds a clock-free iteration over an entire playback.
pub fn schedule<'a>(anim: &'a Animation, opts: &PlaybackOptions) -> (r: Schedule<'a>)
    requires
        opts.wf(),
    ensures
        r.wf(),
        r.plan() == plan_of(*anim, *opts),
        r@ == beginning(),
{
    let looping = match opts.loop_override {
        Some(looping) => looping,
        None => anim.loop_default,
    };
    let r = Schedule {
        anim,
        speed: opts.speed,
        step_ms: step_ms(opts.fps),
        bri_scale: opts.bri_scale,
        looping,
        loop_limit: if looping && opts.max_loops > 0 {
            Some(opts.max_loops)
        } else {
            None
        },
        loop_index: 0,
        keyframe_index: 0,
        at_ms: 0,
        pending: VecDeque::new(),
        done: false,
    };
    assert(r@ =~= beginning());
    r
}

fn step_ms(fps: u8) -> (r: u64)
    requires
        1 <= fps <= 30,
    ensures
        r == step_length(fps as int),
        33 <= r <= 1000,
{
    let step: u64 = 1000 / fps as u64;
    proof {
        let f = fps as int;
        assert(1000int / f <= 1000) by (nonlinear_arith)
            requires
                f >= 1,
        ;
    }
    if step < 33 {
        33
    } else {
        step
    }
}

fn fade_step(
    previous: &Keyframe,
    current: &Keyframe,
    k: u64,
    n: u64,
    scale: Single,
) -> (ops: Vec<(AnimTarget, Mode)>)
    requires
        1 <= k <= n < 0x1_0000_0000,
        scale.is_fraction(),
    ensures
        ops@ == step_ops(previous.lights@, current.lights@, k as int, n as int, scale),
{
    let entries = current.lights.as_slice();
    let mut ops: Vec<(AnimTarget, Mode)> = Vec::new();
    let mut i: usize = 0;
    while i < entries.len()
        invariant
            i <= entries@.len(),
            entries@ == current.lights@,
            1 <= k <= n < 0x1_0000_0000,
            scale.is_fraction(),
            ops@ == step_ops(
                previous.lights@,
                entries@.take(i as int),
                k as int,
                n as int,
                scale,
            ),
        decreases entries.len() - i,
    {
        let (target, mode) = entries[i];
        let prior = match previous.lights.get(target) {
            Some(prior) => prior,
            None => mode,
        };
        proof {
            assert(entries@.take(i + 1).drop_last() =~= entries@.take(i as int));
            assert(entries@.take(i + 1).last() == (target, mode));
        }
        match interpolate(prior, mode, k, n) {
            Some(mode) => {
                ops.push((target, scale_brightness(mode, scale)));
            },
            None => {
                if k == n {
                    ops.push((target, scale_brightness(mode, scale)));
                }
            },
        }
        i += 1;
    }
    assert(entries@.take(i as int) =~= entries@);
    ops
}

fn hold_step(current: &Keyframe, scale: Single) -> (ops: Vec<(AnimTarget, Mode)>)
    requires
        scale.is_fraction(),
    ensures
        ops@ == hold_ops(current.lights@, scale),
{
    let entries = current.lights.as_slice();
    let mut ops: Vec<(AnimTarget, Mode)> = Vec::new();
    let mut i: usize = 0;
    while i < entries.len()
        invariant
            i <= entries@.len(),
            entries@ == current.lights@,
            scale.is_fraction(),
            ops@ == hold_ops(entries@.take(i as int), scale),
        decreases entries.len() - i,
    {
        let (target, mode) = entries[i];
        ops.push((target, scale_brightness(mode, scale)));
        assert(ops@ =~= hold_ops(entries@.take(i + 1), scale));
        i += 1;
    }
    assert(entries@.take(i as int) =~= entries@);
    ops
}

impl<'a> Schedule<'a> {
    /// What the playback follows.
    pub closed spec fn plan(self) -> Plan {
        Plan {
            keyframes: self.anim.keyframes@,
            speed: self.speed,
            scale: self.bri_scale,
            step: self.step_ms as int,
            looping: self.looping,
            limit: match self.loop_limit {
                Some(limit) => Some(limit as int),
                None => None,
            },
        }
    }

    /// The controls are valid, and the playback is at a place that it can be at.
    pub open spec fn wf(self) -> bool {
        self.plan().wf() && self.plan().on_track(self@)
    }

    /// Tells whether the next frame can be asked for.
    pub fn has_room(&self) -> (r: bool)
        requires
            self.wf(),
        ensures
            r == self.plan().room(self@),
    {
        let ghost plan = self.plan();
        let ghost start = self@;
        let n: usize = self.anim.keyframes.len();
        if self.pending.len() > 0 || self.done || n == 0 {
            assert(plan.ready_after(start, 0) && plan.counted(plan.after(start, 0)));
            return true;
        }
        let endless = self.looping && self.loop_limit.is_none();
        let sure: usize = self.first_sure();
        if endless && sure == n && (self.loop_index > 0 || self.keyframe_index > 0) {
            proof {
                if plan.room(start) {
                    let last = choose|last: nat| #[trigger]
                        plan.ready_after(start, last) && plan.counted(plan.after(start, last));
                    silence_goes_on(plan, start, last);
                }
            }
            return false;
        }
        let mut l: u32 = self.loop_index;
        let mut i: usize = self.keyframe_index;
        let mut at: u64 = self.at_ms;
        let ghost mut k: nat = 0;
        let ghost rounds = plan.rounds();
        loop
            invariant
                self.wf(),
                plan == self.plan(),
                start == self@,
                n == self.anim.keyframes@.len(),
                n > 0,
                rounds == plan.rounds(),
                endless == plan.endless(),
                sure <= n,
                sure < n ==> plan.yields(1, sure as int),
                endless && sure == n ==> l == 0 && i == 0,
                ({
                    let there = plan.after(start, k);
                    &&& plan.on_track(there)
                    &&& there.loop_index == l
                    &&& there.keyframe == i
                    &&& there.at == at
                }),
                forall|j: nat|
                    #![trigger plan.after(start, j)]
                    j <= k ==> plan.after(start, j).pending.len() == 0 && !plan.after(
                        start,
                        j,
                    ).done,
            decreases
                    if endless {
                        if i <= sure {
                            sure - i
                        } else {
                            n - i + sure
                        }
                    } else {
                        (rounds - l) * n - i
                    },
        {
            let ghost there = plan.after(start, k);
            let ghost next = plan.after(start, k + 1);
            assert(next == plan.queued(there));
            proof {
                spans_are_bounded(plan, l as int, i as int);
                keyframes_that_yield_have_frames(plan, l as int, i as int, there.at);
                queueing_goes_forward(plan, start, k + 1);
                assert(there.pending + plan.frames(l as int, i as int, at as int) =~= plan.frames(
                    l as int,
                    i as int,
                    at as int,
                ));
                assert((rounds - l) * n == (rounds - l - 1) * n + n) by (nonlinear_arith);
            }
            let fade: u64 = fade_into(self.anim, self.looping, self.speed, l, i);
            let span: u64 = span_of(self.anim, self.speed, self.step_ms, fade, i);
            if at > u64::MAX - span {
                proof {
                    no_room(plan, start, k);
                }
                return false;
            }
            let wraps = i + 1 == n;
            if wraps && l == u32::MAX {
                proof {
                    no_room(plan, start, k);
                }
                return false;
            }
            let ended = wraps && (!self.looping || match self.loop_limit {
                Some(limit) => l + 1 >= limit,
                None => false,
            });
            if ended || fade == 0 || self.anim.keyframes[i].lights.as_slice().len() > 0 {
                assert(plan.ready_after(start, k + 1) && plan.counted(next));
                return true;
            }
            proof {
                if endless {
                    assert(plan.fade(l as int, i as int) > 0);
                    if i == sure {
                        assert(plan.fade(l as int, i as int) == plan.fade(1, i as int));
                    }
                } else {
                    assert((rounds - l - 1) * n >= 0) by (nonlinear_arith)
                        requires
                            rounds - l >= 1,
                            n >= 0,
                    ;
                }
                k = k + 1;
            }
            at = at + span;
            if wraps {
                l = l + 1;
                i = 0;
            } else {
                i = i + 1;
            }
        }
    }

    /// The first keyframe that has frames in every loop, or the number of keyframes.
    fn first_sure(&self) -> (r: usize)
        requires
            self.wf(),
            self.anim.keyframes@.len() > 0,
        ensures
            r <= self.anim.keyframes@.len(),
            r < self.anim.keyframes@.len() ==> self.plan().yields(1, r as int),
            r == self.anim.keyframes@.len() ==> forall|i: int|
                0 <= i < r ==> !#[trigger] self.plan().yields(1, i),
    {
        let mut i: usize = 0;
        while i < self.anim.keyframes.len()
            invariant
                self.wf(),
                i <= self.anim.keyframes@.len(),
                forall|j: int| 0 <= j < i ==> !#[trigger] self.plan().yields(1, j),
            decreases self.anim.keyframes.len() - i,
        {
            if self.anim.keyframes[i].lights.as_slice().len() > 0 || fade_into(
                self.anim,
                self.looping,
                self.speed,
                1,
                i,
            ) == 0 {
                return i;
            }
            i += 1;
        }
        i
    }

    /// Takes the next frame of the playback: the first one that is queued, after
    /// keyframes have been queued until there is one or the playback is over.
    pub fn next(&mut self) -> (r: Option<Frame>)
        requires
            old(self).wf(),
            old(self).plan().room(old(self)@),
        ensures
            final(self).wf(),
            final(self).plan() == old(self).plan(),
            pulls(old(self).plan(), old(self)@, final(self)@, model_of(r)),
    {
        let ghost start = self@;
        let ghost plan = self.plan();
        let ghost last = choose|last: nat| #[trigger]
            plan.ready_after(start, last) && plan.counted(plan.after(start, last));
        let ghost mut k: nat = 0;
        loop
            invariant
                self.wf(),
                self.plan() == plan,
                plan == old(self).plan(),
                start == old(self)@,
                plan.on_track(start),
                plan.ready_after(start, last),
                plan.counted(plan.after(start, last)),
                plan.keyframes.len() > 0 ==> k <= last,
                self@ == plan.after(start, k),
                forall|j: nat|
                    #![trigger plan.after(start, j)]
                    j < k ==> plan.after(start, j).pending.len() == 0 && !plan.after(start, j).done,
            decreases last - k,
        {
            let ghost head = self@;
            if self.pending.len() > 0 {
                let frame = self.pending.pop_front();
                assert(self@ =~= Playhead { pending: head.pending.drop_first(), ..head });
                assert(pulls_after(plan, start, self@, Some(head.pending[0]), k));
                return frame;
            }
            if self.done || self.anim.keyframes.len() == 0 {
                assert(pulls_after(plan, start, self@, None, k));
                return None;
            }
            proof {
                waiting_goes_on(plan, start, k, last);
            }
            self.queue_keyframe();
            proof {
                k = k + 1;
            }
        }
    }

    fn queue_keyframe(&mut self)
        requires
            old(self).wf(),
            !old(self)@.done,
            old(self).plan().keyframes.len() > 0,
            old(self).plan().counted(old(self).plan().queued(old(self)@)),
        ensures
            final(self).wf(),
            final(self).plan() == old(self).plan(),
            final(self)@ == old(self).plan().queued(old(self)@),
    {
        let ghost plan = self.plan();
        let ghost head = self@;
        let ghost l = head.loop_index;
        let ghost i = head.keyframe;
        let anim = self.anim;
        let count: usize = anim.keyframes.len();
        let keyframe = &anim.keyframes[self.keyframe_index];
        proof {
            spans_are_bounded(plan, l, i);
            scaled_durations_are_bounded(keyframe.hold_ms as int, plan.speed);
            scaled_zero(plan.speed);
        }
        let previous: Option<usize> = if self.keyframe_index > 0 {
            Some(self.keyframe_index - 1)
        } else if self.loop_index > 0 && self.looping {
            Some(count - 1)
        } else {
            None
        };
        let hold: u64 = hold_ms(keyframe, self.speed);
        let fade: u64 = fade_into(
            anim,
            self.looping,
            self.speed,
            self.loop_index,
            self.keyframe_index,
        );
        let mut fading = false;
        if let Some(previous_index) = previous {
            if fade > 0 {
                fading = true;
                let before = &anim.keyframes[previous_index];
                let steps: u64 = if fade / self.step_ms < 1 {
                    1
                } else {
                    fade / self.step_ms
                };
                let ghost step = self.step_ms as int;
                assert(fade == plan.fade(l, i));
                assert(steps == plan.steps(fade as int));
                let mut k: u64 = 0;
                while k < steps
                    invariant
                        k <= steps < 0x1_0000_0000,
                        plan.wf(),
                        plan.scale == self.bri_scale,
                        step == self.step_ms,
                        33 <= step <= 1000,
                        self.at_ms == head.at,
                        head.at + steps * step <= u64::MAX,
                        self.plan() == plan,
                        self@ == (Playhead {
                            pending: head.pending + fade_frames(
                                before.lights@,
                                keyframe.lights@,
                                head.at,
                                step,
                                k as int,
                                steps as int,
                                plan.scale,
                            ),
                            ..head
                        }),
                    decreases steps - k,
                {
                    let ghost pending = self@.pending;
                    let ops = fade_step(before, keyframe, k + 1, steps, self.bri_scale);
                    proof {
                        assert(k * step <= steps * step) by (nonlinear_arith)
                            requires
                                0 <= k <= steps,
                                step >= 0,
                        ;
                        assert(0 <= k * step) by (nonlinear_arith)
                            requires
                                0 <= k,
                                step >= 0,
                        ;
                    }
                    if ops.len() > 0 {
                        let frame = Frame { at_ms: self.at_ms + k * self.step_ms, ops };
                        self.pending.push_back(frame);
                        assert(self@.pending =~= pending.push(frame@));
                        assert(self@.pending =~= head.pending + fade_frames(
                            before.lights@,
                            keyframe.lights@,
                            head.at,
                            step,
                            k + 1,
                            steps as int,
                            plan.scale,
                        ));
                    }
                    k += 1;
                }
                self.at_ms = self.at_ms + steps * self.step_ms;
            }
        }
        if !fading {
            let ghost pending = self@.pending;
            let frame = Frame { at_ms: self.at_ms, ops: hold_step(keyframe, self.bri_scale) };
            self.pending.push_back(frame);
            assert(self@.pending =~= pending.push(frame@));
            assert(self@.pending =~= pending + plan.frames(l, i, head.at));
        }
        self.at_ms = self.at_ms + hold;
        self.advance_keyframe();
    }

    fn advance_keyframe(&mut self)
        requires
            old(self).wf(),
            !old(self)@.done,
            old(self).plan().keyframes.len() > 0,
            old(self)@.keyframe + 1 == old(self).plan().keyframes.len() ==> old(self)@.loop_index
                < u32::MAX,
        ensures
            final(self).wf(),
            final(self).plan() == old(self).plan(),
            ({
                let plan = old(self).plan();
                let head = old(self)@;
                final(self)@ == if head.keyframe + 1 < plan.keyframes.len() {
                    Playhead { keyframe: head.keyframe + 1, ..head }
                } else if plan.ends_after(head.loop_index) {
                    Playhead {
                        loop_index: head.loop_index + 1,
                        keyframe: head.keyframe + 1,
                        done: true,
                        ..head
                    }
                } else {
                    Playhead { loop_index: head.loop_index + 1, keyframe: 0, ..head }
                }
            }),
    {
        let count: usize = self.anim.keyframes.len();
        self.keyframe_index = self.keyframe_index + 1;
        if self.keyframe_index < count {
            return;
        }
        self.loop_index = self.loop_index + 1;
        let reached = match self.loop_limit {
            Some(limit) => self.loop_index >= limit,
            None => false,
        };
        if self.looping && !reached {
            self.keyframe_index = 0;
        } else {
            self.done = true;
        }
    }
}

proof fn times_grow(plan: Plan, l: int, i: int, m: int, j: int)
    requires
        plan.wf(),
        0 <= l,
        0 <= m,
        l < m || (l == m && i <= j),
        0 <= i <= plan.keyframes.len(),
        0 <= j <= plan.keyframes.len(),
    ensures
        0 <= plan.loop_time(l, i),
        0 <= plan.total_time(l),
        plan.total_time(l) + plan.loop_time(l, i) <= plan.total_time(m) + plan.loop_time(m, j),
    decreases m, j, l, i,
{
    let n = plan.keyframes.len() as int;
    if i > 0 {
        times_grow(plan, l, i - 1, l, i - 1);
        spans_are_bounded(plan, l, i - 1);
    }
    if l > 0 {
        times_grow(plan, l - 1, n, l - 1, n);
    }
    if l == m && i == j {
    } else if j > 0 {
        if l == m && i > j - 1 {
        } else {
            times_grow(plan, l, i, m, j - 1);
        }
        spans_are_bounded(plan, m, j - 1);
    } else {
        times_grow(plan, l, i, m - 1, n);
    }
}

/// Whether a playback loops and how many rounds it takes, unless it has no end.
fn count_rounds(anim: &Animation, opts: &PlaybackOptions) -> (r: Option<(bool, u32)>)
    requires
        opts.wf(),
    ensures
        ({
            let plan = plan_of(*anim, *opts);
            match r {
                Some((looping, rounds)) => {
                    &&& !plan.endless()
                    &&& looping == plan.looping
                    &&& rounds == plan.rounds()
                },
                None => plan.endless(),
            }
        }),
{
    let looping = match opts.loop_override {
        Some(looping) => looping,
        None => anim.loop_default,
    };
    if !looping {
        Some((looping, 1))
    } else if opts.max_loops == 0 {
        None
    } else {
        Some((looping, opts.max_loops))
    }
}

/// How long a number of loops takes, or `None` where that is too much to count.
fn time_of_loops(
    anim: &Animation,
    opts: &PlaybackOptions,
    looping: bool,
    rounds: u32,
) -> (r: Option<u64>)
    requires
        opts.wf(),
        looping == plan_of(*anim, *opts).looping,
        !plan_of(*anim, *opts).endless(),
        rounds == plan_of(*anim, *opts).rounds(),
    ensures
        ({
            let time = plan_of(*anim, *opts).total_time(rounds as int);
            match r {
                Some(end) => end == time,
                None => time > u64::MAX,
            }
        }),
{
    let ghost plan = plan_of(*anim, *opts);
    let step: u64 = step_ms(opts.fps);
    let count: usize = anim.keyframes.len();
    let mut duration: u64 = 0;
    let mut l: u32 = 0;
    while l < rounds
        invariant
            opts.wf(),
            plan == plan_of(*anim, *opts),
            plan.wf(),
            plan.rounds() == rounds,
            looping == plan.looping,
            step == plan.step,
            33 <= step <= 1000,
            count == anim.keyframes@.len(),
            l <= rounds,
            duration == plan.total_time(l as int),
        decreases rounds - l,
    {
        let mut i: usize = 0;
        while i < count
            invariant
                opts.wf(),
                plan == plan_of(*anim, *opts),
                plan.wf(),
                plan.rounds() == rounds,
                looping == plan.looping,
                step == plan.step,
                33 <= step <= 1000,
                count == anim.keyframes@.len(),
                l < rounds,
                i <= count,
                duration == plan.total_time(l as int) + plan.loop_time(l as int, i as int),
            decreases count - i,
        {
            proof {
                spans_are_bounded(plan, l as int, i as int);
                times_grow(plan, l as int, i + 1, rounds as int, 0);
            }
            let fade: u64 = fade_into(anim, looping, opts.speed, l, i);
            let span: u64 = span_of(anim, opts.speed, step, fade, i);
            assert(span == plan.span(l as int, i as int));
            if duration > u64::MAX - span {
                return None;
            }
            duration = duration + span;
            i += 1;
        }
        l += 1;
    }
    Some(duration)
}

/// Tells whether the end time of a playback, where it has one, can be counted.
pub fn ends_in_time(anim: &Animation, opts: &PlaybackOptions) -> (r: bool)
    requires
        opts.wf(),
    ensures
        r == ({
            let plan = plan_of(*anim, *opts);
            plan.endless() || plan.total_time(plan.rounds()) <= u64::MAX
        }),
{
    match count_rounds(anim, opts) {
        None => true,
        Some((looping, rounds)) => time_of_loops(anim, opts, looping, rounds).is_some(),
    }
}

/// Returns the finite playback end time, or `None` for an unbounded loop.
pub fn playback_duration(anim: &Animation, opts: &PlaybackOptions) -> (r: Option<u64>)
    requires
        opts.wf(),
        ({
            let plan = plan_of(*anim, *opts);
            plan.endless() || plan.total_time(plan.rounds()) <= u64::MAX
        }),
    ensures
        ({
            let plan = plan_of(*anim, *opts);
            match r {
                Some(end) => !plan.endless() && end == plan.total_time(plan.rounds()),
                None => plan.endless(),
            }
        }),
{
    match count_rounds(anim, opts) {
        None => None,
        Some((looping, rounds)) => time_of_loops(anim, opts, looping, rounds),
    }
}

proof fn after_adds(plan: Plan, head: Playhead, j: nat, k: nat)
    ensures
        plan.after(plan.after(head, j), k) == plan.after(head, j + k),
    decreases k,
{
    if k > 0 {
        after_adds(plan, head, j, (k - 1) as nat);
    }
}

proof fn loop_position(plan: Plan, head: Playhead, i: nat)
    requires
        plan.wf(),
        plan.on_track(head),
        !head.done,
        head.keyframe == 0,
        i <= plan.keyframes.len(),
        plan.keyframes.len() > 0,
    ensures
        ({
            let there = plan.after(head, i);
            let n = plan.keyframes.len();
            &&& there.at == head.at + plan.loop_time(head.loop_index, i as int)
            &&& i < n ==> there.loop_index == head.loop_index && there.keyframe == i && !there.done
            &&& i == n ==> there.loop_index == head.loop_index + 1 && there.done
                == plan.ends_after(head.loop_index) && (!there.done ==> there.keyframe == 0)
        }),
    decreases i,
{
    if i > 0 {
        loop_position(plan, head, (i - 1) as nat);
    }
}

proof fn round_position(plan: Plan, l: nat)
    requires
        plan.wf(),
        !plan.endless(),
        plan.keyframes.len() > 0,
        l <= plan.rounds(),
    ensures
        ({
            let there = plan.after(beginning(), l * plan.keyframes.len());
            &&& there.at == plan.total_time(l as int)
            &&& there.loop_index == l
            &&& there.done == (l == plan.rounds())
            &&& !there.done ==> there.keyframe == 0
        }),
    decreases l,
{
    let n = plan.keyframes.len();
    if l > 0 {
        let before = (l - 1) as nat;
        round_position(plan, before);
        let there = plan.after(beginning(), before * n);
        loop_position(plan, there, n);
        assert(before * n + n == l * n) by (nonlinear_arith)
            requires
                before + 1 == l,
        ;
        after_adds(plan, beginning(), before * n, n);
    } else {
        assert(0 * n == 0) by (nonlinear_arith);
    }
}

/// A playback that ends does so when each keyframe has been played in each round,
/// and its end is its duration.
pub proof fn playback_ends_at_its_duration(plan: Plan)
    requires
        plan.wf(),
        !plan.endless(),
        plan.keyframes.len() > 0,
    ensures
        ({
            let end = plan.after(beginning(), (plan.rounds() * plan.keyframes.len()) as nat);
            end.done && end.at == plan.total_time(plan.rounds())
        }),
{
    round_position(plan, plan.rounds() as nat);
}

/// Frames in the order of their times, all of them before the given time.
pub open spec fn in_order(frames: Seq<FrameModel>, from: int, to: int) -> bool {
    &&& forall|i: int| 0 <= i < frames.len() ==> from <= (#[trigger] frames[i]).at < to
    &&& forall|i: int, j: int|
        0 <= i < j < frames.len() ==> (#[trigger] frames[i]).at < (#[trigger] frames[j]).at
}

proof fn fade_frames_in_order(
    previous: Seq<(AnimTarget, Mode)>,
    current: Seq<(AnimTarget, Mode)>,
    at: int,
    step: int,
    k: int,
    n: int,
    scale: Single,
)
    requires
        step > 0,
        k >= 0,
    ensures
        in_order(
            fade_frames(previous, current, at, step, k, n, scale),
            at,
            at + k * step,
        ),
    decreases k,
{
    if k > 0 {
        fade_frames_in_order(previous, current, at, step, k - 1, n, scale);
        assert((k - 1) * step + step == k * step) by (nonlinear_arith);
        assert((k - 1) * step >= 0) by (nonlinear_arith)
            requires
                k >= 1,
                step > 0,
        ;
    }
}

/// A playback goes forward in time: the frames of its first keyframes come in
/// strictly ascending order, before the beginning of the next keyframe.
pub proof fn frames_come_in_order(plan: Plan, k: nat)
    requires
        plan.wf(),
    ensures
        plan.on_track(plan.after(beginning(), k)),
        plan.after(beginning(), k).at >= 0,
        in_order(plan.after(beginning(), k).pending, 0, plan.after(beginning(), k).at),
    decreases k,
{
    if k > 0 {
        frames_come_in_order(plan, (k - 1) as nat);
        let head = plan.after(beginning(), (k - 1) as nat);
        let next = plan.queued(head);
        if !head.done && plan.keyframes.len() > 0 {
            let l = head.loop_index;
            let i = head.keyframe;
            spans_are_bounded(plan, l, i);
            let frames = plan.frames(l, i, head.at);
            let fade = plan.fade(l, i);
            if fade > 0 {
                let n = plan.steps(fade);
                fade_frames_in_order(
                    plan.keyframes[plan.previous(l, i)->0].lights@,
                    plan.keyframes[i].lights@,
                    head.at,
                    plan.step,
                    n,
                    n,
                    plan.scale,
                );
            }
            assert(in_order(frames, head.at, next.at));
            assert(next.pending =~= head.pending + frames);
        }
    }
}

/// A playback without the first frames that are queued.
pub open spec fn taken(head: Playhead, m: int) -> Playhead {
    Playhead { pending: head.pending.skip(m), ..head }
}

/// Taking frames that are queued does not change those that follow: the frames
/// taken one by one are those that the keyframes queue, in their order.
pub proof fn taking_frames_keeps_the_rest(plan: Plan, head: Playhead, m: int, k: nat)
    requires
        0 <= m <= head.pending.len(),
    ensures
        plan.after(head, k).pending.len() >= head.pending.len(),
        plan.after(taken(head, m), k) == taken(plan.after(head, k), m),
    decreases k,
{
    if k > 0 {
        let j = (k - 1) as nat;
        taking_frames_keeps_the_rest(plan, head, m, j);
        let a = plan.after(head, j);
        if !a.done && plan.keyframes.len() > 0 {
            let frames = plan.frames(a.loop_index, a.keyframe, a.at);
            assert((a.pending + frames).skip(m) =~= a.pending.skip(m) + frames);
        }
    }
    assert(plan.after(taken(head, m), k) =~= taken(plan.after(head, k), m));
}

proof fn queued_frames_stay(plan: Plan, head: Playhead, k: nat)
    ensures
        plan.after(head, k).pending.len() >= head.pending.len(),
        plan.after(head, k).pending.take(head.pending.len() as int) == head.pending,
    decreases k,
{
    if k > 0 {
        queued_frames_stay(plan, head, (k - 1) as nat);
        let before = plan.after(head, (k - 1) as nat);
        assert(plan.after(head, k).pending.take(head.pending.len() as int) =~= before.pending.take(
            head.pending.len() as int,
        ));
    } else {
        assert(head.pending.take(head.pending.len() as int) =~= head.pending);
    }
}

pub(crate) proof fn ended_playbacks_stay(plan: Plan, head: Playhead, k: nat)
    requires
        head.done || plan.keyframes.len() == 0,
    ensures
        plan.after(head, k) == head,
    decreases k,
{
    if k > 0 {
        ended_playbacks_stay(plan, head, (k - 1) as nat);
    }
}

/// All frames of a playback that ends.
pub open(crate) spec fn all_frames(plan: Plan) -> Seq<FrameModel> {
    plan.after(beginning(), (plan.rounds() * plan.keyframes.len()) as nat).pending
}

proof fn whole_playback(plan: Plan, k: nat)
    requires
        plan.wf(),
        !plan.endless(),
    ensures
        plan.after(beginning(), k).pending.len() <= all_frames(plan).len(),
        plan.after(beginning(), k).pending == all_frames(plan).take(
            plan.after(beginning(), k).pending.len() as int,
        ),
        plan.after(beginning(), k).done || plan.keyframes.len() == 0 ==> plan.after(
            beginning(),
            k,
        ).pending == all_frames(plan),
{
    let n = plan.keyframes.len();
    let total = (plan.rounds() * n) as nat;
    let here = plan.after(beginning(), k);
    if n == 0 {
        ended_playbacks_stay(plan, beginning(), k);
        ended_playbacks_stay(plan, beginning(), total);
        assert(here.pending.take(0) =~= here.pending);
    } else {
        playback_ends_at_its_duration(plan);
        let end = plan.after(beginning(), total);
        if k <= total {
            after_adds(plan, beginning(), k, (total - k) as nat);
            queued_frames_stay(plan, here, (total - k) as nat);
            if here.done {
                ended_playbacks_stay(plan, here, (total - k) as nat);
            }
        } else {
            after_adds(plan, beginning(), total, (k - total) as nat);
            ended_playbacks_stay(plan, end, (k - total) as nat);
            assert(end.pending.take(end.pending.len() as int) =~= end.pending);
        }
    }
}

/// A playback of keyframes has frames: the first keyframe sets its lights at once.
pub proof fn playbacks_have_frames(plan: Plan)
    requires
        plan.wf(),
        !plan.endless(),
        plan.keyframes.len() > 0,
    ensures
        all_frames(plan).len() > 0,
        all_frames(plan)[0].at == 0,
{
    let first = plan.after(beginning(), 1);
    assert(plan.after(beginning(), 0) == beginning());
    assert(plan.previous(0, 0) is None);
    assert(first.pending[0].at == 0);
    whole_playback(plan, 1);
    assert(all_frames(plan).take(first.pending.len() as int)[0] == all_frames(plan)[0]);
}

/// A playback ends at a time that can be counted.
pub open spec fn countable(plan: Plan) -> bool {
    !plan.endless() && plan.total_time(plan.rounds()) <= u64::MAX
}

/// What comes after some keyframes comes first after some of them.
proof fn something_comes_first(plan: Plan, head: Playhead, k: nat, most: nat) -> (first: nat)
    requires
        k <= most,
        forall|j: nat|
            #![trigger plan.after(head, j)]
            j < k ==> plan.after(head, j).pending.len() == 0 && !plan.after(head, j).done,
        plan.after(head, most).pending.len() > 0 || plan.after(head, most).done,
    ensures
        first <= most,
        plan.ready_after(head, first),
    decreases most - k,
{
    let there = plan.after(head, k);
    if there.pending.len() > 0 || there.done {
        k
    } else {
        something_comes_first(plan, head, k + 1, most)
    }
}

proof fn countable_playbacks_have_room(plan: Plan, k: nat, m: int)
    requires
        plan.wf(),
        countable(plan),
        k <= plan.rounds() * plan.keyframes.len(),
        0 <= m <= plan.after(beginning(), k).pending.len(),
    ensures
        plan.room(taken(plan.after(beginning(), k), m)),
{
    let head = taken(plan.after(beginning(), k), m);
    queueing_goes_forward(plan, beginning(), k);
    if plan.keyframes.len() == 0 {
        ended_playbacks_stay(plan, beginning(), k);
        assert(plan.ready_after(head, 0) && plan.counted(plan.after(head, 0)));
    } else {
        let total = (plan.rounds() * plan.keyframes.len()) as nat;
        round_position(plan, plan.rounds() as nat);
        let rest = (total - k) as nat;
        after_adds(plan, beginning(), k, rest);
        taking_frames_keeps_the_rest(plan, plan.after(beginning(), k), m, rest);
        let first = something_comes_first(plan, head, 0, rest);
        taking_frames_keeps_the_rest(plan, plan.after(beginning(), k), m, first);
        after_adds(plan, beginning(), k, first);
        queueing_goes_forward(plan, beginning(), k + first);
        let there = plan.after(beginning(), k + first);
        after_adds(plan, beginning(), k + first, (rest - first) as nat);
        queueing_goes_forward(plan, there, (rest - first) as nat);
        assert(plan.ready_after(head, first) && plan.counted(plan.after(head, first)));
    }
}

/// Takes all frames of a playback that ends.
pub fn collect_frames(anim: &Animation, opts: &PlaybackOptions) -> (r: Vec<Frame>)
    requires
        opts.wf(),
        countable(plan_of(*anim, *opts)),
    ensures
        frame_models(r@) == all_frames(plan_of(*anim, *opts)),
{
    let ghost plan = plan_of(*anim, *opts);
    let ghost total = (plan.rounds() * plan.keyframes.len()) as nat;
    let mut playback = schedule(anim, opts);
    let mut frames: Vec<Frame> = Vec::new();
    let ghost mut k: nat = 0;
    proof {
        assert(taken(beginning(), 0) =~= beginning());
        assert(frame_models(frames@) =~= beginning().pending.take(0));
        assert(plan.rounds() * plan.keyframes.len() >= 0) by (nonlinear_arith)
            requires
                plan.rounds() >= 1,
                plan.keyframes.len() >= 0,
        ;
    }
    loop
        invariant
            plan == playback.plan(),
            plan.wf(),
            countable(plan),
            plan.rounds() * plan.keyframes.len() == total,
            playback.wf(),
            k <= total,
            frames@.len() <= plan.after(beginning(), k).pending.len(),
            playback@ == taken(plan.after(beginning(), k), frames@.len() as int),
            frame_models(frames@) == plan.after(beginning(), k).pending.take(
                frames@.len() as int,
            ),
        ensures
            frame_models(frames@) == all_frames(plan),
        decreases all_frames(plan).len() - frames@.len(),
    {
        let ghost m = frames@.len() as int;
        let ghost start = plan.after(beginning(), k);
        proof {
            countable_playbacks_have_room(plan, k, m);
        }
        let ghost here = playback@;
        let next = playback.next();
        proof {
            let found = model_of(next);
            let j = choose|j: nat| #[trigger] pulls_after(plan, here, playback@, found, j);
            taking_frames_keeps_the_rest(plan, start, m, j);
            after_adds(plan, beginning(), k, j);
            let reached = plan.after(beginning(), k + j);
            whole_playback(plan, k + j);
            queued_frames_stay(plan, start, j);
            assert(reached.pending.take(m) =~= start.pending.take(m)) by {
                assert(start.pending =~= reached.pending.take(start.pending.len() as int));
            }
            if k + j > total {
                playback_end_is_final(plan, k + j);
                k = total;
            } else {
                k = k + j;
            }
            assert(plan.after(beginning(), k) == reached);
            if next is Some {
                assert(reached.pending.skip(m).drop_first() =~= reached.pending.skip(m + 1));
                assert(reached.pending.take(m + 1) =~= reached.pending.take(m).push(
                    reached.pending[m],
                ));
            } else {
                assert(reached.pending.len() == m);
                assert(reached.pending.take(m) =~= reached.pending);
            }
        }
        match next {
            Some(frame) => {
                let ghost before = frames@;
                frames.push(frame);
                assert(frame_models(frames@) =~= frame_models(before).push(frame@));
            },
            None => {
                break;
            },
        }
    }
    frames
}

proof fn playback_end_is_final(plan: Plan, k: nat)
    requires
        plan.wf(),
        !plan.endless(),
        k >= plan.rounds() * plan.keyframes.len(),
    ensures
        plan.after(beginning(), k) == plan.after(
            beginning(),
            (plan.rounds() * plan.keyframes.len()) as nat,
        ),
{
    let n = plan.keyframes.len();
    assert(plan.rounds() * n >= 0) by (nonlinear_arith)
        requires
            plan.rounds() >= 1,
            n >= 0,
    ;
    let total = (plan.rounds() * n) as nat;
    if n == 0 {
        ended_playbacks_stay(plan, beginning(), k);
        ended_playbacks_stay(plan, beginning(), total);
    } else {
        playback_ends_at_its_duration(plan);
        after_adds(plan, beginning(), total, (k - total) as nat);
        ended_playbacks_stay(plan, plan.after(beginning(), total), (k - total) as nat);
    }
}

/// The milliseconds of the fade into keyframe `i` of loop `l`.
fn fade_into(anim: &Animation, looping: bool, speed: Single, l: u32, i: usize) -> (r: u64)
    requires
        speed.is_speed(),
        i < anim.keyframes@.len(),
    ensures
        forall|plan: Plan|
            plan.keyframes == anim.keyframes@ && plan.looping == looping && plan.speed == speed
                ==> r == #[trigger] plan.fade(l as int, i as int),
        r <= 0x10_0000_0000,
{
    proof {
        scaled_durations_are_bounded(anim.keyframes@[i as int].fade_ms as int, speed);
        scaled_durations_are_bounded(anim.keyframes@.last().fade_ms as int, speed);
        scaled_zero(speed);
    }
    if i == 0 && !(l > 0 && looping) {
        return 0;
    }
    let own: u64 = scaled_ms(anim.keyframes[i].fade_ms, speed);
    if i == 0 && own == 0 {
        let seam: u32 = anim.keyframes[anim.keyframes.len() - 1].fade_ms;
        if seam > 0 {
            return scaled_ms(seam, speed);
        }
    }
    own
}

/// The milliseconds that keyframe `i` takes after a fade into it.
fn span_of(anim: &Animation, speed: Single, step: u64, fade: u64, i: usize) -> (r: u64)
    requires
        speed.is_speed(),
        33 <= step <= 1000,
        fade <= 0x10_0000_0000,
        i < anim.keyframes@.len(),
    ensures
        forall|plan: Plan, l: int|
            plan.wf() && plan.keyframes == anim.keyframes@ && plan.speed == speed && plan.step
                == step && plan.fade(l, i as int) == fade ==> r == #[trigger] plan.span(
                l,
                i as int,
            ),
{
    let hold: u64 = hold_ms(&anim.keyframes[i], speed);
    proof {
        scaled_durations_are_bounded(anim.keyframes@[i as int].hold_ms as int, speed);
        let n = fade as int / step as int;
        assert(n * step <= fade) by (nonlinear_arith)
            requires
                n == fade as int / step as int,
                step > 0,
        ;
    }
    if fade == 0 {
        return hold;
    }
    let steps: u64 = if fade / step < 1 {
        1
    } else {
        fade / step
    };
    assert(steps * step <= fade + step) by (nonlinear_arith)
        requires
            steps == 1 || steps * step <= fade,
    ;
    hold + steps * step
}

fn hold_ms(keyframe: &Keyframe, speed: Single) -> (r: u64)
    requires
        speed.is_speed(),
    ensures
        r == ({
            let hold = scaled_duration(keyframe.hold_ms as int, speed);
            if hold < 50 {
                50
            } else {
                hold / 50 * 50
            }
        }),
{
    let hold: u64 = scaled_ms(keyframe.hold_ms, speed);
    if hold < 50 {
        50
    } else {
        hold / 50 * 50
    }
}

/// A playback follows its animation and its controls: a step takes as many whole
/// milliseconds as the frame rate allows and 33 at least; it loops as the controls say or
/// else as the animation does, and ends after the wanted number of loops where one is
/// given.
pub proof fn plans_follow_their_controls(animation: Animation, options: PlaybackOptions)
    requires
        options.wf(),
    ensures
        ({
            let plan = plan_of(animation, options);
            &&& plan.keyframes == animation.keyframes@
            &&& plan.speed == options.speed
            &&& plan.scale == options.bri_scale
            &&& plan.step >= 33
            &&& plan.step > 33 ==> plan.step * options.fps <= 1000 < (plan.step + 1) * options.fps
            &&& plan.step == 33 ==> 1000 < 34 * options.fps
            &&& options.loop_override matches Some(looping) ==> plan.looping == looping
            &&& options.loop_override is None ==> plan.looping == animation.loop_default
            &&& plan.endless() <==> plan.looping && options.max_loops == 0
            &&& plan.looping && options.max_loops > 0 ==> plan.rounds() == options.max_loops
            &&& !plan.looping ==> plan.rounds() == 1
        }),
{
    let f = options.fps as int;
    let q = 1000int / f;
    assert(q * f <= 1000 < (q + 1) * f) by (nonlinear_arith)
        requires
            f > 0,
            q == 1000int / f,
    ;
    assert(q < 33 ==> (q + 1) * f <= 33 * f) by (nonlinear_arith)
        requires
            f > 0,
    ;
    assert(33 * f <= 34 * f);
    if q == 33 {
        assert((q + 1) * f == 34 * f);
    }
}

/// How long a keyframe takes. The first keyframe of all comes at once. Every other one is
/// faded to for its own time at the speed of the playback, and the first of a later loop
/// that has none for the time of the last. A fade has as many whole steps as its time has,
/// and one at least; then the keyframe stays for the whole fifties of its time, and one at
/// least.
pub proof fn keyframes_take_their_time(plan: Plan, loop_index: int, i: int)
    requires
        plan.wf(),
        0 <= i < plan.keyframes.len(),
        0 <= loop_index,
        !plan.looping ==> loop_index == 0,
    ensures
        ({
            let own = scaled_duration(plan.keyframes[i].fade_ms as int, plan.speed);
            let last = scaled_duration(plan.keyframes.last().fade_ms as int, plan.speed);
            let fade = plan.fade(loop_index, i);
            let hold = scaled_duration(plan.keyframes[i].hold_ms as int, plan.speed);
            let stay = plan.span(loop_index, i) - plan.fade_span(loop_index, i);
            let steps = plan.steps(fade);
            &&& loop_index == 0 && i == 0 ==> fade == 0
            &&& i > 0 ==> fade == own
            &&& loop_index > 0 && i == 0 && own > 0 ==> fade == own
            &&& loop_index > 0 && i == 0 && own == 0 ==> fade == last
            &&& fade == 0 ==> plan.fade_span(loop_index, i) == 0
            &&& fade > 0 ==> plan.fade_span(loop_index, i) == steps * plan.step && steps >= 1
            &&& fade >= plan.step ==> steps * plan.step <= fade < (steps + 1) * plan.step
            &&& 0 < fade < plan.step ==> steps == 1
            &&& stay % 50 == 0 && stay >= 50
            &&& hold >= 50 ==> stay <= hold < stay + 50
            &&& hold < 50 ==> stay == 50
        }),
{
    spans_are_bounded(plan, loop_index, i);
    scaled_durations_are_bounded(plan.keyframes[i].fade_ms as int, plan.speed);
    scaled_durations_are_bounded(plan.keyframes.last().fade_ms as int, plan.speed);
    scaled_durations_are_bounded(plan.keyframes[i].hold_ms as int, plan.speed);
    let fade = plan.fade(loop_index, i);
    let step = plan.step;
    let q = fade / step;
    assert(q * step <= fade < (q + 1) * step) by (nonlinear_arith)
        requires
            step > 0,
            q == fade / step,
    ;
    if fade >= step {
        assert(q >= 1) by (nonlinear_arith)
            requires
                fade >= step,
                fade < (q + 1) * step,
                step > 0,
        ;
    }
    if 0 < fade < step {
        assert(q < 1) by (nonlinear_arith)
            requires
                q * step <= fade,
                fade < step,
                step > 0,
        ;
    }
}

/// Each step of a fade sets every target that the keyframe names and that can be faded: from
/// the mode of the keyframe before, or from its own where that names no such target, the
/// `k`-th of `n` parts of the way. Where there is no way, the last step sets the mode and no
/// other step does.
pub proof fn steps_set_their_targets(
    previous: Seq<(AnimTarget, Mode)>,
    entry: (AnimTarget, Mode),
    k: int,
    n: int,
    before: int,
)
    requires
        -1 <= before < previous.len(),
        before >= 0 ==> previous[before].0 == entry.0,
        forall|e: int|
            0 <= e < (if before >= 0 {
                before
            } else {
                previous.len() as int
            }) ==> (#[trigger] previous[e]).0 != entry.0,
    ensures
        ({
            let from = if before >= 0 {
                previous[before].1
            } else {
                entry.1
            };
            let way = between(from, entry.1, k, n);
            &&& way is Some ==> step_op(previous, entry, k, n) == way
            &&& way is None && k == n ==> step_op(previous, entry, k, n) == Some(entry.1)
            &&& way is None && k != n ==> step_op(previous, entry, k, n) is None
        }),
{
    looked_up(previous, entry.0, before);
}

proof fn looked_up(entries: Seq<(AnimTarget, Mode)>, target: AnimTarget, place: int)
    requires
        -1 <= place < entries.len(),
        place >= 0 ==> entries[place].0 == target,
        forall|e: int|
            0 <= e < (if place >= 0 {
                place
            } else {
                entries.len() as int
            }) ==> (#[trigger] entries[e]).0 != target,
    ensures
        lookup(entries, target) == if place >= 0 {
            Some(entries[place].1)
        } else {
            None
        },
    decreases entries.len(),
{
    if entries.len() > 0 && place != 0 {
        let rest = entries.drop_first();
        assert(entries[0].0 != target);
        assert forall|e: int|
            0 <= e < (if place >= 0 {
                place - 1
            } else {
                rest.len() as int
            }) implies (#[trigger] rest[e]).0 != target by {
            assert(rest[e] == entries[e + 1]);
        }
        if place > 0 {
            assert(rest[place - 1] == entries[place]);
            looked_up(rest, target, place - 1);
        } else {
            looked_up(rest, target, -1);
        }
    }
}

/// What a step sets it sets in the order of the keyframe, with the brightness scaled: a
/// target is set exactly if it has a step, to that.
pub proof fn steps_keep_the_order_of_targets(
    previous: Seq<(AnimTarget, Mode)>,
    current: Seq<(AnimTarget, Mode)>,
    k: int,
    n: int,
    scale: Single,
)
    ensures
        step_ops(previous, current, k, n, scale).len() <= current.len(),
        forall|target: AnimTarget, mode: Mode| #[trigger]
            step_ops(previous, current, k, n, scale).contains((target, mode)) <==> exists|e: int|
                0 <= e < current.len() && (#[trigger] current[e]).0 == target && (step_op(
                    previous,
                    current[e],
                    k,
                    n,
                ) matches Some(step) && mode == dimmed(step, scale)),
        current.len() > 0 ==> step_ops(previous, current, k, n, scale) == step_ops(
            previous,
            current.drop_last(),
            k,
            n,
            scale,
        ) + step_ops(previous, seq![current.last()], k, n, scale),
    decreases current.len(),
{
    if current.len() > 0 {
        let rest = current.drop_last();
        steps_keep_the_order_of_targets(previous, rest, k, n, scale);
        let head = step_ops(previous, rest, k, n, scale);
        let all = step_ops(previous, current, k, n, scale);
        let last = current.last();
        assert(seq![last].drop_last() =~= Seq::<(AnimTarget, Mode)>::empty());
        assert(seq![last].last() == last);
        assert(step_ops(previous, Seq::<(AnimTarget, Mode)>::empty(), k, n, scale) =~= Seq::<
            (AnimTarget, Mode),
        >::empty());
        assert(all =~= head + step_ops(previous, seq![last], k, n, scale));
        assert forall|target: AnimTarget, mode: Mode| #[trigger]
            all.contains((target, mode)) <==> exists|e: int|
                0 <= e < current.len() && (#[trigger] current[e]).0 == target && (step_op(
                    previous,
                    current[e],
                    k,
                    n,
                ) matches Some(step) && mode == dimmed(step, scale)) by {
            if head.contains((target, mode)) {
                let j = choose|j: int| 0 <= j < head.len() && head[j] == (target, mode);
                assert(all[j] == (target, mode));
                let e = choose|e: int|
                    0 <= e < rest.len() && (#[trigger] rest[e]).0 == target && (step_op(
                        previous,
                        rest[e],
                        k,
                        n,
                    ) matches Some(step) && mode == dimmed(step, scale));
                assert(current[e] == rest[e]);
            }
            if all.contains((target, mode)) && !head.contains((target, mode)) {
                let j = choose|j: int| 0 <= j < all.len() && all[j] == (target, mode);
                if j < head.len() {
                    assert(head[j] == (target, mode));
                }
                assert(current[current.len() - 1].0 == target);
            }
            if exists|e: int|
                0 <= e < current.len() && (#[trigger] current[e]).0 == target && (step_op(
                    previous,
                    current[e],
                    k,
                    n,
                ) matches Some(step) && mode == dimmed(step, scale)) {
                let e = choose|e: int|
                    0 <= e < current.len() && (#[trigger] current[e]).0 == target && (step_op(
                        previous,
                        current[e],
                        k,
                        n,
                    ) matches Some(step) && mode == dimmed(step, scale));
                if e < rest.len() {
                    assert(rest[e] == current[e]);
                    assert(head.contains((target, mode)));
                } else {
                    assert(all[head.len() as int] == (target, mode));
                }
            }
        }
    }
}

proof fn fade_frames_are_exact(
    previous: Seq<(AnimTarget, Mode)>,
    current: Seq<(AnimTarget, Mode)>,
    at: int,
    step: int,
    k: int,
    n: int,
    scale: Single,
    frame: FrameModel,
)
    requires
        0 <= k,
    ensures
        fade_frames(previous, current, at, step, k, n, scale).contains(frame) <==> exists|j: int|
            1 <= j <= k && frame.at == at + (j - 1) * step && frame.ops == #[trigger] step_ops(
                previous,
                current,
                j,
                n,
                scale,
            ) && frame.ops.len() > 0,
    decreases k,
{
    if k > 0 {
        fade_frames_are_exact(previous, current, at, step, k - 1, n, scale, frame);
        let head = fade_frames(previous, current, at, step, k - 1, n, scale);
        let all = fade_frames(previous, current, at, step, k, n, scale);
        let ops = step_ops(previous, current, k, n, scale);
        if head.contains(frame) {
            let i = choose|i: int| 0 <= i < head.len() && head[i] == frame;
            assert(all[i] == frame);
        }
        if all.contains(frame) && !head.contains(frame) {
            let i = choose|i: int| 0 <= i < all.len() && all[i] == frame;
            if i < head.len() {
                assert(head[i] == frame);
            }
            assert(frame.ops == step_ops(previous, current, k, n, scale));
        }
        if exists|j: int|
            1 <= j <= k && frame.at == at + (j - 1) * step && frame.ops == #[trigger] step_ops(
                previous,
                current,
                j,
                n,
                scale,
            ) && frame.ops.len() > 0 {
            let j = choose|j: int|
                1 <= j <= k && frame.at == at + (j - 1) * step && frame.ops == #[trigger] step_ops(
                    previous,
                    current,
                    j,
                    n,
                    scale,
                ) && frame.ops.len() > 0;
            if j < k {
                assert(head.contains(frame));
            } else {
                assert(all[head.len() as int] =~= frame);
            }
        }
    }
}

/// Updates set each target that a keyframe names, in its order, with the brightness scaled.
pub open(crate) spec fn sets_all(
    ops: Seq<(AnimTarget, Mode)>,
    current: Seq<(AnimTarget, Mode)>,
    scale: Single,
) -> bool {
    &&& ops.len() == current.len()
    &&& forall|e: int|
        0 <= e < current.len() ==> #[trigger] ops[e] == (current[e].0, dimmed(current[e].1, scale))
}

/// What is sent for a keyframe without a fade that begins at a time: one frame at that time
/// with all that the keyframe sets.
pub proof fn keyframes_without_fade_are_sent_at_once(
    plan: Plan,
    loop_index: int,
    i: int,
    at: int,
)
    requires
        plan.wf(),
        0 <= i < plan.keyframes.len(),
        plan.fade(loop_index, i) == 0,
    ensures
        plan.frames(loop_index, i, at).len() == 1,
        plan.frames(loop_index, i, at)[0].at == at,
        sets_all(
            plan.frames(loop_index, i, at)[0].ops,
            plan.keyframes[i].lights@,
            plan.scale,
        ),
{
    let ops = plan.frames(loop_index, i, at)[0].ops;
    let current = plan.keyframes[i].lights@;
    assert(ops == hold_ops(current, plan.scale));
}

/// What is sent for a keyframe with a fade that begins at a time: one frame for each step that
/// sets something, one step after another from that time on, on the way from the keyframe
/// before, which for the first of a loop is the last.
pub proof fn keyframes_are_sent_step_by_step(
    plan: Plan,
    loop_index: int,
    i: int,
    from: int,
    at: int,
    frame: FrameModel,
)
    requires
        plan.wf(),
        0 <= i < plan.keyframes.len(),
        plan.fade(loop_index, i) > 0,
        i > 0 ==> from == i - 1,
        i == 0 ==> from == plan.keyframes.len() - 1,
    ensures
        plan.frames(loop_index, i, at).contains(frame) <==> exists|j: int|
            1 <= j <= plan.steps(plan.fade(loop_index, i)) && frame.at == at + (j - 1) * plan.step
                && frame.ops == #[trigger] step_ops(
                plan.keyframes[from].lights@,
                plan.keyframes[i].lights@,
                j,
                plan.steps(plan.fade(loop_index, i)),
                plan.scale,
            ) && frame.ops.len() > 0,
{
    spans_are_bounded(plan, loop_index, i);
    let n = plan.steps(plan.fade(loop_index, i));
    assert(plan.previous(loop_index, i) == Some(from));
    fade_frames_are_exact(
        plan.keyframes[from].lights@,
        plan.keyframes[i].lights@,
        at,
        plan.step,
        n,
        n,
        plan.scale,
        frame,
    );
}

/// A playback goes through its keyframes in their order and through its loops one after
/// another. Each keyframe begins when the one before it has taken its time, and nothing comes
/// after the last keyframe of the last loop.
pub proof fn keyframes_follow_one_another(plan: Plan, l: nat, i: nat)
    requires
        plan.wf(),
        !plan.endless(),
        l < plan.rounds(),
        i < plan.keyframes.len(),
    ensures
        ({
            let n = plan.keyframes.len();
            let here = plan.after(beginning(), l * n + i);
            let next = plan.after(beginning(), l * n + i + 1);
            &&& here.loop_index == l && here.keyframe == i && !here.done
            &&& next.at == here.at + plan.span(l as int, i as int)
            &&& next.pending == here.pending + plan.frames(l as int, i as int, here.at)
            &&& next.done <==> l + 1 == plan.rounds() && i + 1 == n
            &&& l == 0 && i == 0 ==> here.at == 0 && here.pending.len() == 0
        }),
{
    let n = plan.keyframes.len();
    round_position(plan, l);
    let there = plan.after(beginning(), l * n);
    loop_position(plan, there, i);
    after_adds(plan, beginning(), l * n, i);
    assert(plan.after(beginning(), l * n + i + 1) == plan.queued(
        plan.after(beginning(), l * n + i),
    ));
    if l == 0 && i == 0 {
        assert(0 * n == 0) by (nonlinear_arith);
    }
}

/// The end of a playback is the sum of the times of all keyframes in all loops.
pub proof fn durations_add_up(plan: Plan, l: int, i: int)
    requires
        0 <= l,
        0 <= i < plan.keyframes.len(),
    ensures
        plan.total_time(0) == 0,
        plan.loop_time(l, 0) == 0,
        plan.loop_time(l, i + 1) == plan.loop_time(l, i) + plan.span(l, i),
        plan.total_time(l + 1) == plan.total_time(l) + plan.loop_time(
            l,
            plan.keyframes.len() as int,
        ),
{
}

/// A step of a fade lasts as many whole milliseconds as fit into its share of a second, and
/// never less than 33.
pub proof fn steps_share_a_second(fps: int)
    requires
        fps > 0,
    ensures
        fps <= 30 ==> step_length(fps) * fps <= 1000 < (step_length(fps) + 1) * fps,
        fps > 30 ==> step_length(fps) == 33,
        step_length(fps) >= 33,
{
    let q = 1000int / fps;
    assert(q * fps <= 1000 < (q + 1) * fps) by (nonlinear_arith)
        requires
            fps > 0,
            q == 1000int / fps,
    ;
    if fps <= 30 {
        assert(q >= 33) by (nonlinear_arith)
            requires
                0 < fps <= 30,
                1000 < (q + 1) * fps,
        ;
    } else {
        assert(q < 33) by (nonlinear_arith)
            requires
                fps > 30,
                q * fps <= 1000,
        ;
    }
}

} // verus!
