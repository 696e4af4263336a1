//! What the brightness scale of a playback changes: brightness, and nothing else.
use vstd::prelude::*;
use crate::anim::{
    beginning, ended_playbacks_stay, fade_frames, hold_ops, plan_of, pulls, pulls_after, step_op,
    step_ops, FrameModel, Plan, Playhead,
};
use crate::animation::{AnimTarget, Animation, PlaybackOptions, Single, NEGATIVE_ZERO_BITS};
use crate::fade::dimmed;
use crate::mode::Mode;

verus! {

/// Two modes are of one kind and differ in brightness at most.
pub open spec fn same_but_brightness(a: Mode, b: Mode) -> bool {
    match (a, b) {
        (Mode::Cct { temp: x, .. }, Mode::Cct { temp: y, .. }) => x == y,
        (Mode::Hsi { hue: x, sat: s, .. }, Mode::Hsi { hue: y, sat: t, .. }) => x == y && s == t,
        (Mode::Scene { scene: x, .. }, Mode::Scene { scene: y, .. }) => x == y,
        (Mode::On, Mode::On) => true,
        (Mode::Off, Mode::Off) => true,
        _ => false,
    }
}

/// A mode has no brightness, or none is left of it.
pub open spec fn is_dark(mode: Mode) -> bool {
    match mode {
        Mode::Cct { bri, .. } => bri@ == 0,
        Mode::Hsi { bri, .. } => bri@ == 0,
        Mode::Scene { bri, .. } => bri@ == 0,
        Mode::On | Mode::Off => true,
    }
}

/// Updates of the same targets in the same order that differ in brightness at most.
pub open spec fn ops_alike(a: Seq<(AnimTarget, Mode)>, b: Seq<(AnimTarget, Mode)>) -> bool {
    &&& a.len() == b.len()
    &&& forall|i: int|
        0 <= i < a.len() ==> (#[trigger] a[i]).0 == (#[trigger] b[i]).0 && same_but_brightness(
            a[i].1,
            b[i].1,
        )
}

/// Updates that leave no brightness.
pub open spec fn ops_dark(ops: Seq<(AnimTarget, Mode)>) -> bool {
    forall|i: int| 0 <= i < ops.len() ==> is_dark((#[trigger] ops[i]).1)
}

/// Frames at the same time that differ in brightness at most.
pub open spec fn alike(a: FrameModel, b: FrameModel) -> bool {
    a.at == b.at && ops_alike(a.ops, b.ops)
}

/// As many frames, each like the other.
pub open spec fn all_alike(a: Seq<FrameModel>, b: Seq<FrameModel>) -> bool {
    &&& a.len() == b.len()
    &&& forall|i: int| 0 <= i < a.len() ==> alike(#[trigger] a[i], #[trigger] b[i])
}

/// Frames that leave no brightness.
pub open spec fn all_dark(frames: Seq<FrameModel>) -> bool {
    forall|i: int| 0 <= i < frames.len() ==> ops_dark((#[trigger] frames[i]).ops)
}

/// Two playbacks stand at the same place, and the frames that are queued differ in
/// brightness at most.
pub open spec fn in_step(a: Playhead, b: Playhead) -> bool {
    &&& a.loop_index == b.loop_index
    &&& a.keyframe == b.keyframe
    &&& a.at == b.at
    &&& a.done == b.done
    &&& all_alike(a.pending, b.pending)
}

/// Frames that are taken one by one from the beginning of a playback: `heads` are the
/// places before and after each, and `frames` what is taken, if there is something.
pub open(crate) spec fn is_run(
    plan: Plan,
    heads: Seq<Playhead>,
    frames: Seq<Option<FrameModel>>,
) -> bool {
    &&& heads.len() == frames.len() + 1
    &&& heads[0] == beginning()
    &&& forall|i: int|
        0 <= i < frames.len() ==> pulls(plan, heads[i], heads[i + 1], #[trigger] frames[i])
}

proof fn steps_are_alike(
    previous: Seq<(AnimTarget, Mode)>,
    current: Seq<(AnimTarget, Mode)>,
    k: int,
    n: int,
    a: Single,
    b: Single,
)
    ensures
        ops_alike(
            step_ops(previous, current, k, n, a),
            step_ops(previous, current, k, n, b),
        ),
    decreases current.len(),
{
    if current.len() > 0 {
        steps_are_alike(previous, current.drop_last(), k, n, a, b);
        let x = step_ops(previous, current.drop_last(), k, n, a);
        let y = step_ops(previous, current.drop_last(), k, n, b);
        match step_op(previous, current.last(), k, n) {
            Some(mode) => {
                let x1 = x.push((current.last().0, dimmed(mode, a)));
                let y1 = y.push((current.last().0, dimmed(mode, b)));
                assert forall|i: int| 0 <= i < x1.len() implies (#[trigger] x1[i]).0 == (
                #[trigger] y1[i]).0 && same_but_brightness(x1[i].1, y1[i].1) by {
                    if i < x.len() {
                        assert(x1[i] == x[i] && y1[i] == y[i]);
                    }
                }
            },
            None => {},
        }
    }
}

proof fn fades_are_alike(
    previous: Seq<(AnimTarget, Mode)>,
    current: Seq<(AnimTarget, Mode)>,
    at: int,
    step: int,
    k: int,
    n: int,
    a: Single,
    b: Single,
)
    ensures
        all_alike(
            fade_frames(previous, current, at, step, k, n, a),
            fade_frames(previous, current, at, step, k, n, b),
        ),
    decreases k,
{
    if k > 0 {
        fades_are_alike(previous, current, at, step, k - 1, n, a, b);
        steps_are_alike(previous, current, k, n, a, b);
    }
}

/// Two playbacks that differ only in their brightness scales stay in step: after any
/// number of keyframes they stand at the same place, and the frames that are queued
/// have the same times and the same targets and differ in brightness at most.
pub proof fn scales_keep_playbacks_in_step(a: Plan, b: Plan, x: Playhead, y: Playhead, k: nat)
    requires
        b == (Plan { scale: b.scale, ..a }),
        in_step(x, y),
    ensures
        in_step(a.after(x, k), b.after(y, k)),
    decreases k,
{
    if k > 0 {
        scales_keep_playbacks_in_step(a, b, x, y, (k - 1) as nat);
        let u = a.after(x, (k - 1) as nat);
        let v = b.after(y, (k - 1) as nat);
        if !u.done && a.keyframes.len() > 0 {
            let l = u.loop_index;
            let i = u.keyframe;
            let current = a.keyframes[i].lights@;
            let fade = a.fade(l, i);
            assert(b.fade(l, i) == fade);
            assert(a.span(l, i) == b.span(l, i));
            if fade > 0 {
                let before = a.keyframes[a.previous(l, i)->0].lights@;
                let n = a.steps(fade);
                fades_are_alike(before, current, u.at, a.step, n, n, a.scale, b.scale);
            } else {
                assert(ops_alike(hold_ops(current, a.scale), hold_ops(current, b.scale)));
            }
            let f = a.frames(l, i, u.at);
            let g = b.frames(l, i, u.at);
            assert(all_alike(f, g));
            let p = u.pending + f;
            let q = v.pending + g;
            assert forall|j: int| 0 <= j < p.len() implies alike(#[trigger] p[j], #[trigger] q[j]) by {
                if j < u.pending.len() {
                    assert(p[j] == u.pending[j] && q[j] == v.pending[j]);
                } else {
                    let m = j - u.pending.len();
                    assert(p[j] == f[m] && q[j] == g[m]);
                }
            }
        }
    }
}

proof fn pulls_are_alike(
    a: Plan,
    b: Plan,
    x: Playhead,
    y: Playhead,
    x1: Playhead,
    y1: Playhead,
    s: Option<FrameModel>,
    t: Option<FrameModel>,
)
    requires
        b == (Plan { scale: b.scale, ..a }),
        in_step(x, y),
        pulls(a, x, x1, s),
        pulls(b, y, y1, t),
    ensures
        in_step(x1, y1),
        s is Some <==> t is Some,
        s matches Some(frame) ==> alike(frame, t->0),
{
    let k = choose|k: nat| #[trigger] pulls_after(a, x, x1, s, k);
    let m = choose|m: nat| #[trigger] pulls_after(b, y, y1, t, m);
    if a.keyframes.len() == 0 {
        ended_playbacks_stay(a, x, k);
        ended_playbacks_stay(b, y, m);
    } else {
        scales_keep_playbacks_in_step(a, b, x, y, k);
        scales_keep_playbacks_in_step(a, b, x, y, m);
        if k < m {
            assert(b.after(y, k).pending.len() == 0 && !b.after(y, k).done);
        }
        if m < k {
            assert(a.after(x, m).pending.len() == 0 && !a.after(x, m).done);
        }
        assert(k == m);
    }
    let u = a.after(x, k);
    let v = b.after(y, m);
    if s is Some {
        let p = u.pending.drop_first();
        let q = v.pending.drop_first();
        assert forall|j: int| 0 <= j < p.len() implies alike(#[trigger] p[j], #[trigger] q[j]) by {
            assert(p[j] == u.pending[j + 1] && q[j] == v.pending[j + 1]);
        }
    }
}

proof fn runs_are_alike(
    a: Plan,
    b: Plan,
    heads: Seq<Playhead>,
    others: Seq<Playhead>,
    frames: Seq<Option<FrameModel>>,
    more: Seq<Option<FrameModel>>,
    n: int,
)
    requires
        b == (Plan { scale: b.scale, ..a }),
        is_run(a, heads, frames),
        is_run(b, others, more),
        0 <= n <= frames.len(),
        n <= more.len(),
    ensures
        in_step(heads[n], others[n]),
        n > 0 ==> {
            &&& frames[n - 1] is Some <==> more[n - 1] is Some
            &&& frames[n - 1] matches Some(frame) ==> alike(frame, more[n - 1]->0)
        },
    decreases n,
{
    if n > 0 {
        runs_are_alike(a, b, heads, others, frames, more, n - 1);
        assert(pulls(a, heads[n - 1], heads[n - 1 + 1], frames[n - 1]));
        assert(pulls(b, others[n - 1], others[n - 1 + 1], more[n - 1]));
        pulls_are_alike(
            a,
            b,
            heads[n - 1],
            others[n - 1],
            heads[n],
            others[n],
            frames[n - 1],
            more[n - 1],
        );
    }
}

/// Two playbacks of an animation whose controls differ only in the brightness scale
/// differ only in brightness: of the frames that are taken one by one, the `n`-th of
/// the one exists where the `n`-th of the other does, at the same time, with the same
/// targets in the same order and modes that differ in brightness at most.
pub proof fn brightness_scale_changes_only_brightness(
    animation: Animation,
    options: PlaybackOptions,
    scale: Single,
    heads: Seq<Playhead>,
    others: Seq<Playhead>,
    frames: Seq<Option<FrameModel>>,
    more: Seq<Option<FrameModel>>,
    n: int,
)
    requires
        is_run(plan_of(animation, options), heads, frames),
        is_run(
            plan_of(animation, PlaybackOptions { bri_scale: scale, ..options }),
            others,
            more,
        ),
        0 <= n < frames.len(),
        n < more.len(),
    ensures
        frames[n] is Some <==> more[n] is Some,
        frames[n] matches Some(frame) ==> alike(frame, more[n]->0),
{
    runs_are_alike(
        plan_of(animation, options),
        plan_of(animation, PlaybackOptions { bri_scale: scale, ..options }),
        heads,
        others,
        frames,
        more,
        n + 1,
    );
}

/// The scale is zero, of either sign.
pub open spec fn is_zero(scale: Single) -> bool {
    scale.bits == 0 || scale.bits == NEGATIVE_ZERO_BITS
}

proof fn zero_scale_dims(mode: Mode, scale: Single)
    requires
        is_zero(scale),
    ensures
        is_dark(dimmed(mode, scale)),
{
}

proof fn steps_are_dark(
    previous: Seq<(AnimTarget, Mode)>,
    current: Seq<(AnimTarget, Mode)>,
    k: int,
    n: int,
    scale: Single,
)
    requires
        is_zero(scale),
    ensures
        ops_dark(step_ops(previous, current, k, n, scale)),
    decreases current.len(),
{
    if current.len() > 0 {
        steps_are_dark(previous, current.drop_last(), k, n, scale);
        match step_op(previous, current.last(), k, n) {
            Some(mode) => {
                zero_scale_dims(mode, scale);
            },
            None => {},
        }
    }
}

proof fn fades_are_dark(
    previous: Seq<(AnimTarget, Mode)>,
    current: Seq<(AnimTarget, Mode)>,
    at: int,
    step: int,
    k: int,
    n: int,
    scale: Single,
)
    requires
        is_zero(scale),
    ensures
        all_dark(fade_frames(previous, current, at, step, k, n, scale)),
    decreases k,
{
    if k > 0 {
        fades_are_dark(previous, current, at, step, k - 1, n, scale);
        steps_are_dark(previous, current, k, n, scale);
    }
}

proof fn queues_are_dark(plan: Plan, head: Playhead, k: nat)
    requires
        is_zero(plan.scale),
        all_dark(head.pending),
    ensures
        all_dark(plan.after(head, k).pending),
    decreases k,
{
    if k > 0 {
        queues_are_dark(plan, head, (k - 1) as nat);
        let u = plan.after(head, (k - 1) as nat);
        if !u.done && plan.keyframes.len() > 0 {
            let l = u.loop_index;
            let i = u.keyframe;
            let current = plan.keyframes[i].lights@;
            let fade = plan.fade(l, i);
            if fade > 0 {
                let before = plan.keyframes[plan.previous(l, i)->0].lights@;
                let n = plan.steps(fade);
                fades_are_dark(before, current, u.at, plan.step, n, n, plan.scale);
            } else {
                let ops = hold_ops(current, plan.scale);
                assert forall|j: int| 0 <= j < ops.len() implies is_dark((#[trigger] ops[j]).1) by {
                    zero_scale_dims(current[j].1, plan.scale);
                }
            }
            let f = plan.frames(l, i, u.at);
            assert(all_dark(f));
            let p = u.pending + f;
            assert forall|j: int| 0 <= j < p.len() implies ops_dark((#[trigger] p[j]).ops) by {
                if j < u.pending.len() {
                    assert(p[j] == u.pending[j]);
                } else {
                    assert(p[j] == f[j - u.pending.len()]);
                }
            }
        }
    }
}

proof fn runs_are_dark(
    plan: Plan,
    heads: Seq<Playhead>,
    frames: Seq<Option<FrameModel>>,
    n: int,
)
    requires
        is_zero(plan.scale),
        is_run(plan, heads, frames),
        0 <= n <= frames.len(),
    ensures
        all_dark(heads[n].pending),
        n > 0 ==> (frames[n - 1] matches Some(frame) ==> ops_dark(frame.ops)),
    decreases n,
{
    if n > 0 {
        runs_are_dark(plan, heads, frames, n - 1);
        assert(pulls(plan, heads[n - 1], heads[n - 1 + 1], frames[n - 1]));
        let k = choose|k: nat| #[trigger]
            pulls_after(plan, heads[n - 1], heads[n], frames[n - 1], k);
        queues_are_dark(plan, heads[n - 1], k);
    }
}

/// With a brightness scale of zero no frame leaves any brightness.
pub proof fn zero_scale_leaves_no_brightness(
    animation: Animation,
    options: PlaybackOptions,
    heads: Seq<Playhead>,
    frames: Seq<Option<FrameModel>>,
    n: int,
)
    requires
        is_zero(options.bri_scale),
        is_run(plan_of(animation, options), heads, frames),
        0 <= n < frames.len(),
    ensures
        frames[n] matches Some(frame) ==> ops_dark(frame.ops),
{
    runs_are_dark(plan_of(animation, options), heads, frames, n + 1);
}

} // verus!
