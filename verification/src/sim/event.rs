//! Travel-time events: the suspicious-cargo jump, and ambient hull creaks.
//!
//! Departing with a suspicious crate aboard schedules an omen somewhere in
//! the middle half of the leg. The omen runs for [`OMEN_LEAD_TICKS`], the
//! jump then skips three quarters of the remaining distance, and a wake of
//! [`OMEN_TAIL_TICKS`] closes the episode. All timing derives from
//! `splitmix(seed, leg)`, so the whole episode replays and saves exactly.
//!
//! The console light and the hum swell that the phases drive are eased by
//! the frontend; the schedule and the phases live here.

use vstd::prelude::*;
use crate::sim::{spec_splitmix, splitmix};

verus! {

/// Omen duration before the jump fires: 3 s.
pub const OMEN_LEAD_TICKS: u32 = 180;

/// Wake duration after the jump before the omen ends: 1.5 s.
pub const OMEN_TAIL_TICKS: u32 = 90;

/// Fraction of the remaining leg a jump skips, as a ratio.
pub const JUMP_SKIP_NUM: u64 = 3;

pub const JUMP_SKIP_DEN: u64 = 4;

/// Ticks per creak window: roughly one creak every 8 s of travel.
pub const CREAK_WINDOW: u64 = 480;

/// Salt so creak hashes never collide with visit or leg hashes.
pub const CREAK_SALT: u64 = 0xC4EA_4B00;

/// The longest leg the omen schedule reasons about: three quarters of it
/// must still be a tick count.
pub const OMEN_LEG_REACH: u64 = 0x5555_5555_5555_5555;

/// Where the current leg's event is in its life.
#[derive(Clone, Copy, Debug, PartialEq, Eq, Structural)]
pub enum Phase {
    Idle,
    /// Dimming and swelling, counting down to the jump.
    Omen { elapsed: u32 },
    /// Jump fired; easing back toward normal.
    Wake { elapsed: u32 },
}

/// What the omen announces.
#[derive(Clone, Copy, Debug, PartialEq, Eq, Structural)]
pub enum OmenSignal {
    /// The omen began.
    Start,
    /// The jump fired.
    Jump,
    /// The episode closed.
    End,
}

/// Per-leg event state: the leg count, the scheduled omen, and its phase.
#[derive(Clone, Copy, Debug, PartialEq, Eq)]
pub struct Events {
    /// Departures so far, salting each leg's schedule hash.
    pub leg_counter: u64,
    /// Progress tick the omen starts at, if this leg carries one.
    pub jump_at: Option<u64>,
    pub phase: Phase,
}

/// Where the omen of leg `leg` with `leg_ticks` ticks starts:
/// `[leg_ticks / 2, leg_ticks * 3 / 4)`, or exactly half way on a leg too
/// short for that range to hold a tick.
pub open spec fn omen_tick(seed: u64, leg: u64, leg_ticks: u64) -> u64 {
    let lo = leg_ticks / 2;
    let hi = leg_ticks * 3 / 4;
    let span: int = if hi - lo >= 1 {
        hi - lo
    } else {
        1
    };
    (lo + (spec_splitmix(seed, leg) as int) % span) as u64
}

/// The events, progress, and announcements after one travel tick of
/// `events` at `progress` on a leg of `leg_ticks`.
pub open spec fn omen_step(events: Events, progress: u64, leg_ticks: u64) -> (Events, u64, Seq<OmenSignal>) {
    match events.phase {
        Phase::Idle => if events.jump_at matches Some(at) && progress >= at {
            (Events { phase: Phase::Omen { elapsed: 0 }, ..events }, progress, seq![OmenSignal::Start])
        } else {
            (events, progress, Seq::empty())
        },
        Phase::Omen { elapsed } => if elapsed + 1 >= OMEN_LEAD_TICKS {
            (Events { phase: Phase::Wake { elapsed: 0 }, ..events }, jumped(progress, leg_ticks), seq![OmenSignal::Jump])
        } else {
            (Events { phase: Phase::Omen { elapsed: (elapsed + 1) as u32 }, ..events }, progress, Seq::empty())
        },
        Phase::Wake { elapsed } => if elapsed + 1 >= OMEN_TAIL_TICKS {
            (Events { phase: Phase::Idle, jump_at: None, ..events }, progress, seq![OmenSignal::End])
        } else {
            (Events { phase: Phase::Wake { elapsed: (elapsed + 1) as u32 }, ..events }, progress, Seq::empty())
        },
    }
}

/// Whether a phase's counter stays inside its own stage.
pub open spec fn phase_ok(phase: Phase) -> bool {
    match phase {
        Phase::Idle => true,
        Phase::Omen { elapsed } => elapsed < OMEN_LEAD_TICKS,
        Phase::Wake { elapsed } => elapsed < OMEN_TAIL_TICKS,
    }
}

impl Events {
    /// No legs flown, nothing scheduled.
    pub fn new() -> (r: Self)
        ensures
            r.leg_counter == 0,
            r.jump_at is None,
            r.phase == Phase::Idle,
    {
        Events { leg_counter: 0, jump_at: None, phase: Phase::Idle }
    }

    /// Called once per departure: count the leg and, if a suspicious crate
    /// is aboard, schedule an omen in `[leg_ticks / 2, leg_ticks * 3 / 4)`.
    pub fn on_depart(&mut self, seed: u64, leg_ticks: u64, suspicious: bool)
        requires
            old(self).leg_counter < u64::MAX,
            leg_ticks <= OMEN_LEG_REACH,
        ensures
            final(self).leg_counter == old(self).leg_counter + 1,
            final(self).phase == old(self).phase,
            final(self).jump_at == if suspicious {
                Some(omen_tick(seed, final(self).leg_counter, leg_ticks))
            } else {
                None::<u64>
            },
    {
        self.leg_counter = self.leg_counter + 1;
        if suspicious {
            let lo = leg_ticks / 2;
            let hi = leg_ticks * 3 / 4;
            let span = if hi - lo >= 1 {
                hi - lo
            } else {
                1
            };
            let roll = splitmix(seed, self.leg_counter) % span;
            proof {
                assert(roll < span);
                assert(lo + span <= leg_ticks + 1);
            }
            self.jump_at = Some(lo + roll);
        } else {
            self.jump_at = None;
        }
    }

    /// One travel tick: walk the omen phases, skipping `progress` ahead when
    /// the jump fires.
    pub fn travel_tick(&mut self, progress: &mut u64, leg_ticks: u64, cues: &mut Vec<OmenSignal>)
        requires
            (old(self).phase matches Phase::Omen { elapsed } && elapsed + 1 >= OMEN_LEAD_TICKS) ==> *old(progress)
                <= leg_ticks,
            leg_ticks <= OMEN_LEG_REACH,
            phase_ok(old(self).phase),
        ensures
            ({
                let (e, p, said) = omen_step(*old(self), *old(progress), leg_ticks);
                &&& *final(self) == e
                &&& *final(progress) == p
                &&& final(cues)@ == old(cues)@ + said
            }),
            *old(progress) <= *final(progress),
            *old(progress) <= leg_ticks ==> *final(progress) <= leg_ticks,
            phase_ok(final(self).phase),
    {
        let ghost c0 = cues@;
        match self.phase {
            Phase::Idle => {
                let due = match self.jump_at {
                    Some(at) => *progress >= at,
                    None => false,
                };
                if due {
                    self.phase = Phase::Omen { elapsed: 0 };
                    cues.push(OmenSignal::Start);
                }
            },
            Phase::Omen { elapsed } => {
                if elapsed + 1 >= OMEN_LEAD_TICKS {
                    let rest = leg_ticks - *progress;
                    proof {
                        assert(rest * JUMP_SKIP_NUM / (JUMP_SKIP_DEN as int) <= rest) by (nonlinear_arith)
                            requires
                                rest >= 0,
                        ;
                    }
                    *progress = *progress + rest * JUMP_SKIP_NUM / JUMP_SKIP_DEN;
                    self.phase = Phase::Wake { elapsed: 0 };
                    cues.push(OmenSignal::Jump);
                } else {
                    self.phase = Phase::Omen { elapsed: elapsed + 1 };
                }
            },
            Phase::Wake { elapsed } => {
                if elapsed + 1 >= OMEN_TAIL_TICKS {
                    self.phase = Phase::Idle;
                    self.jump_at = None;
                    cues.push(OmenSignal::End);
                } else {
                    self.phase = Phase::Wake { elapsed: elapsed + 1 };
                }
            },
        }
        proof {
            let said = omen_step(*old(self), *old(progress), leg_ticks).2;
            assert(cues@ =~= c0 + said);
        }
    }

    /// Docked before the episode finished (a jump can land nearly on the
    /// pad): close it out so the omen cues always pair up.
    pub fn on_arrive(&mut self, cues: &mut Vec<OmenSignal>)
        ensures
            final(self).phase == Phase::Idle,
            final(self).jump_at is None,
            final(self).leg_counter == old(self).leg_counter,
            old(self).phase != Phase::Idle ==> final(cues)@ == old(cues)@.push(OmenSignal::End),
            old(self).phase == Phase::Idle ==> final(cues)@ == old(cues)@,
    {
        if self.phase != Phase::Idle {
            self.phase = Phase::Idle;
            cues.push(OmenSignal::End);
        }
        self.jump_at = None;
    }
}

/// The creak roll of travel tick `tick`, if that tick is its window's one
/// creak: the frontend plays it at loudness `0.2 + roll / 1000`.
pub open spec fn creak_at(seed: u64, tick: u64) -> Option<u64> {
    let h = spec_splitmix(seed ^ CREAK_SALT, tick / CREAK_WINDOW);
    if tick % CREAK_WINDOW == h % CREAK_WINDOW {
        Some((h >> 32u64) % 800)
    } else {
        None
    }
}

/// A deterministic hull creak, at one random tick per [`CREAK_WINDOW`] of
/// travel. Derived purely from the window number, so it needs no state.
pub fn creak(seed: u64, tick: u64) -> (r: Option<u64>)
    ensures
        r == creak_at(seed, tick),
{
    let h = splitmix(seed ^ CREAK_SALT, tick / CREAK_WINDOW);
    if tick % CREAK_WINDOW == h % CREAK_WINDOW {
        Some((h >> 32) % 800)
    } else {
        None
    }
}

/// Each creak window holds exactly one creak: the tick it names.
pub proof fn lemma_one_creak_per_window(seed: u64, a: u64, b: u64)
    requires
        a / CREAK_WINDOW == b / CREAK_WINDOW,
        creak_at(seed, a) is Some,
        creak_at(seed, b) is Some,
    ensures
        a == b,
{
    let h = spec_splitmix(seed ^ CREAK_SALT, a / CREAK_WINDOW);
    assert(a % CREAK_WINDOW == h % CREAK_WINDOW);
    assert(b % CREAK_WINDOW == h % CREAK_WINDOW);
    assert(a == CREAK_WINDOW * (a / CREAK_WINDOW) + a % CREAK_WINDOW);
    assert(b == CREAK_WINDOW * (b / CREAK_WINDOW) + b % CREAK_WINDOW);
}

/// A scheduled omen starts in the middle half of its leg: at or past the
/// half way mark, and before three quarters of it (at the half way mark
/// itself on a leg too short for that range).
pub proof fn lemma_omen_in_middle_half(seed: u64, leg: u64, leg_ticks: u64)
    requires
        leg_ticks <= OMEN_LEG_REACH,
    ensures
        leg_ticks / 2 <= omen_tick(seed, leg, leg_ticks),
        leg_ticks * 3 / 4 > leg_ticks / 2 ==> omen_tick(seed, leg, leg_ticks) < leg_ticks * 3 / 4,
        leg_ticks * 3 / 4 <= leg_ticks / 2 ==> omen_tick(seed, leg, leg_ticks) == leg_ticks / 2,
{
}

/// An omen episode from its start to its close: a jump after exactly
/// [`OMEN_LEAD_TICKS`] travel ticks, the episode closed after
/// [`OMEN_TAIL_TICKS`] more, and the three announcements in order.
pub open spec fn run_omen(events: Events, progress: u64, leg_ticks: u64, n: nat) -> (Events, u64, Seq<OmenSignal>)
    decreases n,
{
    if n == 0 {
        (events, progress, Seq::empty())
    } else {
        let (e1, p1, s1) = omen_step(events, progress, leg_ticks);
        let (e2, p2, s2) = run_omen(e1, p1, leg_ticks, (n - 1) as nat);
        (e2, p2, s1 + s2)
    }
}

/// Where a jump from `progress` lands on a leg of `leg_ticks`.
pub open spec fn jumped(progress: u64, leg_ticks: u64) -> u64 {
    (progress + (leg_ticks - progress) * JUMP_SKIP_NUM / (JUMP_SKIP_DEN as int)) as u64
}

/// The omen stage from its `k`-th tick: the jump after the stage's
/// remaining ticks, then whatever the next `m` ticks bring.
proof fn lemma_omen_stage(events: Events, k: u32, progress: u64, leg_ticks: u64, m: nat)
    requires
        k < OMEN_LEAD_TICKS,
    ensures
        ({
            let e = Events { phase: Phase::Omen { elapsed: k }, ..events };
            let rest = run_omen(
                Events { phase: Phase::Wake { elapsed: 0 }, ..events },
                jumped(progress, leg_ticks),
                leg_ticks,
                m,
            );
            run_omen(e, progress, leg_ticks, (OMEN_LEAD_TICKS - k + m) as nat) == (
                rest.0,
                rest.1,
                seq![OmenSignal::Jump] + rest.2,
            )
        }),
    decreases OMEN_LEAD_TICKS - k,
{
    let e = Events { phase: Phase::Omen { elapsed: k }, ..events };
    let n = (OMEN_LEAD_TICKS - k + m) as nat;
    let (e1, p1, s1) = omen_step(e, progress, leg_ticks);
    if k + 1 >= OMEN_LEAD_TICKS {
        assert(s1 == seq![OmenSignal::Jump]);
        assert((n - 1) as nat == m);
    } else {
        lemma_omen_stage(events, (k + 1) as u32, progress, leg_ticks, m);
        assert(e1 == Events { phase: Phase::Omen { elapsed: (k + 1) as u32 }, ..events });
        assert((n - 1) as nat == (OMEN_LEAD_TICKS - (k + 1) as u32 + m) as nat);
        assert(s1 == Seq::<OmenSignal>::empty());
        let rest = run_omen(
            Events { phase: Phase::Wake { elapsed: 0 }, ..events },
            jumped(progress, leg_ticks),
            leg_ticks,
            m,
        );
        assert(s1 + (seq![OmenSignal::Jump] + rest.2) =~= seq![OmenSignal::Jump] + rest.2);
    }
}

/// The wake from its `k`-th tick: the episode closes after the stage's
/// remaining ticks.
proof fn lemma_wake_stage(events: Events, k: u32, progress: u64, leg_ticks: u64)
    requires
        k < OMEN_TAIL_TICKS,
    ensures
        run_omen(
            Events { phase: Phase::Wake { elapsed: k }, ..events },
            progress,
            leg_ticks,
            (OMEN_TAIL_TICKS - k) as nat,
        ) == (Events { phase: Phase::Idle, jump_at: None, ..events }, progress, seq![OmenSignal::End]),
    decreases OMEN_TAIL_TICKS - k,
{
    let e = Events { phase: Phase::Wake { elapsed: k }, ..events };
    let (e1, p1, s1) = omen_step(e, progress, leg_ticks);
    let n = (OMEN_TAIL_TICKS - k) as nat;
    if k + 1 >= OMEN_TAIL_TICKS {
        assert((n - 1) as nat == 0);
        assert(e1 == Events { phase: Phase::Idle, jump_at: None, ..events });
        assert(run_omen(e1, p1, leg_ticks, 0) == (e1, p1, Seq::<OmenSignal>::empty()));
        assert(s1 + Seq::<OmenSignal>::empty() =~= s1);
    } else {
        lemma_wake_stage(events, (k + 1) as u32, progress, leg_ticks);
        assert(e1 == Events { phase: Phase::Wake { elapsed: (k + 1) as u32 }, ..events });
        assert((n - 1) as nat == (OMEN_TAIL_TICKS - (k + 1) as u32) as nat);
        assert(Seq::<OmenSignal>::empty() + seq![OmenSignal::End] =~= seq![OmenSignal::End]);
    }
}

/// An omen that comes due plays out whole: over the next
/// `1 + OMEN_LEAD_TICKS + OMEN_TAIL_TICKS` travel ticks it starts, jumps
/// once, and ends, in that order, and leaves nothing scheduled behind.
pub proof fn lemma_omen_fires_once(events: Events, at: u64, progress: u64, leg_ticks: u64)
    requires
        events.phase == Phase::Idle,
        events.jump_at == Some(at),
        at <= progress,
    ensures
        run_omen(events, progress, leg_ticks, (1 + OMEN_LEAD_TICKS + OMEN_TAIL_TICKS) as nat) == (
            Events { phase: Phase::Idle, jump_at: None, ..events },
            jumped(progress, leg_ticks),
            seq![OmenSignal::Start, OmenSignal::Jump, OmenSignal::End],
        ),
{
    let n = (1 + OMEN_LEAD_TICKS + OMEN_TAIL_TICKS) as nat;
    let e1 = Events { phase: Phase::Omen { elapsed: 0 }, ..events };
    assert(omen_step(events, progress, leg_ticks) == (e1, progress, seq![OmenSignal::Start]));
    lemma_omen_stage(events, 0, progress, leg_ticks, OMEN_TAIL_TICKS as nat);
    lemma_wake_stage(events, 0, jumped(progress, leg_ticks), leg_ticks);
    assert((n - 1) as nat == (OMEN_LEAD_TICKS - 0u32 + OMEN_TAIL_TICKS) as nat);
    assert(seq![OmenSignal::Start] + (seq![OmenSignal::Jump] + seq![OmenSignal::End]) =~= seq![
        OmenSignal::Start,
        OmenSignal::Jump,
        OmenSignal::End,
    ]);
}

} // verus!
