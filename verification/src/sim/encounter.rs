//! Travel encounters and the ad drone: things to meet over a leg.
//!
//! An encounter is a window `[start, end)` in leg progress, scheduled at
//! departure from `splitmix(seed, legs)` — so it saves, replays, and
//! fast-forwards bit-identically. Inside the window something sits
//! alongside the ship: a derelict with a hold, an inexplicable gas
//! station, an inexplicable casino, a meteor shower, or a whale. Ignore
//! any of them and the window closes.
//!
//! A suspicious jump moves `progress` forward discontinuously, which can
//! skip a window entirely (it never opens) or land past the end of an
//! open one (it closes on the next travel tick). Both fall out of
//! comparing `progress` against the window bounds instead of counting
//! elapsed ticks.
//!
//! The ad drone is the second, smaller machine here: a billboard that
//! latches onto the ship mid-leg until swatted twice or bored.
//!
//! What the machines say is a [`Signal`]: the frontend turns each into a
//! sound, and turns a signal's roll into that sound's loudness.

use vstd::prelude::*;
use crate::sim::cargo::Kind;
use crate::sim::{spec_splitmix, splitmix};

verus! {

/// One leg in this many carries an encounter.
pub const ENCOUNTER_CHANCE: u64 = 3;

/// One leg in this many attracts an ad drone (independent of encounters).
pub const AD_CHANCE: u64 = 4;

/// Longest an encounter window runs, in ticks (two minutes alongside).
pub const WINDOW_CAP: u64 = 7200;

/// Swats needed to knock the ad drone off the hull.
pub const AD_SWATS: u8 = 2;

/// Ticks between the meteor shower's extra creak volleys.
pub const METEOR_CREAK_EVERY: u64 = 90;

/// Ticks between whale verses while one is alongside.
pub const WHALE_VERSE_EVERY: u64 = 600;

/// Stream salts, disjoint from every other derived stream in the sim.
pub const SALT_ENCOUNTER: u64 = 0xE4C0_0117;

pub const SALT_AD: u64 = 0xAD_D12073;

pub const SALT_CASINO: u64 = 0xCA_51F0;


/// What an encounter or the drone announces.
#[derive(Clone, Copy, Debug, PartialEq, Eq, Structural)]
pub enum Signal {
    /// Something came alongside.
    EncounterStart,
    /// It fell astern.
    EncounterEnd,
    /// Gravel on the hull; loudness `0.3 + roll / 1000`.
    Creak { roll: u64 },
    /// A whale verse; loudness `0.3 + roll / 1000`.
    WhaleSong { roll: u64 },
    /// The whale noticed the garden and sang back, once, at full voice.
    WhaleReply,
    /// The drone latched on.
    AdStart,
    /// The drone left.
    AdEnd,
    /// A swat landed on the drone.
    AdSwat,
}

/// What is out there this leg.
#[derive(Clone, Copy, Debug, PartialEq, Eq, Structural)]
pub enum EncounterKind {
    /// A dead ship. Its cargo is on its own floor.
    Derelict,
    /// Fuel, snacks, flickering sign. Nobody knows who runs it.
    GasStation,
    /// Neon heptagram, no visible doors.
    Casino,
    /// Gravel weather. Loud, then profitable.
    MeteorShower,
    /// It is very large and it is singing. It likes gardens.
    Whale,
}

impl EncounterKind {
    /// Stable save token.
    pub open spec fn spec_token(self) -> u8 {
        match self {
            EncounterKind::Derelict => 0,
            EncounterKind::GasStation => 1,
            EncounterKind::Casino => 2,
            EncounterKind::MeteorShower => 3,
            EncounterKind::Whale => 4,
        }
    }

    /// Stable save token.
    pub fn token(self) -> (r: u8)
        ensures
            r == self.spec_token(),
    {
        match self {
            EncounterKind::Derelict => 0,
            EncounterKind::GasStation => 1,
            EncounterKind::Casino => 2,
            EncounterKind::MeteorShower => 3,
            EncounterKind::Whale => 4,
        }
    }

    /// The kind save token `t` names, if any.
    pub open spec fn spec_from_token(t: int) -> Option<EncounterKind> {
        if t == 0 {
            Some(EncounterKind::Derelict)
        } else if t == 1 {
            Some(EncounterKind::GasStation)
        } else if t == 2 {
            Some(EncounterKind::Casino)
        } else if t == 3 {
            Some(EncounterKind::MeteorShower)
        } else if t == 4 {
            Some(EncounterKind::Whale)
        } else {
            None
        }
    }

    /// Inverse of [`EncounterKind::token`].
    pub fn from_token(token: u8) -> (r: Option<Self>)
        ensures
            r matches Some(k) ==> k.spec_token() == token,
            r is None <==> token > 4,
            r == Self::spec_from_token(token as int),
    {
        match token {
            0 => Some(EncounterKind::Derelict),
            1 => Some(EncounterKind::GasStation),
            2 => Some(EncounterKind::Casino),
            3 => Some(EncounterKind::MeteorShower),
            4 => Some(EncounterKind::Whale),
            _ => None,
        }
    }
}

/// One scheduled (or running) encounter.
#[derive(Clone, Copy, Debug, PartialEq, Eq, Structural)]
pub struct Encounter {
    pub kind: EncounterKind,
    /// Window bounds in leg progress ticks.
    pub start: u64,
    pub end: u64,
    /// The window has opened (the thing is alongside).
    pub opened: bool,
    /// The window has closed (it fell astern, or the leg ended).
    pub closed: bool,
    /// The one-shot interaction is spent.
    pub used: bool,
}

impl Encounter {
    /// Whether the thing is alongside right now.
    pub fn open(&self) -> (r: bool)
        ensures
            r == (self.opened && !self.closed),
    {
        self.opened && !self.closed
    }
}

/// The encounter machine: at most one per leg.
#[derive(Clone, Debug, Default)]
pub struct Encounters {
    pub current: Option<Encounter>,
}

/// The kind a roll picks.
pub open spec fn kind_of_roll(h: u64) -> EncounterKind {
    let k = (h >> 8u64) % 5;
    if k == 0 {
        EncounterKind::Derelict
    } else if k == 1 {
        EncounterKind::GasStation
    } else if k == 2 {
        EncounterKind::Casino
    } else if k == 3 {
        EncounterKind::MeteorShower
    } else {
        EncounterKind::Whale
    }
}

/// This leg's encounter, if any: one leg in three that is long enough,
/// a window somewhere in the belly of the leg, never brushing the dock,
/// open for a quarter of the leg clamped to `1800..=7200` ticks.
pub open spec fn scheduled(seed: u64, legs: u64, leg_ticks: u64) -> Option<Encounter> {
    let h = spec_splitmix(seed ^ SALT_ENCOUNTER, legs);
    if h % ENCOUNTER_CHANCE != 0 || leg_ticks < 3600 {
        None
    } else {
        let half = if leg_ticks / 2 > 1 {
            leg_ticks / 2
        } else {
            1
        };
        let start = leg_ticks / 5 + (h >> 16u64) % half;
        let quarter = leg_ticks / 4;
        let duration = if quarter < 1800 {
            1800
        } else if quarter > WINDOW_CAP {
            WINDOW_CAP
        } else {
            quarter
        };
        let dock = if leg_ticks >= 600 {
            leg_ticks - 600
        } else {
            0
        };
        let capped = if start + duration < dock {
            start + duration
        } else {
            dock
        };
        let end = if capped > start + 1 {
            capped
        } else {
            start + 1
        };
        Some(
            Encounter {
                kind: kind_of_roll(h),
                start: start as u64,
                end: end as u64,
                opened: false,
                closed: false,
                used: false,
            },
        )
    }
}

/// **An encounter window lasts a quarter of the leg, held to 1800..=7200
/// ticks**: the window opens after it starts, never outlasts that
/// length, never runs into the last 600 ticks before the dock (unless it
/// has only its one opening tick), and has exactly that length whenever
/// it fits before the dock margin.
pub proof fn lemma_window_length(seed: u64, legs: u64, leg_ticks: u64)
    ensures
        scheduled(seed, legs, leg_ticks) matches Some(e) ==> {
            let quarter = leg_ticks / 4;
            let length: int = if quarter < 1800 {
                1800
            } else if quarter > 7200 {
                7200
            } else {
                quarter as int
            };
            &&& leg_ticks >= 3600
            &&& e.start < e.end
            &&& e.end - e.start <= length
            &&& e.end <= leg_ticks - 600 || e.end == e.start + 1
            &&& e.start + length < leg_ticks - 600 ==> e.end - e.start == length
        },
{
}

/// How one travel tick leaves an encounter: the encounter afterwards, what
/// it announced, and the flotsam it hands over.
pub open spec fn encounter_step(
    enc: Encounter,
    seed: u64,
    legs: u64,
    progress: u64,
    tick: u64,
    seedlings_aboard: bool,
) -> (Encounter, Seq<Signal>, Seq<Kind>) {
    if enc.closed {
        (enc, Seq::empty(), Seq::empty())
    } else if !enc.opened {
        if progress >= enc.end {
            (Encounter { closed: true, ..enc }, Seq::empty(), Seq::empty())
        } else if progress >= enc.start {
            let h = spec_splitmix(seed ^ SALT_ENCOUNTER, legs ^ 0xF107u64);
            let odd = if h % 3 == 0 {
                Kind::GildedIdol
            } else if h % 3 == 1 {
                Kind::CryoCore
            } else {
                Kind::BrinePearls
            };
            let flotsam = if enc.kind == EncounterKind::Derelict {
                if (h >> 32u64) % 3 == 0 {
                    seq![odd, Kind::MysteriousCrate]
                } else {
                    seq![odd, Kind::ScrapAlloy]
                }
            } else {
                Seq::empty()
            };
            (Encounter { opened: true, ..enc }, seq![Signal::EncounterStart], flotsam)
        } else {
            (enc, Seq::empty(), Seq::empty())
        }
    } else if progress >= enc.end {
        let salvage = if enc.kind == EncounterKind::MeteorShower {
            seq![Kind::ScrapAlloy]
        } else {
            Seq::empty()
        };
        (Encounter { closed: true, ..enc }, seq![Signal::EncounterEnd], salvage)
    } else if enc.kind == EncounterKind::MeteorShower {
        if progress % METEOR_CREAK_EVERY == 0 {
            let h = spec_splitmix(seed ^ SALT_ENCOUNTER, tick);
            (enc, seq![Signal::Creak { roll: (h >> 20u64) % 700 }], Seq::empty())
        } else {
            (enc, Seq::empty(), Seq::empty())
        }
    } else if enc.kind == EncounterKind::Whale {
        let song: Seq<Signal> = if progress % WHALE_VERSE_EVERY == 0 {
            let h = spec_splitmix(seed ^ SALT_ENCOUNTER, tick);
            seq![Signal::WhaleSong { roll: (h >> 12u64) % 500 }]
        } else {
            Seq::empty()
        };
        if seedlings_aboard && !enc.used && progress % WHALE_VERSE_EVERY == 300 {
            (Encounter { used: true, ..enc }, song.push(Signal::WhaleReply), Seq::empty())
        } else {
            (enc, song, Seq::empty())
        }
    } else {
        (enc, Seq::empty(), Seq::empty())
    }
}

impl Encounters {
    /// Nothing out there.
    pub fn new() -> (r: Self)
        ensures
            r.current is None,
    {
        Encounters { current: None }
    }

    /// Roll this leg's encounter, if any. Called at departure.
    pub fn on_depart(&mut self, seed: u64, legs: u64, leg_ticks: u64)
        ensures
            final(self).current == scheduled(seed, legs, leg_ticks),
    {
        self.current = None;
        let h = splitmix(seed ^ SALT_ENCOUNTER, legs);
        if h % ENCOUNTER_CHANCE != 0 || leg_ticks < 3600 {
            return;
        }
        let k = (h >> 8) % 5;
        let kind = if k == 0 {
            EncounterKind::Derelict
        } else if k == 1 {
            EncounterKind::GasStation
        } else if k == 2 {
            EncounterKind::Casino
        } else if k == 3 {
            EncounterKind::MeteorShower
        } else {
            EncounterKind::Whale
        };
        let half = if leg_ticks / 2 > 1 {
            leg_ticks / 2
        } else {
            1
        };
        let start = leg_ticks / 5 + (h >> 16) % half;
        let quarter = leg_ticks / 4;
        let duration = if quarter < 1800 {
            1800
        } else if quarter > WINDOW_CAP {
            WINDOW_CAP
        } else {
            quarter
        };
        let dock = leg_ticks.saturating_sub(600);
        let capped = if start + duration < dock {
            start + duration
        } else {
            dock
        };
        let end = if capped > start + 1 {
            capped
        } else {
            start + 1
        };
        self.current = Some(Encounter { kind, start, end, opened: false, closed: false, used: false });
    }

    /// One travel tick: open or close the window against `progress`. The
    /// omen jump moves `progress` in leaps; comparing against bounds (not
    /// counting ticks) is what makes a leap skip or close a window
    /// correctly. Returns flotsam to spawn when a window just opened (a
    /// derelict's hold) or just closed (a meteor shower's souvenir).
    pub fn travel_tick(
        &mut self,
        seed: u64,
        legs: u64,
        progress: u64,
        tick: u64,
        seedlings_aboard: bool,
        cues: &mut Vec<Signal>,
    ) -> (r: Vec<Kind>)
        ensures
            match old(self).current {
                None => final(self).current is None && final(cues)@ == old(cues)@ && r@.len() == 0,
                Some(enc) => {
                    let (after, said, flotsam) = encounter_step(enc, seed, legs, progress, tick, seedlings_aboard);
                    final(self).current == Some(after) && final(cues)@ == old(cues)@ + said && r@ == flotsam
                },
            },
    {
        let mut enc = match self.current {
            Some(e) => e,
            None => return Vec::new(),
        };
        let ghost start_cues = cues@;
        if enc.closed {
            return Vec::new();
        }
        if !enc.opened {
            if progress >= enc.end {
                enc.closed = true;
                self.current = Some(enc);
                return Vec::new();
            }
            if progress >= enc.start {
                enc.opened = true;
                self.current = Some(enc);
                cues.push(Signal::EncounterStart);
                let h = splitmix(seed ^ SALT_ENCOUNTER, legs ^ 0xF107);
                if enc.kind == EncounterKind::Derelict {
                    let odd = if h % 3 == 0 {
                        Kind::GildedIdol
                    } else if h % 3 == 1 {
                        Kind::CryoCore
                    } else {
                        Kind::BrinePearls
                    };
                    let mut out: Vec<Kind> = Vec::new();
                    out.push(odd);
                    if (h >> 32) % 3 == 0 {
                        out.push(Kind::MysteriousCrate);
                    } else {
                        out.push(Kind::ScrapAlloy);
                    }
                    return out;
                }
                return Vec::new();
            }
            return Vec::new();
        }
        if progress >= enc.end {
            enc.closed = true;
            self.current = Some(enc);
            cues.push(Signal::EncounterEnd);
            if enc.kind == EncounterKind::MeteorShower {
                let mut out: Vec<Kind> = Vec::new();
                out.push(Kind::ScrapAlloy);
                return out;
            }
            return Vec::new();
        }
        if enc.kind == EncounterKind::MeteorShower {
            if progress % METEOR_CREAK_EVERY == 0 {
                let h = splitmix(seed ^ SALT_ENCOUNTER, tick);
                cues.push(Signal::Creak { roll: (h >> 20) % 700 });
            }
        } else if enc.kind == EncounterKind::Whale {
            if progress % WHALE_VERSE_EVERY == 0 {
                let h = splitmix(seed ^ SALT_ENCOUNTER, tick);
                cues.push(Signal::WhaleSong { roll: (h >> 12) % 500 });
            }
            if seedlings_aboard && !enc.used && progress % WHALE_VERSE_EVERY == 300 {
                enc.used = true;
                self.current = Some(enc);
                cues.push(Signal::WhaleReply);
            }
        }
        Vec::new()
    }

    /// Docked: whatever was alongside falls astern for good.
    pub fn on_dock(&mut self, cues: &mut Vec<Signal>)
        ensures
            final(self).current is None,
            final(cues)@ == old(cues)@ + if old(self).current matches Some(e) && e.opened && !e.closed {
                seq![Signal::EncounterEnd]
            } else {
                Seq::empty()
            },
    {
        if let Some(enc) = self.current {
            if enc.open() {
                cues.push(Signal::EncounterEnd);
            }
        }
        self.current = None;
    }

    /// The casino's coin, flipped once per wager. `true` is a win.
    pub fn casino_coin(seed: u64, tick: u64) -> (r: bool)
        ensures
            r == (spec_splitmix(seed ^ SALT_CASINO, tick) % 2 == 0),
    {
        splitmix(seed ^ SALT_CASINO, tick) % 2 == 0
    }
}

/// The ad drone: a flying billboard that latches on mid-leg.
#[derive(Clone, Copy, Debug, PartialEq, Eq, Structural)]
pub struct Drone {
    /// Window bounds in leg progress ticks.
    pub start: u64,
    pub end: u64,
    /// It is currently attached and advertising.
    pub attached: bool,
    /// It has left (swatted off or bored), never to return this leg.
    pub gone: bool,
    /// Swats landed so far, `0..AD_SWATS`.
    pub swats: u8,
}

/// The drone machine: at most one per leg.
#[derive(Clone, Debug, Default)]
pub struct Drones {
    pub drone: Option<Drone>,
}

/// This leg's drone, if any: one leg in four that is long enough, in a
/// window that must leave room before the dock.
pub open spec fn drone_scheduled(seed: u64, legs: u64, leg_ticks: u64) -> Option<Drone> {
    let h = spec_splitmix(seed ^ SALT_AD, legs);
    if h % AD_CHANCE != 0 || leg_ticks < 3600 {
        None
    } else {
        let half = if leg_ticks / 2 > 1 {
            leg_ticks / 2
        } else {
            1
        };
        let start = leg_ticks / 6 + (h >> 16u64) % half;
        let third = if leg_ticks / 3 < WINDOW_CAP {
            leg_ticks / 3
        } else {
            WINDOW_CAP
        };
        let dock = if leg_ticks >= 300 {
            leg_ticks - 300
        } else {
            0
        };
        let end = if start + third < dock {
            start + third
        } else {
            dock
        };
        if end <= start {
            None
        } else {
            Some(Drone { start: start as u64, end: end as u64, attached: false, gone: false, swats: 0 })
        }
    }
}

/// How one travel tick leaves the drone, and what it announced.
pub open spec fn drone_step(drone: Drone, progress: u64) -> (Drone, Seq<Signal>) {
    if drone.gone {
        (drone, Seq::empty())
    } else if !drone.attached {
        if progress >= drone.end {
            (Drone { gone: true, ..drone }, Seq::empty())
        } else if progress >= drone.start {
            (Drone { attached: true, ..drone }, seq![Signal::AdStart])
        } else {
            (drone, Seq::empty())
        }
    } else if progress >= drone.end {
        (Drone { attached: false, gone: true, ..drone }, seq![Signal::AdEnd])
    } else {
        (drone, Seq::empty())
    }
}

impl Drones {
    /// No drone.
    pub fn new() -> (r: Self)
        ensures
            r.drone is None,
    {
        Drones { drone: None }
    }

    /// Roll this leg's drone, if any. Independent of the encounter roll.
    pub fn on_depart(&mut self, seed: u64, legs: u64, leg_ticks: u64)
        ensures
            final(self).drone == drone_scheduled(seed, legs, leg_ticks),
    {
        self.drone = None;
        let h = splitmix(seed ^ SALT_AD, legs);
        if h % AD_CHANCE != 0 || leg_ticks < 3600 {
            return;
        }
        let half = if leg_ticks / 2 > 1 {
            leg_ticks / 2
        } else {
            1
        };
        let start = leg_ticks / 6 + (h >> 16) % half;
        let third = if leg_ticks / 3 < WINDOW_CAP {
            leg_ticks / 3
        } else {
            WINDOW_CAP
        };
        let dock = leg_ticks.saturating_sub(300);
        let end = if start + third < dock {
            start + third
        } else {
            dock
        };
        if end <= start {
            return;
        }
        self.drone = Some(Drone { start, end, attached: false, gone: false, swats: 0 });
    }

    /// One travel tick: latch on or get bored, against `progress`.
    pub fn travel_tick(&mut self, progress: u64, cues: &mut Vec<Signal>)
        ensures
            match old(self).drone {
                None => final(self).drone is None && final(cues)@ == old(cues)@,
                Some(d) => {
                    let (after, said) = drone_step(d, progress);
                    final(self).drone == Some(after) && final(cues)@ == old(cues)@ + said
                },
            },
    {
        let mut drone = match self.drone {
            Some(d) => d,
            None => return,
        };
        if drone.gone {
            return;
        }
        if !drone.attached {
            if progress >= drone.end {
                drone.gone = true;
            } else if progress >= drone.start {
                drone.attached = true;
                cues.push(Signal::AdStart);
            }
            self.drone = Some(drone);
            return;
        }
        if progress >= drone.end {
            drone.attached = false;
            drone.gone = true;
            self.drone = Some(drone);
            cues.push(Signal::AdEnd);
        }
    }

    /// A press landed on the drone: one swat. The second knocks it off.
    /// Returns whether the press was consumed.
    pub fn on_press(&mut self, cues: &mut Vec<Signal>) -> (r: bool)
        requires
            old(self).drone matches Some(d) ==> d.swats < AD_SWATS,
        ensures
            r == (old(self).drone matches Some(d) && d.attached),
            !r ==> final(self).drone == old(self).drone && final(cues)@ == old(cues)@,
            r ==> {
                let d = old(self).drone->0;
                let swats = (d.swats + 1) as u8;
                if swats >= AD_SWATS {
                    final(self).drone == Some(Drone { swats, attached: false, gone: true, ..d })
                        && final(cues)@ == old(cues)@ + seq![Signal::AdSwat, Signal::AdEnd]
                } else {
                    final(self).drone == Some(Drone { swats, ..d }) && final(cues)@ == old(cues)@ + seq![
                        Signal::AdSwat,
                    ]
                }
            },
    {
        let mut drone = match self.drone {
            Some(d) => d,
            None => return false,
        };
        if !drone.attached {
            return false;
        }
        drone.swats = drone.swats + 1;
        cues.push(Signal::AdSwat);
        if drone.swats >= AD_SWATS {
            drone.attached = false;
            drone.gone = true;
            cues.push(Signal::AdEnd);
        }
        self.drone = Some(drone);
        true
    }

    /// Docked: any surviving drone peels away to bother someone else.
    pub fn on_dock(&mut self, cues: &mut Vec<Signal>)
        ensures
            final(self).drone is None,
            final(cues)@ == old(cues)@ + if old(self).drone matches Some(d) && d.attached {
                seq![Signal::AdEnd]
            } else {
                Seq::empty()
            },
    {
        if let Some(drone) = self.drone {
            if drone.attached {
                cues.push(Signal::AdEnd);
            }
        }
        self.drone = None;
    }

    /// Whether the ads are playing right now.
    pub fn advertising(&self) -> (r: bool)
        ensures
            r == (self.drone matches Some(d) && d.attached),
    {
        match self.drone {
            Some(d) => d.attached,
            None => false,
        }
    }
}

} // verus!
