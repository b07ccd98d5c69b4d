use vstd::prelude::*;
use crate::{ButtonLabel, MouseEvent};
use crate::tracker::monotone;

verus! {

/// Pause between an injected press and its release, in microseconds, so the
/// platform registers the click as a discrete event.
pub const SETTLE_US: u64 = 5000;

/// One instruction of a replay plan. The executor performs them in order:
/// for `MoveTo` it waits until `target_us` microseconds after the instant
/// the replay started (or not at all if that instant has already passed)
/// and then injects a pointer move; `Press`/`Release` inject a click edge;
/// `Settle` pauses for `SETTLE_US`.
#[derive(Clone, Copy, Debug, PartialEq, Eq, Structural)]
pub enum ReplayStep {
    MoveTo { target_us: u64, x: i32, y: i32 },
    Press { button: ButtonLabel },
    Settle,
    Release { button: ButtonLabel },
}

/// Only the three standard buttons can be injected; an `Other` label is
/// skipped at replay, not an error.
pub open spec fn injectable(b: ButtonLabel) -> bool {
    b != ButtonLabel::Other
}

/// The steps one sample contributes, given the first timestamp `t0` of the
/// timeline: a move to its coordinates scheduled at its offset from `t0`,
/// then, for an injectable click, a press, a settle pause, and a release of
/// the same button.
pub open spec fn steps_of(e: MouseEvent, t0: u64) -> Seq<ReplayStep> {
    let mv = seq![ReplayStep::MoveTo { target_us: (e.time_us - t0) as u64, x: e.x, y: e.y }];
    match e.button {
        Some(b) => if injectable(b) {
            mv + seq![
                ReplayStep::Press { button: b },
                ReplayStep::Settle,
                ReplayStep::Release { button: b },
            ]
        } else {
            mv
        },
        None => mv,
    }
}

pub open spec fn plan_rec(s: Seq<MouseEvent>, t0: u64) -> Seq<ReplayStep>
    decreases s.len(),
{
    if s.len() == 0 {
        Seq::empty()
    } else {
        steps_of(s.first(), t0) + plan_rec(s.drop_first(), t0)
    }
}

/// The whole plan of a timeline: every target offset is computed against the
/// first sample's timestamp, never re-based, so a late sample compresses
/// nothing that follows it.
pub open spec fn plan_spec(s: Seq<MouseEvent>) -> Seq<ReplayStep> {
    if s.len() == 0 {
        Seq::empty()
    } else {
        plan_rec(s, s.first().time_us)
    }
}

proof fn lemma_plan_rec_snoc(s: Seq<MouseEvent>, e: MouseEvent, t0: u64)
    ensures
        plan_rec(s.push(e), t0) == plan_rec(s, t0) + steps_of(e, t0),
    decreases s.len(),
{
    if s.len() == 0 {
        assert(s.push(e).first() == e);
        assert(s.push(e).drop_first() =~= Seq::<MouseEvent>::empty());
        assert(plan_rec(s.push(e).drop_first(), t0) =~= Seq::<ReplayStep>::empty());
        assert(plan_rec(s.push(e), t0) =~= steps_of(e, t0));
        assert(plan_rec(s, t0) + steps_of(e, t0) =~= steps_of(e, t0));
    } else {
        assert(s.push(e).first() == s.first());
        assert(s.push(e).drop_first() =~= s.drop_first().push(e));
        lemma_plan_rec_snoc(s.drop_first(), e, t0);
        assert(plan_rec(s.push(e), t0)
            =~= plan_rec(s, t0) + steps_of(e, t0));
    }
}

proof fn lemma_mono_trans(s: Seq<MouseEvent>, i: int, j: int)
    requires
        forall|k: int| 1 <= k < s.len() ==> s[k - 1].time_us <= #[trigger] s[k].time_us,
        0 <= i <= j < s.len(),
    ensures
        s[i].time_us <= s[j].time_us,
    decreases j - i,
{
    if i < j {
        lemma_mono_trans(s, i, j - 1);
        assert(s[j - 1].time_us <= s[j].time_us);
    }
}

proof fn lemma_adjacent_monotone(s: Seq<MouseEvent>)
    requires
        forall|k: int| 1 <= k < s.len() ==> s[k - 1].time_us <= #[trigger] s[k].time_us,
    ensures
        monotone(s),
{
    assert forall|i: int, j: int| 0 <= i <= j < s.len() implies s[i].time_us <= s[j].time_us by {
        lemma_mono_trans(s, i, j);
    }
}

/// The replayer: holds a loaded, read-only timeline.
pub struct Replayer {
    pub events: Vec<MouseEvent>,
}

impl Replayer {
    /// Loads a timeline for replay.
    pub fn new(events: Vec<MouseEvent>) -> (r: Replayer)
        ensures
            r.events@ == events@,
    {
        Replayer { events }
    }

    /// Whether the loaded timeline keeps the timestamp invariant.
    pub fn is_monotone(&self) -> (r: bool)
        ensures
            r == monotone(self.events@),
    {
        let n = self.events.len();
        let mut i: usize = 1;
        while i < n
            invariant
                1 <= i,
                n == self.events@.len(),
                forall|k: int| 1 <= k < i ==> self.events@[k - 1].time_us <= #[trigger] self.events@[k].time_us,
            decreases n - i,
        {
            if self.events[i - 1].time_us > self.events[i].time_us {
                proof {
                    let s = self.events@;
                    assert(!monotone(s)) by {
                        if monotone(s) {
                            assert(s[i - 1].time_us <= s[i as int].time_us);
                        }
                    }
                }
                return false;
            }
            i = i + 1;
        }
        proof {
            lemma_adjacent_monotone(self.events@);
        }
        true
    }

    /// Computes the replay plan. An empty timeline yields an empty plan:
    /// replaying it performs no injection at all.
    pub fn plan(&self) -> (r: Vec<ReplayStep>)
        requires
            monotone(self.events@),
        ensures
            r@ == plan_spec(self.events@),
    {
        let mut out: Vec<ReplayStep> = Vec::new();
        let n = self.events.len();
        if n == 0 {
            return out;
        }
        let t0 = self.events[0].time_us;
        let mut i: usize = 0;
        while i < n
            invariant
                0 <= i <= n,
                n == self.events@.len(),
                n > 0,
                monotone(self.events@),
                t0 == self.events@.first().time_us,
                out@ == plan_rec(self.events@.take(i as int), t0),
            decreases n - i,
        {
            let e = self.events[i];
            proof {
                assert(self.events@[0].time_us <= self.events@[i as int].time_us);
            }
            out.push(ReplayStep::MoveTo { target_us: e.time_us - t0, x: e.x, y: e.y });
            match e.button {
                Some(b) => {
                    if !matches!(b, ButtonLabel::Other) {
                        out.push(ReplayStep::Press { button: b });
                        out.push(ReplayStep::Settle);
                        out.push(ReplayStep::Release { button: b });
                    }
                }
                None => {}
            }
            proof {
                lemma_plan_rec_snoc(self.events@.take(i as int), e, t0);
                assert(self.events@.take(i + 1) =~= self.events@.take(i as int).push(e));
                assert(out@ =~= plan_rec(self.events@.take(i + 1), t0));
            }
            i = i + 1;
        }
        proof {
            assert(self.events@.take(n as int) =~= self.events@);
        }
        out
    }
}

pub open spec fn is_move_step(p: ReplayStep) -> bool {
    p matches ReplayStep::MoveTo { .. }
}

/// The pointer moves of a plan, in order.
pub open spec fn moves_of(p: Seq<ReplayStep>) -> Seq<ReplayStep>
    decreases p.len(),
{
    if p.len() == 0 {
        Seq::empty()
    } else if is_move_step(p.first()) {
        seq![p.first()] + moves_of(p.drop_first())
    } else {
        moves_of(p.drop_first())
    }
}

/// The presses of a plan, in order.
pub open spec fn presses_of(p: Seq<ReplayStep>) -> Seq<ReplayStep>
    decreases p.len(),
{
    if p.len() == 0 {
        Seq::empty()
    } else if p.first() matches ReplayStep::Press { .. } {
        seq![p.first()] + presses_of(p.drop_first())
    } else {
        presses_of(p.drop_first())
    }
}

/// The presses a timeline owes: one per sample with an injectable click.
pub open spec fn press_list(s: Seq<MouseEvent>) -> Seq<ReplayStep>
    decreases s.len(),
{
    if s.len() == 0 {
        Seq::empty()
    } else {
        let head = match s.first().button {
            Some(b) => if injectable(b) {
                seq![ReplayStep::Press { button: b }]
            } else {
                Seq::empty()
            },
            None => Seq::empty(),
        };
        head + press_list(s.drop_first())
    }
}

proof fn lemma_moves_concat(a: Seq<ReplayStep>, b: Seq<ReplayStep>)
    ensures
        moves_of(a + b) == moves_of(a) + moves_of(b),
        presses_of(a + b) == presses_of(a) + presses_of(b),
    decreases a.len(),
{
    if a.len() == 0 {
        assert(a + b =~= b);
        assert(moves_of(a) =~= Seq::<ReplayStep>::empty());
        assert(presses_of(a) =~= Seq::<ReplayStep>::empty());
        assert(moves_of(a) + moves_of(b) =~= moves_of(b));
        assert(presses_of(a) + presses_of(b) =~= presses_of(b));
    } else {
        assert((a + b).first() == a.first());
        assert((a + b).drop_first() =~= a.drop_first() + b);
        lemma_moves_concat(a.drop_first(), b);
        if is_move_step(a.first()) {
            assert(moves_of(a + b) =~= moves_of(a) + moves_of(b));
        } else {
            assert(moves_of(a + b) =~= moves_of(a) + moves_of(b));
        }
        assert(presses_of(a + b) =~= presses_of(a) + presses_of(b));
    }
}

proof fn lemma_steps_of_parts(e: MouseEvent, t0: u64)
    ensures
        moves_of(steps_of(e, t0)) == seq![
            ReplayStep::MoveTo { target_us: (e.time_us - t0) as u64, x: e.x, y: e.y },
        ],
        presses_of(steps_of(e, t0)) == (match e.button {
            Some(b) => if injectable(b) {
                seq![ReplayStep::Press { button: b }]
            } else {
                Seq::<ReplayStep>::empty()
            },
            None => Seq::<ReplayStep>::empty(),
        }),
{
    let mv = ReplayStep::MoveTo { target_us: (e.time_us - t0) as u64, x: e.x, y: e.y };
    match e.button {
        Some(b) => {
            if injectable(b) {
                let tail = seq![
                    ReplayStep::Press { button: b },
                    ReplayStep::Settle,
                    ReplayStep::Release { button: b },
                ];
                let p = steps_of(e, t0);
                assert(p =~= seq![mv] + tail);
                assert(p.first() == mv);
                assert(p.drop_first() =~= tail);
                assert(tail.drop_first() =~= seq![
                    ReplayStep::Settle,
                    ReplayStep::Release { button: b },
                ]);
                assert(tail.drop_first().drop_first() =~= seq![ReplayStep::Release { button: b }]);
                assert(tail.drop_first().drop_first().drop_first()
                    =~= Seq::<ReplayStep>::empty());
                assert(moves_of(tail.drop_first().drop_first().drop_first())
                    =~= Seq::<ReplayStep>::empty());
                assert(presses_of(tail.drop_first().drop_first().drop_first())
                    =~= Seq::<ReplayStep>::empty());
                assert(moves_of(tail.drop_first().drop_first()) =~= Seq::<ReplayStep>::empty());
                assert(presses_of(tail.drop_first().drop_first()) =~= Seq::<ReplayStep>::empty());
                assert(moves_of(tail.drop_first()) =~= Seq::<ReplayStep>::empty());
                assert(presses_of(tail.drop_first()) =~= Seq::<ReplayStep>::empty());
                assert(moves_of(tail) =~= Seq::<ReplayStep>::empty());
                assert(presses_of(tail) =~= seq![ReplayStep::Press { button: b }]);
                assert(moves_of(p) =~= seq![mv]);
                assert(presses_of(p) =~= seq![ReplayStep::Press { button: b }]);
            } else {
                assert(steps_of(e, t0) =~= seq![mv]);
                assert(steps_of(e, t0).drop_first() =~= Seq::<ReplayStep>::empty());
                assert(moves_of(steps_of(e, t0).drop_first()) =~= Seq::<ReplayStep>::empty());
                assert(presses_of(steps_of(e, t0).drop_first()) =~= Seq::<ReplayStep>::empty());
                assert(moves_of(steps_of(e, t0)) =~= seq![mv]);
                assert(presses_of(steps_of(e, t0)) =~= Seq::<ReplayStep>::empty());
            }
        },
        None => {
            assert(steps_of(e, t0) =~= seq![mv]);
            assert(steps_of(e, t0).drop_first() =~= Seq::<ReplayStep>::empty());
            assert(moves_of(steps_of(e, t0).drop_first()) =~= Seq::<ReplayStep>::empty());
            assert(presses_of(steps_of(e, t0).drop_first()) =~= Seq::<ReplayStep>::empty());
            assert(moves_of(steps_of(e, t0)) =~= seq![mv]);
            assert(presses_of(steps_of(e, t0)) =~= Seq::<ReplayStep>::empty());
        },
    }
}

proof fn lemma_plan_rec_parts(s: Seq<MouseEvent>, t0: u64)
    ensures
        moves_of(plan_rec(s, t0)).len() == s.len(),
        forall|i: int| 0 <= i < s.len() ==> moves_of(plan_rec(s, t0))[i] == (ReplayStep::MoveTo {
            target_us: (s[i].time_us - t0) as u64,
            x: s[i].x,
            y: s[i].y,
        }),
        presses_of(plan_rec(s, t0)) == press_list(s),
    decreases s.len(),
{
    if s.len() == 0 {
        assert(moves_of(plan_rec(s, t0)) =~= Seq::<ReplayStep>::empty());
        assert(presses_of(plan_rec(s, t0)) =~= press_list(s));
    } else {
        lemma_steps_of_parts(s.first(), t0);
        lemma_moves_concat(steps_of(s.first(), t0), plan_rec(s.drop_first(), t0));
        lemma_plan_rec_parts(s.drop_first(), t0);
        assert forall|i: int| 0 <= i < s.len() implies moves_of(plan_rec(s, t0))[i]
            == (ReplayStep::MoveTo {
            target_us: (s[i].time_us - t0) as u64,
            x: s[i].x,
            y: s[i].y,
        }) by {
            if i > 0 {
                assert(s.drop_first()[i - 1] == s[i]);
                assert(moves_of(plan_rec(s, t0))[i]
                    == moves_of(plan_rec(s.drop_first(), t0))[i - 1]);
            }
        }
        assert(presses_of(plan_rec(s, t0)) =~= press_list(s));
    }
}

/// Replay pacing and the late-sample policy in one statement: the plan
/// holds exactly one pointer move per sample, in timeline order, and every
/// move's target offset is its sample's distance from the first timestamp —
/// never re-based to any later moment, so nothing is ever compressed.
pub proof fn lemma_move_targets(s: Seq<MouseEvent>)
    requires
        s.len() > 0,
    ensures
        moves_of(plan_spec(s)).len() == s.len(),
        forall|i: int| 0 <= i < s.len() ==> moves_of(plan_spec(s))[i] == (ReplayStep::MoveTo {
            target_us: (s[i].time_us - s[0].time_us) as u64,
            x: s[i].x,
            y: s[i].y,
        }),
{
    lemma_plan_rec_parts(s, s.first().time_us);
}

/// Button fidelity: the plan presses exactly the buttons the timeline's
/// click samples carry, one press per click, in order, and no other.
pub proof fn lemma_press_fidelity(s: Seq<MouseEvent>)
    ensures
        presses_of(plan_spec(s)) == press_list(s),
{
    if s.len() == 0 {
        assert(plan_spec(s) =~= Seq::<ReplayStep>::empty());
        assert(presses_of(plan_spec(s)) =~= Seq::<ReplayStep>::empty());
        assert(press_list(s) =~= Seq::<ReplayStep>::empty());
    } else {
        lemma_plan_rec_parts(s, s.first().time_us);
    }
}

/// Every press is followed immediately by the settle pause and then the
/// release of the same button: a click always lands as one whole pair.
pub proof fn lemma_click_pairing(s: Seq<MouseEvent>)
    ensures
        forall|i: int|
            0 <= i < plan_spec(s).len() && #[trigger] plan_spec(s)[i] is Press ==> i + 2
                < plan_spec(s).len() && plan_spec(s)[i + 1] == ReplayStep::Settle
                && plan_spec(s)[i + 2] == (ReplayStep::Release {
                button: plan_spec(s)[i]->Press_button,
            }),
{
    if s.len() > 0 {
        lemma_pairing_rec(s, s.first().time_us);
    }
}

proof fn lemma_pairing_rec(s: Seq<MouseEvent>, t0: u64)
    ensures
        forall|i: int|
            0 <= i < plan_rec(s, t0).len() && #[trigger] plan_rec(s, t0)[i] is Press ==> i + 2
                < plan_rec(s, t0).len() && plan_rec(s, t0)[i + 1] == ReplayStep::Settle
                && plan_rec(s, t0)[i + 2] == (ReplayStep::Release {
                button: plan_rec(s, t0)[i]->Press_button,
            }),
    decreases s.len(),
{
    if s.len() == 0 {
    } else {
        lemma_pairing_rec(s.drop_first(), t0);
        let head = steps_of(s.first(), t0);
        let tail = plan_rec(s.drop_first(), t0);
        let p = plan_rec(s, t0);
        assert(p == head + tail);
        assert forall|i: int|
            0 <= i < p.len() && p[i] is Press implies i + 2 < p.len()
            && p[i + 1] == ReplayStep::Settle && p[i + 2] == (ReplayStep::Release {
            button: p[i]->Press_button,
        })
        by {
            let b = p[i]->Press_button;
            if i < head.len() {
                // A press occurs only as the second step of a click block.
                match s.first().button {
                    Some(bb) => {
                        if injectable(bb) {
                            assert(head.len() == 4);
                            assert(head[0] is MoveTo);
                            assert(head[1] == ReplayStep::Press { button: bb });
                            assert(head[2] == ReplayStep::Settle);
                            assert(head[3] == ReplayStep::Release { button: bb });
                            assert(i == 1);
                            assert(p[i + 1] == head[2]);
                            assert(p[i + 2] == head[3]);
                        } else {
                            assert(head.len() == 1 && head[0] is MoveTo);
                        }
                    },
                    None => {
                        assert(head.len() == 1 && head[0] is MoveTo);
                    },
                }
            } else {
                assert(tail[i - head.len()] == (ReplayStep::Press { button: b }));
                assert(tail[i - head.len() + 1] == ReplayStep::Settle);
                assert(tail[i - head.len() + 2] == (ReplayStep::Release { button: b }));
            }
        }
    }
}

/// Replaying an empty timeline is a no-op: the plan holds not a single
/// step, so not a single injection is performed.
pub proof fn lemma_empty_plan()
    ensures
        plan_spec(Seq::<MouseEvent>::empty()) == Seq::<ReplayStep>::empty(),
{
}

} // verus!
