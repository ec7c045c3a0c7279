//! Binding Engine: offers candidate names from the back of a worklist and
//! claims a controller for the current candidate when its accept input
//! fires. A decline anywhere skips the candidate. Successful claims are
//! throttled: after one, no scan runs for the next 250 milliseconds, so a
//! player can release the accept button before the next candidate is
//! offered. The worklist is loaded by the caller (one name per line of the
//! configured names file) and handed in at construction.

use vstd::prelude::*;

use crate::injoy::{GamepadInput, GamepadInputView, fires, spec_fires};
use crate::joypaths::{
    EventPathEntryView, EventPathLookup, MinimalPathLookup, NamedPathView, epl_get,
    epl_keys_unique, mpl_has_key, spec_bind_at,
};

verus! {

/// Milliseconds a successful claim blocks the next scan.
pub const CLAIM_COOLDOWN_MILLIS: u64 = 250;

#[derive(Copy, Clone, PartialEq, Eq, Structural, Debug)]
pub enum UpdateState {
    Done,
    Binding,
}

pub struct Binder {
    pub bindings_to_make: Vec<String>,
    pub next_binding_allowed_time: Option<u64>,
    pub cached_state: UpdateState,
}

/// Mathematical image of a `Binder`.
pub struct BinderModel {
    pub worklist: Seq<Seq<char>>,
    pub next_allowed: Option<u64>,
    pub state: UpdateState,
}

impl View for Binder {
    type V = BinderModel;

    open spec fn view(&self) -> BinderModel {
        BinderModel {
            worklist: self.bindings_to_make.deep_view(),
            next_allowed: self.next_binding_allowed_time,
            state: self.cached_state,
        }
    }
}

/// What one claim scan over the live controllers decides, reading them in
/// order: the first controller whose decline fires abandons the candidate;
/// otherwise the first whose accept fires and whose devpath resolves to a
/// known minimal path binds it; with neither, nothing triggers.
pub enum ClaimOutcome {
    NoTrigger,
    Skipped,
    Bound(Seq<char>),
}

/// The devpath resolves through the event-path cache to a minimal path the
/// table knows.
pub open spec fn resolvable(
    devpath: Seq<char>,
    epl: Seq<EventPathEntryView>,
    mpl: Seq<NamedPathView>,
) -> bool {
    match epl_get(epl, devpath) {
        Option::Some(minimal) => mpl_has_key(mpl, minimal),
        Option::None => false,
    }
}

/// Outcome of one claim scan (see `ClaimOutcome`).
pub open spec fn spec_claim_attempt(
    pads: Seq<GamepadInputView>,
    epl: Seq<EventPathEntryView>,
    mpl: Seq<NamedPathView>,
) -> ClaimOutcome
    decreases pads.len(),
{
    if pads.len() == 0 {
        ClaimOutcome::NoTrigger
    } else {
        let pad = pads[0];
        if spec_fires(pad.decline_milli) {
            ClaimOutcome::Skipped
        } else if spec_fires(pad.accept_milli) && resolvable(pad.devpath, epl, mpl) {
            ClaimOutcome::Bound(epl_get(epl, pad.devpath)->0)
        } else {
            spec_claim_attempt(pads.drop_first(), epl, mpl)
        }
    }
}

/// A scan may run: no cooldown is pending, or it has elapsed.
pub open spec fn binding_allowed(m: BinderModel, now: u64) -> bool {
    match m.next_allowed {
        Option::None => true,
        Option::Some(t) => t <= now,
    }
}

/// One engine tick on the model: a blocked tick changes nothing; an empty
/// worklist makes the engine `Done` for good; a triggering scan consumes
/// the last candidate and starts the cooldown; a silent scan retries later.
pub open spec fn spec_binder_step(m: BinderModel, outcome: ClaimOutcome, now: u64) -> BinderModel {
    if !binding_allowed(m, now) {
        m
    } else if m.worklist.len() == 0 {
        BinderModel { worklist: m.worklist, next_allowed: m.next_allowed, state: UpdateState::Done }
    } else {
        match outcome {
            ClaimOutcome::NoTrigger => m,
            _ => BinderModel {
                worklist: m.worklist.drop_last(),
                next_allowed: Option::Some((now + CLAIM_COOLDOWN_MILLIS) as u64),
                state: m.state,
            },
        }
    }
}

/// The tick consumes a candidate (a successful claim or an explicit skip).
pub open spec fn spec_step_claims(m: BinderModel, outcome: ClaimOutcome, now: u64) -> bool {
    binding_allowed(m, now) && m.worklist.len() > 0 && !(outcome is NoTrigger)
}

impl Binder {
    /// A fresh engine over the given worklist; candidates are offered from
    /// the back.
    pub fn new(bindings_to_make: Vec<String>) -> (r: Self)
        ensures
            r@.worklist == bindings_to_make.deep_view(),
            r@.next_allowed is None,
            r@.state is Binding,
    {
        Binder {
            bindings_to_make,
            next_binding_allowed_time: None,
            cached_state: UpdateState::Binding,
        }
    }

    /// One claim scan for `candidate_binding` over the live controllers, in
    /// order. A firing decline abandons the candidate (reported as success
    /// with the table untouched); a firing accept on a resolvable controller
    /// binds the candidate to that controller's record and strips it from
    /// any other record; otherwise the attempt failed and nothing changed.
    pub fn perform_candidate_binding(
        &self,
        candidate_binding: &str,
        pads: &Vec<GamepadInput>,
        epl: &EventPathLookup,
        mpl: &mut MinimalPathLookup,
    ) -> (r: Result<(), ()>)
        requires
            epl_keys_unique(epl@),
        ensures
            match spec_claim_attempt(pads.deep_view(), epl@, old(mpl)@) {
                ClaimOutcome::NoTrigger => r is Err && final(mpl)@ == old(mpl)@,
                ClaimOutcome::Skipped => r is Ok && final(mpl)@ == old(mpl)@,
                ClaimOutcome::Bound(key) => r is Ok && final(mpl)@.len() == old(mpl)@.len()
                    && forall|i: int|
                    0 <= i < final(mpl)@.len() ==> final(mpl)@[i] == spec_bind_at(
                        old(mpl)@[i],
                        key,
                        candidate_binding@,
                    ),
            },
    {
        let ghost pv = pads.deep_view();
        let ghost full = spec_claim_attempt(pv, epl@, mpl@);
        let m: usize = pads.len();
        proof {
            assert(pv.subrange(0, m as int) =~= pv);
        }
        let mut i: usize = 0;
        while i < m
            invariant
                m == pv.len(),
                m == pads@.len(),
                pv == pads.deep_view(),
                epl_keys_unique(epl@),
                0 <= i <= m,
                mpl@ == old(mpl)@,
                full == spec_claim_attempt(pv, epl@, mpl@),
                spec_claim_attempt(pv.subrange(i as int, m as int), epl@, mpl@) == full,
            decreases m - i,
        {
            let ghost rest = pv.subrange(i as int, m as int);
            proof {
                assert(rest[0] == pv[i as int]);
                assert(rest.drop_first() =~= pv.subrange(i as int + 1, m as int));
            }
            let pad = &pads[i];
            proof {
                assert(pad@ == pv[i as int]);
            }
            if fires(pad.decline_milli) {
                return Ok(());
            }
            if fires(pad.accept_milli) {
                match epl.get(pad.devpath.as_str()) {
                    Option::Some(minimal) => {
                        match mpl.get_index(minimal.as_str()) {
                            Option::Some(_) => {
                                proof {
                                    assert(mpl_has_key(mpl@, minimal@));
                                    assert(resolvable(pad@.devpath, epl@, mpl@));
                                    assert(full == ClaimOutcome::Bound(minimal@));
                                }
                                mpl.bind_name(minimal.as_str(), candidate_binding);
                                return Ok(());
                            },
                            Option::None => {
                                proof {
                                    assert(!resolvable(pad@.devpath, epl@, mpl@));
                                }
                            },
                        }
                    },
                    Option::None => {
                        proof {
                            assert(!resolvable(pad@.devpath, epl@, mpl@));
                        }
                    },
                }
            }
            i = i + 1;
        }
        proof {
            assert(pv.subrange(m as int, m as int) =~= Seq::<GamepadInputView>::empty());
        }
        Err(())
    }

    /// One Binding Engine tick at logical time `now_millis`: honour the
    /// cooldown, go `Done` once the worklist is empty, otherwise offer the
    /// last candidate to the controllers; on a claim or skip, consume it
    /// and start the cooldown.
    pub fn update(
        &mut self,
        pads: &Vec<GamepadInput>,
        epl: &EventPathLookup,
        mpl: &mut MinimalPathLookup,
        now_millis: u64,
    ) -> (r: UpdateState)
        requires
            epl_keys_unique(epl@),
            now_millis + CLAIM_COOLDOWN_MILLIS <= u64::MAX,
        ensures
            final(self)@ == spec_binder_step(
                old(self)@,
                spec_claim_attempt(pads.deep_view(), epl@, old(mpl)@),
                now_millis,
            ),
            r == final(self)@.state,
            ({
                let outcome = spec_claim_attempt(pads.deep_view(), epl@, old(mpl)@);
                if spec_step_claims(old(self)@, outcome, now_millis) && outcome is Bound {
                    final(mpl)@.len() == old(mpl)@.len() && forall|i: int|
                        0 <= i < final(mpl)@.len() ==> final(mpl)@[i] == spec_bind_at(
                            old(mpl)@[i],
                            outcome->Bound_0,
                            old(self)@.worklist.last(),
                        )
                } else {
                    final(mpl)@ == old(mpl)@
                }
            }),
    {
        let ghost m0 = self@;
        let ghost outcome = spec_claim_attempt(pads.deep_view(), epl@, mpl@);
        let allowed = match self.next_binding_allowed_time {
            None => true,
            Some(t) => t <= now_millis,
        };
        if allowed {
            let n: usize = self.bindings_to_make.len();
            if n > 0 {
                let candidate = self.bindings_to_make[n - 1].clone();
                proof {
                    assert(candidate@ == m0.worklist.last());
                }
                match self.perform_candidate_binding(candidate.as_str(), pads, epl, mpl) {
                    Ok(_) => {
                        self.bindings_to_make.pop();
                        self.next_binding_allowed_time = Some(now_millis + CLAIM_COOLDOWN_MILLIS);
                        proof {
                            assert(self.bindings_to_make.deep_view() =~= m0.worklist.drop_last());
                        }
                    },
                    Err(_) => {
                        proof {
                            assert(outcome is NoTrigger);
                        }
                    },
                }
            } else {
                self.cached_state = UpdateState::Done;
            }
        }
        self.cached_state
    }
}

/// One observed engine tick: what the scan decided, and when it ran.
pub struct BinderStep {
    pub outcome: ClaimOutcome,
    pub now: u64,
}

/// The model after a sequence of ticks.
pub open spec fn spec_run_binder(m: BinderModel, steps: Seq<BinderStep>) -> BinderModel
    decreases steps.len(),
{
    if steps.len() == 0 {
        m
    } else {
        spec_run_binder(spec_binder_step(m, steps[0].outcome, steps[0].now), steps.drop_first())
    }
}

/// Tick `k` of the trace consumes a candidate.
pub open spec fn claims_at(m0: BinderModel, steps: Seq<BinderStep>, k: int) -> bool {
    spec_step_claims(
        spec_run_binder(m0, steps.subrange(0, k)),
        steps[k].outcome,
        steps[k].now,
    )
}

/// Running a trace is running a prefix, then the rest.
proof fn lemma_run_split(m: BinderModel, steps: Seq<BinderStep>, k: int)
    requires
        0 <= k <= steps.len(),
    ensures
        spec_run_binder(m, steps) == spec_run_binder(
            spec_run_binder(m, steps.subrange(0, k)),
            steps.subrange(k, steps.len() as int),
        ),
    decreases k,
{
    if k == 0 {
        assert(steps.subrange(0, 0) =~= Seq::<BinderStep>::empty());
        assert(steps.subrange(0, steps.len() as int) =~= steps);
    } else {
        let m1 = spec_binder_step(m, steps[0].outcome, steps[0].now);
        lemma_run_split(m1, steps.drop_first(), k - 1);
        assert(steps.drop_first().subrange(0, k - 1) =~= steps.subrange(0, k).drop_first());
        assert(steps.drop_first().subrange(k - 1, steps.drop_first().len() as int) =~= steps.subrange(
            k,
            steps.len() as int,
        ));
    }
}

/// Once the cooldown stands at or above a floor, no later tick lowers it.
proof fn lemma_run_keeps_floor(m: BinderModel, steps: Seq<BinderStep>, floor: u64)
    requires
        m.next_allowed is Some,
        m.next_allowed->0 >= floor,
        forall|a: int| 0 <= a < steps.len() ==> #[trigger] steps[a].now + CLAIM_COOLDOWN_MILLIS
            >= floor,
        forall|a: int| 0 <= a < steps.len() ==> #[trigger] steps[a].now + CLAIM_COOLDOWN_MILLIS
            <= u64::MAX,
    ensures
        spec_run_binder(m, steps).next_allowed is Some,
        spec_run_binder(m, steps).next_allowed->0 >= floor,
    decreases steps.len(),
{
    if steps.len() == 0 {
    } else {
        let m1 = spec_binder_step(m, steps[0].outcome, steps[0].now);
        assert(steps[0].now + CLAIM_COOLDOWN_MILLIS >= floor);
        assert forall|a: int|
            0 <= a < steps.drop_first().len() implies #[trigger] steps.drop_first()[a].now
            + CLAIM_COOLDOWN_MILLIS >= floor && steps.drop_first()[a].now
            + CLAIM_COOLDOWN_MILLIS <= u64::MAX by {
            assert(steps.drop_first()[a] == steps[a + 1]);
        }
        lemma_run_keeps_floor(m1, steps.drop_first(), floor);
    }
}

/// Throttling: in any trace of engine ticks taken at nondecreasing logical
/// times, two ticks that each consume a candidate lie at least the claim
/// cooldown apart.
pub proof fn lemma_claims_throttled(m0: BinderModel, steps: Seq<BinderStep>, i: int, j: int)
    requires
        0 <= i < j < steps.len(),
        forall|a: int, b: int| 0 <= a <= b < steps.len() ==> #[trigger] steps[a].now
            <= #[trigger] steps[b].now,
        forall|a: int| 0 <= a < steps.len() ==> #[trigger] steps[a].now + CLAIM_COOLDOWN_MILLIS
            <= u64::MAX,
        claims_at(m0, steps, i),
        claims_at(m0, steps, j),
    ensures
        steps[j].now >= steps[i].now + CLAIM_COOLDOWN_MILLIS,
{
    let mi = spec_run_binder(m0, steps.subrange(0, i));
    let mi1 = spec_run_binder(m0, steps.subrange(0, i + 1));
    let mj = spec_run_binder(m0, steps.subrange(0, j));
    let floor = (steps[i].now + CLAIM_COOLDOWN_MILLIS) as u64;

    lemma_run_split(m0, steps.subrange(0, i + 1), i);
    assert(steps.subrange(0, i + 1).subrange(0, i) =~= steps.subrange(0, i));
    let tail_i = steps.subrange(0, i + 1).subrange(i, i + 1);
    assert(tail_i.len() == 1);
    assert(tail_i[0] == steps[i]);
    assert(tail_i.drop_first() =~= Seq::<BinderStep>::empty());
    assert(mi1 == spec_run_binder(mi, tail_i));
    assert(spec_run_binder(mi, tail_i) == spec_run_binder(
        spec_binder_step(mi, tail_i[0].outcome, tail_i[0].now),
        tail_i.drop_first(),
    ));
    assert(spec_run_binder(spec_binder_step(mi, steps[i].outcome, steps[i].now), Seq::empty())
        == spec_binder_step(mi, steps[i].outcome, steps[i].now));
    assert(mi1 == spec_binder_step(mi, steps[i].outcome, steps[i].now));
    assert(mi1.next_allowed == Option::Some(floor));

    lemma_run_split(m0, steps.subrange(0, j), i + 1);
    assert(steps.subrange(0, j).subrange(0, i + 1) =~= steps.subrange(0, i + 1));
    let mid = steps.subrange(0, j).subrange(i + 1, j);
    assert forall|a: int|
        0 <= a < mid.len() implies #[trigger] mid[a].now + CLAIM_COOLDOWN_MILLIS >= floor by {
        assert(mid[a] == steps[i + 1 + a]);
        assert(steps[i].now <= steps[i + 1 + a].now);
    }
    lemma_run_keeps_floor(mi1, mid, floor);
    assert(mj == spec_run_binder(mi1, mid));
    assert(mj.next_allowed is Some && mj.next_allowed->0 >= floor);
    assert(binding_allowed(mj, steps[j].now));
}

} // verus!
