//! What the router remembers: the health of keys, the quality of channels, routes and messages.
use crate::balance::{Adapter, Allowance, AllowanceView};
use crate::clock;
use crate::config;
use crate::config::{Channel, Config, Key, Model, Monitor};
use crate::json;
use crate::json::{Json, JsonView};
use crate::random;
use crate::table::Table;
use crate::telemetry;
use crate::telemetry::Metrics;
use crate::text;
use crate::text::{hexadecimal, same, take};
use std::collections::VecDeque;
use vstd::prelude::*;
use vstd::string::*;

verus! {

/// The health of one key.
pub struct KeyState {
    pub detected: Option<Adapter>,
    pub checked: bool,
    pub protocol_warning: bool,
    pub request_exhausted: bool,
    pub allowance: Option<Allowance>,
    pub balance_checked: i64,
    pub balance_error: Option<String>,
    pub service_failed: bool,
    pub suspect: bool,
    pub last_incident: Option<i64>,
    pub credential_failed: bool,
    pub cooldown_until: i64,
    pub retry_at: i64,
    pub probe_step: u32,
    pub probe_attempts: u32,
    pub probe_exhausted: bool,
    pub recovery_successes: u32,
    pub last_recovery_success: i64,
    pub failure_cycles: VecDeque<i64>,
    pub revision: u64,
    pub reason: String,
}

/// The mathematical model of [`KeyState`].
pub struct KeyView {
    pub detected: Option<Adapter>,
    pub checked: bool,
    pub protocol_warning: bool,
    pub request_exhausted: bool,
    pub allowance: Option<AllowanceView>,
    pub balance_checked: i64,
    pub balance_error: Option<Seq<char>>,
    pub service_failed: bool,
    pub suspect: bool,
    pub last_incident: Option<i64>,
    pub credential_failed: bool,
    pub cooldown_until: i64,
    pub retry_at: i64,
    pub probe_step: u32,
    pub probe_attempts: u32,
    pub probe_exhausted: bool,
    pub recovery_successes: u32,
    pub last_recovery_success: i64,
    pub failure_cycles: Seq<i64>,
    pub revision: u64,
    pub reason: Seq<char>,
}

impl View for KeyState {
    type V = KeyView;

    open spec fn view(&self) -> KeyView {
        KeyView {
            detected: self.detected,
            checked: self.checked,
            protocol_warning: self.protocol_warning,
            request_exhausted: self.request_exhausted,
            allowance: match self.allowance {
                Some(a) => Some(a@),
                None => None,
            },
            balance_checked: self.balance_checked,
            balance_error: text::opt_view(self.balance_error),
            service_failed: self.service_failed,
            suspect: self.suspect,
            last_incident: self.last_incident,
            credential_failed: self.credential_failed,
            cooldown_until: self.cooldown_until,
            retry_at: self.retry_at,
            probe_step: self.probe_step,
            probe_attempts: self.probe_attempts,
            probe_exhausted: self.probe_exhausted,
            recovery_successes: self.recovery_successes,
            last_recovery_success: self.last_recovery_success,
            failure_cycles: self.failure_cycles@,
            revision: self.revision,
            reason: self.reason@,
        }
    }
}

/// The distance of two times can be computed.
pub open spec fn span(now: int, t: int) -> bool {
    i64::MIN <= now - t <= i64::MAX
}

/// The failures of the last ten minutes, in order.
pub open spec fn recent_cycles(s: Seq<i64>, now: int) -> Seq<i64>
    decreases s.len(),
{
    if s.len() == 0 {
        Seq::empty()
    } else {
        let rest = recent_cycles(s.drop_last(), now);
        if now - s.last() < 600 {
            rest.push(s.last())
        } else {
            rest
        }
    }
}

/// The last elements, as many as fit.
pub open spec fn last_of<A>(s: Seq<A>, n: nat) -> Seq<A> {
    if s.len() > n {
        s.skip(s.len() - n)
    } else {
        s
    }
}

/// The failures counted after one more.
pub open spec fn next_cycles(s: Seq<i64>, now: i64) -> Seq<i64> {
    last_of(recent_cycles(s, now as int).push(now), 8)
}

/// The cooldown, in seconds, after the second or a later failure in ten minutes.
pub open spec fn cooldown(cycles: nat) -> int {
    if cycles == 2 {
        600
    } else if cycles == 3 {
        1200
    } else if cycles == 4 {
        2400
    } else {
        3600
    }
}

impl KeyView {
    /// Nothing known of a key.
    pub open spec fn blank() -> KeyView {
        KeyView {
            detected: None,
            checked: false,
            protocol_warning: false,
            request_exhausted: false,
            allowance: None,
            balance_checked: 0,
            balance_error: None,
            service_failed: false,
            suspect: false,
            last_incident: None,
            credential_failed: false,
            cooldown_until: 0,
            retry_at: 0,
            probe_step: 0,
            probe_attempts: 0,
            probe_exhausted: false,
            recovery_successes: 0,
            last_recovery_success: 0,
            failure_cycles: Seq::empty(),
            revision: 0,
            reason: Seq::empty(),
        }
    }

    /// The key's quota allows no request.
    pub open spec fn out_of_quota(self, now: int) -> bool {
        match self.allowance {
            Some(a) => a.spent(now),
            None => false,
        }
    }

    /// The key may serve requests at a time.
    pub open spec fn eligible(self, now: int) -> bool {
        &&& !self.suspect
        &&& !self.probe_exhausted
        &&& !self.service_failed
        &&& !self.credential_failed
        &&& self.cooldown_until <= now
        &&& self.retry_at <= now
        &&& !self.out_of_quota(now)
    }

    /// The key after its service failed. Only the first failure of a cycle counts.
    pub open spec fn failed(self, now: i64) -> KeyView {
        let s = KeyView {
            suspect: false,
            service_failed: true,
            revision: (self.revision + 1) as u64,
            ..self
        };
        if self.service_failed {
            s
        } else {
            let cycles = next_cycles(self.failure_cycles, now);
            KeyView {
                failure_cycles: cycles,
                cooldown_until: if cycles.len() >= 2 {
                    (now + cooldown(cycles.len())) as i64
                } else {
                    self.cooldown_until
                },
                recovery_successes: 0,
                probe_step: 0,
                probe_attempts: 0,
                probe_exhausted: false,
                retry_at: (now + 60) as i64,
                ..s
            }
        }
    }

    /// What [`KeyState::fail_service`] computes can be held.
    pub open spec fn failure_fits(self, now: i64) -> bool {
        &&& self.revision < u64::MAX
        &&& !self.service_failed ==> now + 3600 <= i64::MAX && forall|i: int|
            0 <= i < self.failure_cycles.len() ==> span(
                now as int,
                #[trigger] self.failure_cycles[i] as int,
            )
    }

    /// Another incident came within ten minutes of the last.
    pub open spec fn again(self, now: i64) -> bool {
        match self.last_incident {
            Some(t) => now - t < 600,
            None => false,
        }
    }

    /// The key after a first sign of failure. A second sign within ten minutes is a failure; signs
    /// during one incident change nothing.
    pub open spec fn suspected(self, now: i64) -> KeyView {
        if self.suspect || self.service_failed {
            self
        } else if self.again(now) {
            self.failed(now)
        } else {
            KeyView {
                last_incident: Some(now),
                suspect: true,
                retry_at: (now + 5) as i64,
                revision: (self.revision + 1) as u64,
                ..self
            }
        }
    }

    /// What [`KeyState::suspect_service`] computes can be held.
    pub open spec fn suspicion_fits(self, now: i64) -> bool {
        self.suspect || self.service_failed || {
            &&& self.failure_fits(now)
            &&& match self.last_incident {
                Some(t) => span(now as int, t as int),
                None => true,
            }
        }
    }

    /// The key after a probe with an answer: counted as a recovery at most once a minute.
    pub open spec fn recovering(self, now: i64) -> KeyView {
        if self.recovery_successes == 0 || now - self.last_recovery_success >= 60 {
            KeyView {
                recovery_successes: (self.recovery_successes + 1) as u32,
                last_recovery_success: now,
                ..self
            }
        } else {
            self
        }
    }

    /// The key after one more probe was counted.
    pub open spec fn counted(self) -> KeyView {
        KeyView {
            revision: (self.revision + 1) as u64,
            probe_attempts: if self.probe_attempts == u32::MAX {
                u32::MAX
            } else {
                (self.probe_attempts + 1) as u32
            },
            ..self
        }
    }

    /// The key after it recovered.
    pub open spec fn recovered(self) -> KeyView {
        KeyView {
            service_failed: false,
            probe_attempts: 0,
            probe_exhausted: false,
            retry_at: 0,
            probe_step: 0,
            reason: Seq::empty(),
            ..self
        }
    }

    /// The key after a probe without an answer: the next one waits a minute longer, up to five.
    pub open spec fn backed_off(self, now: i64) -> KeyView {
        let step = if self.probe_step >= 3 {
            4
        } else {
            (self.probe_step + 1) as u32
        };
        KeyView {
            recovery_successes: 0,
            probe_step: step,
            retry_at: (now + 60 * (step + 1)) as i64,
            ..self
        }
    }

    /// The key after a probe that decided nothing. The twelfth such probe is the last.
    pub open spec fn budgeted(self) -> KeyView {
        if self.probe_attempts >= 12 {
            KeyView {
                probe_exhausted: true,
                retry_at: 0,
                reason: "连续恢复探测预算已耗尽，等待手动验证或修改配置"@,
                ..self
            }
        } else {
            self
        }
    }

    /// The key has answered twice, a minute or more apart, and its cooldown is over.
    pub open spec fn steady(self, now: i64) -> bool {
        self.recovery_successes >= 2 && self.cooldown_until <= now
    }

    /// The key after a recovery probe.
    pub open spec fn probed(self, now: i64, ok: bool) -> KeyView {
        let s = self.counted();
        let r = s.recovering(now);
        if !ok {
            s.backed_off(now).budgeted()
        } else if r.steady(now) {
            r.recovered()
        } else {
            (KeyView { retry_at: (now + 60) as i64, ..r }).budgeted()
        }
    }

    /// What [`KeyState::probe_result`] computes can be held.
    pub open spec fn probe_fits(self, now: i64, ok: bool) -> bool {
        &&& self.revision < u64::MAX
        &&& now + 300 <= i64::MAX
        &&& ok ==> self.recovery_successes < u32::MAX && (self.recovery_successes == 0 || span(
            now as int,
            self.last_recovery_success as int,
        ))
        &&& !ok ==> self.probe_step < u32::MAX
    }

    /// The key after a suspicion was not lifted by a check. Two checks without an answer, a minute
    /// or more after the incident began, are a failure.
    pub open spec fn unconfirmed(self, now: i64) -> KeyView {
        let s = KeyView {
            probe_attempts: if self.probe_attempts == u32::MAX {
                u32::MAX
            } else {
                (self.probe_attempts + 1) as u32
            },
            ..self
        };
        if s.confirmed(now) {
            s.failed(now)
        } else {
            KeyView { retry_at: (now + 5) as i64, revision: (s.revision + 1) as u64, ..s }
        }
    }

    /// The suspicion has stood long enough to be a failure.
    pub open spec fn confirmed(self, now: i64) -> bool {
        self.probe_attempts >= 2 && match self.last_incident {
            Some(t) => now - t >= 60,
            None => true,
        }
    }
}

impl Default for KeyState {
    fn default() -> (r: Self)
        ensures
            r@ == KeyView::blank(),
    {
        let r = KeyState {
            detected: None,
            checked: false,
            protocol_warning: false,
            request_exhausted: false,
            allowance: None,
            balance_checked: 0,
            balance_error: None,
            service_failed: false,
            suspect: false,
            last_incident: None,
            credential_failed: false,
            cooldown_until: 0,
            retry_at: 0,
            probe_step: 0,
            probe_attempts: 0,
            probe_exhausted: false,
            recovery_successes: 0,
            last_recovery_success: 0,
            failure_cycles: VecDeque::new(),
            revision: 0,
            reason: String::new(),
        };
        assert(r@.failure_cycles =~= Seq::empty());
        assert(r@.reason =~= Seq::empty());
        r
    }
}

fn count_cycle(cycles: &VecDeque<i64>, now: i64) -> (r: VecDeque<i64>)
    requires
        forall|i: int|
            0 <= i < cycles@.len() ==> span(now as int, #[trigger] cycles@[i] as int),
    ensures
        r@ == next_cycles(cycles@, now),
{
    let mut r: VecDeque<i64> = VecDeque::new();
    let mut i: usize = 0;
    assert(cycles@.take(0) =~= Seq::empty());
    while i < cycles.len()
        invariant
            i <= cycles@.len(),
            forall|i: int|
                0 <= i < cycles@.len() ==> span(now as int, #[trigger] cycles@[i] as int),
            r@ == recent_cycles(cycles@.take(i as int), now as int),
        decreases cycles@.len() - i,
    {
        assert(cycles@.take(i + 1).drop_last() =~= cycles@.take(i as int));
        let t: i64 = cycles[i];
        assert(span(now as int, cycles@[i as int] as int));
        if now - t < 600 {
            r.push_back(t);
        }
        i = i + 1;
    }
    assert(cycles@.take(cycles@.len() as int) =~= cycles@);
    r.push_back(now);
    let ghost all = r@;
    let size = r.len();
    assert(all.skip(0) =~= all);
    let mut dropped: usize = 0;
    while r.len() > 8
        invariant
            dropped <= all.len(),
            r@ == all.skip(dropped as int),
            dropped > 0 ==> r@.len() >= 8,
            r@.len() + dropped == size,
            size == all.len(),
        decreases r@.len(),
    {
        r.pop_front();
        assert(all.skip(dropped as int).skip(1) =~= all.skip(dropped + 1));
        assert(r@ =~= all.skip(dropped + 1));
        dropped = dropped + 1;
    }
    r
}

impl KeyState {
    /// Whether the key may serve requests at a time.
    pub fn eligible(&self, now: i64) -> (r: bool)
        ensures
            r == self@.eligible(now as int),
    {
        !self.suspect && !self.probe_exhausted && !self.service_failed && !self.credential_failed
            && self.cooldown_until <= now && self.retry_at <= now && !match &self.allowance {
            Some(a) => a.unavailable(now),
            None => false,
        }
    }

    /// Notes a sign of failure, and says whether the key failed by it. Several failures under way
    /// during one incident do not escalate it.
    pub fn suspect_service(&mut self, now: i64) -> (r: bool)
        requires
            old(self)@.suspicion_fits(now),
        ensures
            final(self)@ == old(self)@.suspected(now),
            r == (!old(self)@.suspect && !old(self)@.service_failed && old(self)@.again(now)),
    {
        if self.suspect || self.service_failed {
            return false;
        }
        let again = match self.last_incident {
            Some(t) => now - t < 600,
            None => false,
        };
        if again {
            return self.fail_service(now);
        }
        self.last_incident = Some(now);
        self.suspect = true;
        self.retry_at = now + 5;
        self.revision = self.revision + 1;
        false
    }

    /// Notes a failure, and says whether it is a new one.
    pub fn fail_service(&mut self, now: i64) -> (r: bool)
        requires
            old(self)@.failure_fits(now),
        ensures
            final(self)@ == old(self)@.failed(now),
            r == !old(self)@.service_failed,
    {
        self.suspect = false;
        let transition = !self.service_failed;
        if transition {
            self.failure_cycles = count_cycle(&self.failure_cycles, now);
            let n = self.failure_cycles.len();
            if n >= 2 {
                let wait: i64 = if n == 2 {
                    600
                } else if n == 3 {
                    1200
                } else if n == 4 {
                    2400
                } else {
                    3600
                };
                self.cooldown_until = now + wait;
            }
            self.recovery_successes = 0;
            self.probe_step = 0;
            self.probe_attempts = 0;
            self.probe_exhausted = false;
            self.retry_at = now + 60;
        }
        self.service_failed = true;
        self.revision = self.revision + 1;
        transition
    }

    fn count_probe(&mut self)
        requires
            old(self)@.revision < u64::MAX,
        ensures
            final(self)@ == old(self)@.counted(),
    {
        self.revision = self.revision + 1;
        self.probe_attempts = self.probe_attempts.saturating_add(1);
    }

    fn count_recovery(&mut self, now: i64)
        requires
            old(self)@.recovery_successes < u32::MAX,
            old(self)@.recovery_successes == 0 || span(
                now as int,
                old(self)@.last_recovery_success as int,
            ),
        ensures
            final(self)@ == old(self)@.recovering(now),
    {
        if self.recovery_successes == 0 || now - self.last_recovery_success >= 60 {
            self.recovery_successes = self.recovery_successes + 1;
            self.last_recovery_success = now;
        }
    }

    fn recover(&mut self)
        ensures
            final(self)@ == old(self)@.recovered(),
    {
        self.service_failed = false;
        self.probe_attempts = 0;
        self.probe_exhausted = false;
        self.retry_at = 0;
        self.probe_step = 0;
        self.reason = String::new();
        assert(self@.reason =~= Seq::empty());
    }

    fn back_off(&mut self, now: i64)
        requires
            now + 300 <= i64::MAX,
            old(self)@.probe_step < u32::MAX,
        ensures
            final(self)@ == old(self)@.backed_off(now),
    {
        self.recovery_successes = 0;
        self.probe_step = if self.probe_step + 1 < 4 {
            self.probe_step + 1
        } else {
            4
        };
        self.retry_at = now + 60 * (self.probe_step as i64 + 1);
    }

    fn spend_budget(&mut self)
        ensures
            final(self)@ == old(self)@.budgeted(),
    {
        if self.probe_attempts >= 12 {
            self.probe_exhausted = true;
            self.retry_at = 0;
            self.reason = "连续恢复探测预算已耗尽，等待手动验证或修改配置".to_owned();
        }
    }

    /// Notes the result of a recovery probe.
    pub fn probe_result(&mut self, now: i64, ok: bool)
        requires
            old(self)@.probe_fits(now, ok),
        ensures
            final(self)@ == old(self)@.probed(now, ok),
    {
        self.count_probe();
        if ok {
            self.count_recovery(now);
            if self.recovery_successes >= 2 && self.cooldown_until <= now {
                self.recover();
                return;
            }
            self.retry_at = now + 60;
        } else {
            self.back_off(now);
        }
        self.spend_budget();
    }

    /// Notes that a check did not lift a suspicion, and says whether the key failed by it.
    pub fn confirmation_failed(&mut self, now: i64) -> (r: bool)
        requires
            old(self)@.failure_fits(now),
            now + 5 <= i64::MAX,
            old(self)@.last_incident is Some ==> span(
                now as int,
                old(self)@.last_incident->0 as int,
            ),
        ensures
            final(self)@ == old(self)@.unconfirmed(now),
            r == (old(self)@.probe_attempts >= 1 && !old(self)@.service_failed && match old(
                self,
            )@.last_incident {
                Some(t) => now - t >= 60,
                None => true,
            }),
    {
        self.probe_attempts = self.probe_attempts.saturating_add(1);
        let waited = match self.last_incident {
            Some(t) => now - t >= 60,
            None => true,
        };
        if self.probe_attempts >= 2 && waited {
            return self.fail_service(now);
        }
        self.retry_at = now + 5;
        self.revision = self.revision + 1;
        false
    }
}

/// The quality of an upstream, as its monitor judged it.
pub struct Quality {
    pub response_ms: Option<u64>,
    pub last_definite: String,
    pub history: VecDeque<QualityPoint>,
    pub error: String,
    pub verdict: String,
    pub checked_at: i64,
    pub valid_until: i64,
    pub next_at: i64,
}

/// One verdict of a monitor.
pub struct QualityPoint {
    pub at: i64,
    pub verdict: String,
}

/// The mathematical model of [`QualityPoint`].
pub struct PointView {
    pub at: i64,
    pub verdict: Seq<char>,
}

impl View for QualityPoint {
    type V = PointView;

    open spec fn view(&self) -> PointView {
        PointView { at: self.at, verdict: self.verdict@ }
    }
}

/// The models of several verdicts.
pub open spec fn point_views(s: Seq<QualityPoint>) -> Seq<PointView> {
    s.map_values(|p: QualityPoint| p@)
}

/// The mathematical model of [`Quality`].
pub struct QualityView {
    pub response_ms: Option<u64>,
    pub last_definite: Seq<char>,
    pub history: Seq<PointView>,
    pub error: Seq<char>,
    pub verdict: Seq<char>,
    pub checked_at: i64,
    pub valid_until: i64,
    pub next_at: i64,
}

impl View for Quality {
    type V = QualityView;

    open spec fn view(&self) -> QualityView {
        QualityView {
            response_ms: self.response_ms,
            last_definite: self.last_definite@,
            history: point_views(self.history@),
            error: self.error@,
            verdict: self.verdict@,
            checked_at: self.checked_at,
            valid_until: self.valid_until,
            next_at: self.next_at,
        }
    }
}

impl QualityView {
    /// Nothing judged yet.
    pub open spec fn blank() -> QualityView {
        QualityView {
            response_ms: None,
            last_definite: Seq::empty(),
            history: Seq::empty(),
            error: Seq::empty(),
            verdict: Seq::empty(),
            checked_at: 0,
            valid_until: 0,
            next_at: 0,
        }
    }

    /// The last definite verdict was good and still holds.
    pub open spec fn healthy(self, now: int) -> bool {
        self.last_definite == "healthy"@ && self.valid_until > now
    }

    /// The quality with no more verdicts than are kept.
    pub open spec fn trimmed(self) -> QualityView {
        QualityView { history: last_of(self.history, 72), ..self }
    }
}

impl Default for Quality {
    fn default() -> (r: Self)
        ensures
            r@ == QualityView::blank(),
    {
        let r = Quality {
            response_ms: None,
            last_definite: String::new(),
            history: VecDeque::new(),
            error: String::new(),
            verdict: String::new(),
            checked_at: 0,
            valid_until: 0,
            next_at: 0,
        };
        assert(r@.last_definite =~= Seq::empty());
        assert(r@.history =~= Seq::empty());
        assert(r@.error =~= Seq::empty());
        assert(r@.verdict =~= Seq::empty());
        r
    }
}

impl Quality {
    /// Drops the oldest verdicts beyond those that are kept.
    pub fn trim(&mut self)
        ensures
            final(self)@ == old(self)@.trimmed(),
    {
        let ghost all = self.history@;
        let size = self.history.len();
        let mut dropped: usize = 0;
        assert(all.skip(0) =~= all);
        while self.history.len() > 72
            invariant
                size == all.len(),
                self.history@ == all.skip(dropped as int),
                self.history@.len() + dropped == size,
                dropped > 0 ==> self.history@.len() >= 72,
                *self == (Quality { history: self.history, ..*old(self) }),
            decreases self.history@.len(),
        {
            self.history.pop_front();
            assert(all.skip(dropped as int).skip(1) =~= all.skip(dropped + 1));
            assert(self.history@ =~= all.skip(dropped + 1));
            dropped = dropped + 1;
        }
        assert(self@.history =~= last_of(point_views(all), 72));
    }
}

/// The route that a model keeps to, and since when better ones are back.
pub struct StickyRoute {
    pub channel_id: String,
    pub recovered: Table<i64>,
    pub revision: u64,
}

/// The mathematical model of [`StickyRoute`].
pub struct StickyView {
    pub channel_id: Seq<char>,
    pub recovered: Map<Seq<char>, i64>,
    pub revision: u64,
}

impl View for StickyRoute {
    type V = StickyView;

    open spec fn view(&self) -> StickyView {
        StickyView {
            channel_id: self.channel_id@,
            recovered: self.recovered@,
            revision: self.revision,
        }
    }
}

impl Default for StickyRoute {
    fn default() -> (r: Self)
        ensures
            r@ == (StickyView {
                channel_id: Seq::empty(),
                recovered: Map::empty(),
                revision: 0,
            }),
    {
        let r = StickyRoute { channel_id: String::new(), recovered: Table::new(), revision: 0 };
        assert(r@.channel_id =~= Seq::empty());
        r
    }
}

/// Something that happened.
pub struct Event {
    pub at: i64,
    pub kind: String,
    pub message: String,
}

/// The mathematical model of [`Event`].
pub struct EventView {
    pub at: i64,
    pub kind: Seq<char>,
    pub message: Seq<char>,
}

impl View for Event {
    type V = EventView;

    open spec fn view(&self) -> EventView {
        EventView { at: self.at, kind: self.kind@, message: self.message@ }
    }
}

/// The models of several events.
pub open spec fn event_views(s: Seq<Event>) -> Seq<EventView> {
    s.map_values(|e: Event| e@)
}

/// A message to be sent.
pub struct Notice {
    pub id: String,
    pub message: String,
    pub card: Option<Json>,
    pub attempts: u32,
    pub next_at: i64,
}

/// The mathematical model of [`Notice`].
pub struct NoticeView {
    pub id: Seq<char>,
    pub message: Seq<char>,
    pub card: Option<JsonView>,
    pub attempts: u32,
    pub next_at: i64,
}

impl View for Notice {
    type V = NoticeView;

    open spec fn view(&self) -> NoticeView {
        NoticeView {
            id: self.id@,
            message: self.message@,
            card: match self.card {
                Some(j) => Some(j@),
                None => None,
            },
            attempts: self.attempts,
            next_at: self.next_at,
        }
    }
}

/// The models of several notices.
pub open spec fn notice_views(s: Seq<Notice>) -> Seq<NoticeView> {
    s.map_values(|n: Notice| n@)
}

/// The models of several keys.
pub open spec fn key_views(m: Map<Seq<char>, KeyState>) -> Map<Seq<char>, KeyView> {
    m.map_values(|k: KeyState| k@)
}

/// The models of several qualities.
pub open spec fn quality_views(m: Map<Seq<char>, Quality>) -> Map<Seq<char>, QualityView> {
    m.map_values(|q: Quality| q@)
}

/// The models of several routes.
pub open spec fn sticky_views(m: Map<Seq<char>, StickyRoute>) -> Map<Seq<char>, StickyView> {
    m.map_values(|r: StickyRoute| r@)
}

/// The characters of several texts.
pub open spec fn text_views(m: Map<Seq<char>, String>) -> Map<Seq<char>, Seq<char>> {
    m.map_values(|t: String| t@)
}

/// What the router remembers.
pub struct State {
    pub telemetry: Metrics,
    pub config_digest: String,
    pub identities: Table<String>,
    pub monitor_identities: Table<String>,
    pub notices: VecDeque<Notice>,
    pub keys: Table<KeyState>,
    pub quality: Table<Quality>,
    pub events: VecDeque<Event>,
    pub last_used: Table<String>,
    pub sticky_routes: Table<StickyRoute>,
    pub round_robin: Table<usize>,
}

impl Default for State {
    fn default() -> (r: Self)
        ensures
            r.telemetry.model() == telemetry::MetricsView::blank(),
            r.config_digest@ == Seq::<char>::empty(),
            r.identities@ == Map::<Seq<char>, String>::empty(),
            r.monitor_identities@ == Map::<Seq<char>, String>::empty(),
            r.notices@ == Seq::<Notice>::empty(),
            r.keys@ == Map::<Seq<char>, KeyState>::empty(),
            r.quality@ == Map::<Seq<char>, Quality>::empty(),
            r.events@ == Seq::<Event>::empty(),
            r.last_used@ == Map::<Seq<char>, String>::empty(),
            r.sticky_routes@ == Map::<Seq<char>, StickyRoute>::empty(),
            r.round_robin@ == Map::<Seq<char>, usize>::empty(),
    {
        let r = State {
            telemetry: Metrics::default(),
            config_digest: String::new(),
            identities: Table::new(),
            monitor_identities: Table::new(),
            notices: VecDeque::new(),
            keys: Table::new(),
            quality: Table::new(),
            events: VecDeque::new(),
            last_used: Table::new(),
            sticky_routes: Table::new(),
            round_robin: Table::new(),
        };
        assert(r.config_digest@ =~= Seq::empty());
        assert(r.notices@ =~= Seq::empty());
        assert(r.events@ =~= Seq::empty());
        r
    }
}

/// The events after one more. At most two hundred are kept, and the first thousand characters of
/// each message.
pub open spec fn with_event(
    s: Seq<EventView>,
    now: i64,
    kind: Seq<char>,
    message: Seq<char>,
) -> Seq<EventView> {
    last_of(s, 199).push(EventView { at: now, kind, message: text::first(message, 1000) })
}

/// The message about a full queue of notices.
pub open spec fn queue_full() -> Seq<char> {
    "通知队列已满，移除最早待发送通知"@
}

/// The notices after one more. The oldest leaves a full queue.
pub open spec fn with_notice(s: Seq<NoticeView>, id: Seq<char>, message: Seq<char>) -> Seq<
    NoticeView,
> {
    (if s.len() >= 200 {
        s.skip(1)
    } else {
        s
    }).push(NoticeView { id, message, card: None, attempts: 0, next_at: 0 })
}

impl State {
    /// The events.
    pub open spec fn log(self) -> Seq<EventView> {
        event_views(self.events@)
    }

    /// The notices.
    pub open spec fn queue(self) -> Seq<NoticeView> {
        notice_views(self.notices@)
    }

    /// Notes an event as of a time.
    pub fn event_at(&mut self, now: i64, kind: &str, message: String)
        ensures
            *final(self) == (State { events: final(self).events, ..*old(self) }),
            final(self).log() == with_event(old(self).log(), now, kind@, message@),
    {
        let ghost all = self.events@;
        let size = self.events.len();
        let mut dropped: usize = 0;
        assert(all.skip(0) =~= all);
        while self.events.len() >= 200
            invariant
                size == all.len(),
                self.events@ == all.skip(dropped as int),
                self.events@.len() + dropped == size,
                dropped > 0 ==> self.events@.len() >= 199,
                *self == (State { events: self.events, ..*old(self) }),
            decreases self.events@.len(),
        {
            self.events.pop_front();
            assert(all.skip(dropped as int).skip(1) =~= all.skip(dropped + 1));
            assert(self.events@ =~= all.skip(dropped + 1));
            dropped = dropped + 1;
        }
        let ghost kept = self.events@;
        assert(event_views(kept) =~= last_of(event_views(all), 199));
        let e = Event { at: now, kind: kind.to_owned(), message: take(message.as_str(), 1000) };
        let ghost ev = e@;
        self.events.push_back(e);
        assert(self.log() =~= event_views(kept).push(ev));
    }

    /// Notes an event.
    pub fn event(&mut self, kind: &str, message: String)
        ensures
            *final(self) == (State { events: final(self).events, ..*old(self) }),
            exists|now: i64|
                clock::reading(now as int) && final(self).log() == #[trigger] with_event(
                    old(self).log(),
                    now,
                    kind@,
                    message@,
                ),
    {
        let now = clock::now();
        self.event_at(now, kind, message);
    }

    /// Queues a message under an identifier, as of a time.
    pub fn notify_at(&mut self, now: i64, id: u64, message: String)
        ensures
            *final(self) == (State {
                events: final(self).events,
                notices: final(self).notices,
                ..*old(self)
            }),
            final(self).queue() == with_notice(
                old(self).queue(),
                text::hex(id as nat, 16),
                message@,
            ),
            final(self).log() == (if old(self).queue().len() >= 200 {
                with_event(old(self).log(), now, "notification"@, queue_full())
            } else {
                old(self).log()
            }),
    {
        let ghost all = self.notices@;
        if self.notices.len() >= 200 {
            self.notices.pop_front();
            assert(notice_views(self.notices@) =~= notice_views(all).skip(1));
            self.event_at(
                now,
                "notification",
                "通知队列已满，移除最早待发送通知".to_owned(),
            );
        }
        let ghost kept = self.notices@;
        let n = Notice {
            id: hexadecimal(id as u128, 16),
            message,
            card: None,
            attempts: 0,
            next_at: 0,
        };
        let ghost nv = n@;
        self.notices.push_back(n);
        assert(self.queue() =~= notice_views(kept).push(nv));
    }

    /// Queues a message.
    pub fn notify(&mut self, message: String)
        ensures
            *final(self) == (State {
                events: final(self).events,
                notices: final(self).notices,
                ..*old(self)
            }),
            exists|id: u64|
                final(self).queue() == with_notice(
                    old(self).queue(),
                    #[trigger] text::hex(id as nat, 16),
                    message@,
                ),
            old(self).queue().len() < 200 ==> final(self).log() == old(self).log(),
            old(self).queue().len() >= 200 ==> exists|now: i64|
                clock::reading(now as int) && final(self).log() == #[trigger] with_event(
                    old(self).log(),
                    now,
                    "notification"@,
                    queue_full(),
                ),
    {
        let now = clock::now();
        let id = random::random_u64();
        self.notify_at(now, id, message);
    }

    /// A key may serve requests at a time. One of which nothing is known may.
    pub open spec fn key_ready(self, id: Seq<char>, now: int) -> bool {
        self.keys@.contains_key(id) ==> self.keys@[id]@.eligible(now)
    }

    /// A monitor's last definite verdict was good and still holds.
    pub open spec fn monitor_ready(self, id: Seq<char>, now: int) -> bool {
        self.quality@.contains_key(id) && self.quality@[id]@.healthy(now)
    }

    /// Some enabled key among several may serve requests.
    pub open spec fn some_key_ready(self, keys: Seq<Key>, now: int) -> bool {
        exists|i: int|
            0 <= i < keys.len() && (#[trigger] keys[i]).enabled && self.key_ready(keys[i].id@, now)
    }

    /// A channel may serve requests at a time.
    pub open spec fn ready(self, c: Channel, now: int) -> bool {
        &&& c.enabled
        &&& self.some_key_ready(c.keys@, now)
        &&& match c.monitor_id {
            Some(id) => self.monitor_ready(id@, now),
            None => true,
        }
    }

    /// Whether a channel may serve requests at a time.
    pub fn channel_ready(&self, c: &Channel, now: i64) -> (r: bool)
        ensures
            r == self.ready(*c, now as int),
    {
        if !c.enabled {
            return false;
        }
        let mut found = false;
        let mut i: usize = 0;
        while i < c.keys.len() && !found
            invariant
                i <= c.keys@.len(),
                found ==> self.some_key_ready(c.keys@, now as int),
                !found ==> forall|j: int|
                    0 <= j < i ==> !((#[trigger] c.keys@[j]).enabled && self.key_ready(
                        c.keys@[j].id@,
                        now as int,
                    )),
            decreases c.keys@.len() - i,
        {
            if c.keys[i].enabled {
                found = match self.keys.get(c.keys[i].id.as_str()) {
                    Some(s) => s.eligible(now),
                    None => true,
                };
            }
            i = i + 1;
        }
        found && match &c.monitor_id {
            Some(id) => match self.quality.get(id.as_str()) {
                Some(q) => same(q.last_definite.as_str(), "healthy") && q.valid_until > now,
                None => false,
            },
            None => true,
        }
    }
}

/// The place of the first channel with an identifier, or the number of channels.
pub open spec fn channel_index(s: Seq<Channel>, id: Seq<char>) -> int
    decreases s.len(),
{
    if s.len() == 0 {
        0
    } else {
        let k = channel_index(s.drop_last(), id);
        if k < s.len() - 1 || s.last().id@ == id {
            k
        } else {
            s.len() as int
        }
    }
}

/// The times since which the first channels are back: a channel that is ready keeps its time, or
/// gets the present one; others have none.
pub open spec fn back_since(
    base: Map<Seq<char>, i64>,
    s: Seq<Channel>,
    ready: Seq<bool>,
    now: i64,
    n: int,
) -> Map<Seq<char>, i64>
    decreases n,
{
    if n <= 0 {
        base
    } else {
        let rest = back_since(base, s, ready, now, n - 1);
        let id = s[n - 1].id@;
        if !ready[n - 1] {
            rest.remove(id)
        } else if rest.contains_key(id) {
            rest
        } else {
            rest.insert(id, now)
        }
    }
}

/// The entries of the channels before the present one.
pub open spec fn of_earlier(
    recovered: Map<Seq<char>, i64>,
    s: Seq<Channel>,
    active: int,
) -> Map<Seq<char>, i64> {
    recovered.restrict(Set::new(|id: Seq<char>| config::has_channel(s.take(active), id)))
}

/// A channel is ready and has been back for ten minutes.
pub open spec fn back_long(
    recovered: Map<Seq<char>, i64>,
    s: Seq<Channel>,
    ready: Seq<bool>,
    now: i64,
    i: int,
) -> bool {
    ready[i] && recovered.contains_key(s[i].id@) && now - recovered[s[i].id@] >= 600
}

/// Some channel before the present one has been back for ten minutes.
pub open spec fn settled(
    recovered: Map<Seq<char>, i64>,
    s: Seq<Channel>,
    ready: Seq<bool>,
    now: i64,
    active: int,
) -> bool {
    exists|i: int| 0 <= i < active && #[trigger] back_long(recovered, s, ready, now, i)
}

/// The channels in the order of the configuration.
pub open spec fn in_order(n: nat) -> Seq<usize> {
    Seq::new(n, |i: int| i as usize)
}

/// One channel first, the others in the order of the configuration.
pub open spec fn with_first(n: nat, active: int) -> Seq<usize> {
    seq![active as usize] + in_order(n).remove(active)
}

impl State {
    /// Which of several channels may serve requests at a time.
    pub open spec fn readiness(self, s: Seq<Channel>, now: int) -> Seq<bool> {
        Seq::new(s.len(), |i: int| self.ready(s[i], now))
    }

    /// A model keeps to one of its channels.
    pub open spec fn keeps_to(self, model: Model) -> bool {
        self.sticky_routes@.contains_key(model.id@) && channel_index(
            model.channels@,
            self.sticky_routes@[model.id@].channel_id@,
        ) < model.channels@.len()
    }

    /// The place of the channel that a model keeps to.
    pub open spec fn active(self, model: Model) -> int {
        channel_index(model.channels@, self.sticky_routes@[model.id@].channel_id@)
    }

    /// Since when the channels before the present one are back.
    pub open spec fn returned(self, model: Model, now: i64) -> Map<Seq<char>, i64> {
        back_since(
            of_earlier(
                self.sticky_routes@[model.id@].recovered@,
                model.channels@,
                self.active(model),
            ),
            model.channels@,
            self.readiness(model.channels@, now as int),
            now,
            self.active(model),
        )
    }

    /// The order in which a model's channels are tried. The present channel comes first while it
    /// is ready and no better one has been back for ten minutes.
    pub open spec fn order(self, model: Model, now: i64) -> Seq<usize> {
        let s = model.channels@;
        let ready = self.readiness(s, now as int);
        if self.keeps_to(model) && ready[self.active(model)] && !settled(
            self.returned(model, now),
            s,
            ready,
            now,
            self.active(model),
        ) {
            with_first(s.len(), self.active(model))
        } else {
            in_order(s.len())
        }
    }

    /// The routes after a model's order was asked for.
    pub open spec fn routes_after(self, model: Model, now: i64) -> Map<Seq<char>, StickyView> {
        if self.keeps_to(model) {
            sticky_views(self.sticky_routes@).insert(
                model.id@,
                StickyView {
                    recovered: self.returned(model, now),
                    ..self.sticky_routes@[model.id@]@
                },
            )
        } else {
            sticky_views(self.sticky_routes@)
        }
    }
}

spec fn among_first(s: Seq<Channel>, n: usize, id: Seq<char>) -> bool {
    config::has_channel(s.take(n as int), id)
}

/// Whether one of the first channels has an identifier.
fn channel_among(s: &Vec<Channel>, n: usize, id: &str) -> (r: bool)
    requires
        n <= s@.len(),
    ensures
        r == config::has_channel(s@.take(n as int), id@),
{
    let mut i: usize = 0;
    while i < n
        invariant
            i <= n <= s@.len(),
            forall|j: int| 0 <= j < i ==> (#[trigger] s@[j]).id@ != id@,
        decreases n - i,
    {
        if same(s[i].id.as_str(), id) {
            assert(s@.take(n as int)[i as int].id@ == id@);
            return true;
        }
        i = i + 1;
    }
    assert(forall|j: int| 0 <= j < n ==> s@.take(n as int)[j] == s@[j]);
    false
}

/// The place of the first channel with an identifier, or the number of channels.
pub fn find_channel(s: &Vec<Channel>, id: &str) -> (r: usize)
    ensures
        r == channel_index(s@, id@),
        r <= s@.len(),
{
    let mut i: usize = 0;
    assert(s@.take(0) =~= Seq::empty());
    while i < s.len() && !same(s[i].id.as_str(), id)
        invariant
            i <= s@.len(),
            channel_index(s@.take(i as int), id@) == i,
        decreases s@.len() - i,
    {
        assert(s@.take(i + 1).drop_last() =~= s@.take(i as int));
        i = i + 1;
    }
    proof {
        if i < s@.len() {
            assert(s@.take(i + 1).drop_last() =~= s@.take(i as int));
            index_stays(s@, id@, i + 1);
        } else {
            assert(s@.take(i as int) =~= s@);
        }
    }
    i
}

proof fn index_stays(s: Seq<Channel>, id: Seq<char>, n: int)
    requires
        0 <= n <= s.len(),
        channel_index(s.take(n), id) < n,
    ensures
        channel_index(s, id) == channel_index(s.take(n), id),
    decreases s.len(),
{
    if n == s.len() {
        assert(s.take(n) =~= s);
    } else {
        assert(s.drop_last().take(n) =~= s.take(n));
        index_stays(s.drop_last(), id, n);
    }
}

fn note_returns(
    recovered: &mut Table<i64>,
    s: &Vec<Channel>,
    ready: &Vec<bool>,
    now: i64,
    active: usize,
)
    requires
        active < s@.len(),
        ready@.len() == s@.len(),
    ensures
        final(recovered)@ == back_since(
            of_earlier(old(recovered)@, s@, active as int),
            s@,
            ready@,
            now,
            active as int,
        ),
{
    let ghost before = recovered@;
    let known = |id: &String, _t: &i64| -> (r: bool)
        ensures
            r == among_first(s@, active, id@),
        { channel_among(s, active, id.as_str()) };
    recovered.retain(known);
    let ghost base = recovered@;
    proof {
        let goal = of_earlier(before, s@, active as int);
        assert forall|id: Seq<char>|
            #![trigger base.contains_key(id)]
            #![trigger goal.contains_key(id)]
            base.contains_key(id) == goal.contains_key(id) by {
            if before.contains_key(id) && !base.contains_key(id) {
            }
        }
        assert(base =~= goal);
    }
    let mut i: usize = 0;
    while i < active
        invariant
            i <= active < s@.len(),
            ready@.len() == s@.len(),
            recovered@ == back_since(base, s@, ready@, now, i as int),
        decreases active - i,
    {
        let id = s[i].id.as_str();
        if !ready[i] {
            recovered.remove(id);
        } else if !recovered.contains(id) {
            recovered.insert(id.to_owned(), now);
        }
        i = i + 1;
    }
}

proof fn times_kept(
    base: Map<Seq<char>, i64>,
    s: Seq<Channel>,
    ready: Seq<bool>,
    now: i64,
    n: int,
    id: Seq<char>,
)
    requires
        back_since(base, s, ready, now, n).contains_key(id),
    ensures
        back_since(base, s, ready, now, n)[id] == now || base.contains_key(id) && back_since(
            base,
            s,
            ready,
            now,
            n,
        )[id] == base[id],
    decreases n,
{
    if n > 0 {
        if back_since(base, s, ready, now, n - 1).contains_key(id) {
            times_kept(base, s, ready, now, n - 1, id);
        }
    }
}

fn is_settled(
    recovered: &Table<i64>,
    s: &Vec<Channel>,
    ready: &Vec<bool>,
    now: i64,
    active: usize,
) -> (r: bool)
    requires
        active < s@.len(),
        ready@.len() == s@.len(),
        forall|id: Seq<char>| #[trigger]
            recovered@.contains_key(id) ==> span(now as int, recovered@[id] as int),
    ensures
        r == settled(recovered@, s@, ready@, now, active as int),
{
    let mut i: usize = 0;
    while i < active
        invariant
            i <= active < s@.len(),
            ready@.len() == s@.len(),
            forall|id: Seq<char>| #[trigger]
                recovered@.contains_key(id) ==> span(now as int, recovered@[id] as int),
            forall|j: int|
                0 <= j < i ==> !#[trigger] back_long(recovered@, s@, ready@, now, j),
        decreases active - i,
    {
        if ready[i] {
            match recovered.get(s[i].id.as_str()) {
                Some(t) => {
                    if now - *t >= 600 {
                        assert(back_long(recovered@, s@, ready@, now, i as int));
                        return true;
                    }
                },
                None => {},
            }
        }
        assert(!back_long(recovered@, s@, ready@, now, i as int));
        i = i + 1;
    }
    false
}

impl State {
    /// The order in which a model's channels are to be tried. Notes which channels before the
    /// present one are back.
    pub fn route_order(&mut self, model: &Model, now: i64) -> (r: Vec<usize>)
        requires
            old(self).sticky_routes@.contains_key(model.id@) ==> forall|id: Seq<char>| #[trigger]
                old(self).sticky_routes@[model.id@].recovered@.contains_key(id) ==> span(
                    now as int,
                    old(self).sticky_routes@[model.id@].recovered@[id] as int,
                ),
        ensures
            r@ == old(self).order(*model, now),
            *final(self) == (State { sticky_routes: final(self).sticky_routes, ..*old(self) }),
            sticky_views(final(self).sticky_routes@) == old(self).routes_after(*model, now),
    {
        let n = model.channels.len();
        let mut ready: Vec<bool> = Vec::new();
        let mut order: Vec<usize> = Vec::new();
        let mut i: usize = 0;
        while i < n
            invariant
                i <= n == model.channels@.len(),
                *self == *old(self),
                order@ == in_order(i as nat),
                ready@ == self.readiness(model.channels@, now as int).take(i as int),
            decreases n - i,
        {
            ready.push(self.channel_ready(&model.channels[i], now));
            assert(ready@ =~= self.readiness(model.channels@, now as int).take(i + 1));
            order.push(i);
            assert(order@ =~= in_order((i + 1) as nat));
            i = i + 1;
        }
        assert(ready@ =~= self.readiness(model.channels@, now as int));
        let ghost all = self.sticky_routes@;
        let mut sticky = match self.sticky_routes.remove(model.id.as_str()) {
            Some(s) => s,
            None => {
                assert(all.remove(model.id@) =~= all);
                return order;
            },
        };
        let ghost before = sticky@;
        let active = find_channel(&model.channels, sticky.channel_id.as_str());
        if active == n {
            self.sticky_routes.insert(model.id.clone(), sticky);
            assert(self.sticky_routes@ =~= all);
            return order;
        }
        note_returns(&mut sticky.recovered, &model.channels, &ready, now, active);
        proof {
            let base = of_earlier(before.recovered, model.channels@, active as int);
            assert forall|id: Seq<char>| #[trigger] sticky.recovered@.contains_key(id) implies span(
                now as int,
                sticky.recovered@[id] as int,
            ) by {
                times_kept(base, model.channels@, ready@, now, active as int, id);
                if base.contains_key(id) {
                    assert(before.recovered.contains_key(id));
                }
            }
        }
        let done = is_settled(&sticky.recovered, &model.channels, &ready, now, active);
        let ghost after = sticky@;
        self.sticky_routes.insert(model.id.clone(), sticky);
        assert(sticky_views(self.sticky_routes@) =~= sticky_views(all).insert(model.id@, after));
        if ready[active] && !done {
            order.remove(active);
            order.insert(0, active);
            assert(order@ =~= with_first(n as nat, active as int));
        }
        order
    }
}

/// Some channel of a model has a key with an identifier.
pub open spec fn model_has_key(m: Model, id: Seq<char>) -> bool {
    exists|c: int|
        0 <= c < m.channels@.len() && config::has_key((#[trigger] m.channels@[c]).keys@, id)
}

/// Some configured key has an identifier.
pub open spec fn known_key(models: Seq<Model>, id: Seq<char>) -> bool {
    exists|m: int| 0 <= m < models.len() && model_has_key(#[trigger] models[m], id)
}

/// Some configured channel has an identifier.
pub open spec fn known_channel(models: Seq<Model>, id: Seq<char>) -> bool {
    exists|m: int|
        0 <= m < models.len() && config::has_channel((#[trigger] models[m]).channels@, id)
}

/// A configured model has a channel.
pub open spec fn known_route(models: Seq<Model>, model: Seq<char>, channel: Seq<char>) -> bool {
    exists|m: int|
        0 <= m < models.len() && (#[trigger] models[m]).id@ == model && config::has_channel(
            models[m].channels@,
            channel,
        )
}

fn key_among(keys: &Vec<Key>, id: &str) -> (r: bool)
    ensures
        r == config::has_key(keys@, id@),
{
    let mut i: usize = 0;
    while i < keys.len()
        invariant
            i <= keys@.len(),
            forall|j: int| 0 <= j < i ==> (#[trigger] keys@[j]).id@ != id@,
        decreases keys@.len() - i,
    {
        if same(keys[i].id.as_str(), id) {
            return true;
        }
        i = i + 1;
    }
    false
}

/// Whether some configured key has an identifier.
pub fn key_exists(models: &Vec<Model>, id: &str) -> (r: bool)
    ensures
        r == known_key(models@, id@),
{
    let mut i: usize = 0;
    while i < models.len()
        invariant
            i <= models@.len(),
            forall|j: int| 0 <= j < i ==> !model_has_key(#[trigger] models@[j], id@),
        decreases models@.len() - i,
    {
        let m = &models[i];
        let mut c: usize = 0;
        while c < m.channels.len()
            invariant
                i < models@.len(),
                *m == models@[i as int],
                c <= m.channels@.len(),
                forall|j: int|
                    0 <= j < c ==> !config::has_key((#[trigger] m.channels@[j]).keys@, id@),
            decreases m.channels@.len() - c,
        {
            if key_among(&m.channels[c].keys, id) {
                assert(model_has_key(models@[i as int], id@));
                return true;
            }
            c = c + 1;
        }
        i = i + 1;
    }
    false
}

fn channel_exists(models: &Vec<Model>, id: &str) -> (r: bool)
    ensures
        r == known_channel(models@, id@),
{
    let mut i: usize = 0;
    while i < models.len()
        invariant
            i <= models@.len(),
            forall|j: int|
                0 <= j < i ==> !config::has_channel((#[trigger] models@[j]).channels@, id@),
        decreases models@.len() - i,
    {
        let channels = &models[i].channels;
        assert(channels@.take(channels@.len() as int) =~= channels@);
        if channel_among(channels, channels.len(), id) {
            return true;
        }
        i = i + 1;
    }
    false
}

fn route_exists(models: &Vec<Model>, model: &str, channel: &str) -> (r: bool)
    ensures
        r == known_route(models@, model@, channel@),
{
    let mut i: usize = 0;
    while i < models.len()
        invariant
            i <= models@.len(),
            forall|j: int|
                0 <= j < i ==> !((#[trigger] models@[j]).id@ == model@ && config::has_channel(
                    models@[j].channels@,
                    channel@,
                )),
        decreases models@.len() - i,
    {
        let channels = &models[i].channels;
        assert(channels@.take(channels@.len() as int) =~= channels@);
        if same(models[i].id.as_str(), model) && channel_among(channels, channels.len(), channel) {
            return true;
        }
        i = i + 1;
    }
    false
}

/// The qualities of configured monitors, with no more verdicts than are kept.
pub open spec fn kept_quality(m: Map<Seq<char>, QualityView>, monitors: Seq<Monitor>) -> Map<
    Seq<char>,
    QualityView,
> {
    Map::new(
        |id: Seq<char>| m.contains_key(id) && config::has_monitor(monitors, id),
        |id: Seq<char>| m[id].trimmed(),
    )
}

fn trim_quality(quality: &mut Table<Quality>, monitors: &Vec<Monitor>)
    ensures
        quality_views(final(quality)@) == kept_quality(quality_views(old(quality)@), monitors@),
{
    let ghost all = quality@;
    let keys = quality.keys();
    let mut kept: Table<Quality> = Table::new();
    let mut i: usize = 0;
    while i < keys.len()
        invariant
            i <= keys@.len(),
            forall|a: int, b: int|
                0 <= a < b < keys@.len() ==> (#[trigger] keys@[a])@ != (#[trigger] keys@[b])@,
            forall|j: int| i <= j < keys@.len() ==> all.contains_key(#[trigger] keys@[j]@)
                && quality@.contains_key(keys@[j]@) && quality@[keys@[j]@] == all[keys@[j]@],
            forall|id: Seq<char>| #[trigger]
                kept@.contains_key(id) ==> all.contains_key(id) && config::has_monitor(
                    monitors@,
                    id,
                ) && kept@[id]@ == all[id]@.trimmed(),
            forall|j: int|
                0 <= j < i && config::has_monitor(monitors@, #[trigger] keys@[j]@)
                    ==> kept@.contains_key(keys@[j]@),
        decreases keys@.len() - i,
    {
        let key = keys[i].as_str();
        match quality.remove(key) {
            Some(mut q) => {
                if config::monitor_exists(monitors, key) {
                    q.trim();
                    kept.insert(key.to_owned(), q);
                }
            },
            None => {},
        }
        i = i + 1;
    }
    proof {
        let now = quality_views(kept@);
        let goal = kept_quality(quality_views(all), monitors@);
        assert forall|id: Seq<char>|
            #![trigger now.contains_key(id)]
            #![trigger goal.contains_key(id)]
            now.contains_key(id) == goal.contains_key(id) && (now.contains_key(id) ==> now[id]
                == goal[id]) by {
            if goal.contains_key(id) {
                assert(all.contains_key(id));
                let j = choose|j: int| 0 <= j < keys@.len() && #[trigger] keys@[j]@ == id;
                assert(kept@.contains_key(keys@[j]@));
            }
        }
        assert(now =~= goal);
    }
    *quality = kept;
}

impl State {
    /// A state holds what a configuration knows of an earlier state, and no more of it than is kept.
    pub open spec fn pruned_from(self, before: State, c: Config) -> bool {
        &&& self.keys@ == before.keys@.restrict(
            Set::new(|id: Seq<char>| known_key(c.models@, id)),
        )
        &&& quality_views(self.quality@) == kept_quality(
            quality_views(before.quality@),
            c.monitors@,
        )
        &&& self.last_used@ == before.last_used@.restrict(
            Set::new(
                |id: Seq<char>|
                    before.last_used@.contains_key(id) && known_route(
                        c.models@,
                        id,
                        before.last_used@[id]@,
                    ),
            ),
        )
        &&& self.round_robin@ == before.round_robin@.restrict(
            Set::new(|id: Seq<char>| known_channel(c.models@, id)),
        )
        &&& self.sticky_routes@ == before.sticky_routes@.restrict(
            Set::new(
                |id: Seq<char>|
                    before.sticky_routes@.contains_key(id) && known_route(
                        c.models@,
                        id,
                        before.sticky_routes@[id].channel_id@,
                    ),
            ),
        )
        &&& self.events@ == telemetry::cut(before.events@, 200)
        &&& self.notices@ == telemetry::cut(before.notices@, 200)
    }

    /// Forgets what a configuration does not know, and what is more than is kept.
    pub fn prune(&mut self, c: &Config)
        ensures
            final(self).pruned_from(*old(self), *c),
            *final(self) == (State {
                keys: final(self).keys,
                quality: final(self).quality,
                last_used: final(self).last_used,
                round_robin: final(self).round_robin,
                sticky_routes: final(self).sticky_routes,
                events: final(self).events,
                notices: final(self).notices,
                ..*old(self)
            }),
    {
        let models = &c.models;
        let known = |id: &String, _s: &KeyState| -> (r: bool)
            ensures
                r == known_key(models@, id@),
            { key_exists(models, id.as_str()) };
        self.keys.retain(known);
        assert(self.keys@ =~= old(self).keys@.restrict(
            Set::new(|id: Seq<char>| known_key(c.models@, id)),
        ));
        trim_quality(&mut self.quality, &c.monitors);
        let routed = |id: &String, channel: &String| -> (r: bool)
            ensures
                r == known_route(models@, id@, channel@),
            { route_exists(models, id.as_str(), channel.as_str()) };
        self.last_used.retain(routed);
        assert(self.last_used@ =~= old(self).last_used@.restrict(
            Set::new(
                |id: Seq<char>|
                    old(self).last_used@.contains_key(id) && known_route(
                        c.models@,
                        id,
                        old(self).last_used@[id]@,
                    ),
            ),
        ));
        let placed = |id: &String, _n: &usize| -> (r: bool)
            ensures
                r == known_channel(models@, id@),
            { channel_exists(models, id.as_str()) };
        self.round_robin.retain(placed);
        assert(self.round_robin@ =~= old(self).round_robin@.restrict(
            Set::new(|id: Seq<char>| known_channel(c.models@, id)),
        ));
        let followed = |id: &String, route: &StickyRoute| -> (r: bool)
            ensures
                r == known_route(models@, id@, route.channel_id@),
            { route_exists(models, id.as_str(), route.channel_id.as_str()) };
        self.sticky_routes.retain(followed);
        assert(self.sticky_routes@ =~= old(self).sticky_routes@.restrict(
            Set::new(
                |id: Seq<char>|
                    old(self).sticky_routes@.contains_key(id) && known_route(
                        c.models@,
                        id,
                        old(self).sticky_routes@[id].channel_id@,
                    ),
            ),
        ));
        self.events.truncate(200);
        assert(self.events@ =~= telemetry::cut(old(self).events@, 200));
        self.notices.truncate(200);
        assert(self.notices@ =~= telemetry::cut(old(self).notices@, 200));
    }
}

/// The keys of a channel, each with its identity.
pub open spec fn channel_identities(model: Seq<char>, c: Channel) -> Seq<(Seq<char>, Seq<char>)> {
    Seq::new(
        c.keys@.len(),
        |i: int| (c.keys@[i].id@, c.identity_of(model, c.keys@[i])),
    )
}

/// The keys of several channels, each with its identity.
pub open spec fn channels_identities(model: Seq<char>, s: Seq<Channel>) -> Seq<
    (Seq<char>, Seq<char>),
>
    decreases s.len(),
{
    if s.len() == 0 {
        Seq::empty()
    } else {
        channels_identities(model, s.drop_last()) + channel_identities(model, s.last())
    }
}

/// All configured keys, each with its identity.
pub open spec fn key_identities(models: Seq<Model>) -> Seq<(Seq<char>, Seq<char>)>
    decreases models.len(),
{
    if models.len() == 0 {
        Seq::empty()
    } else {
        key_identities(models.drop_last()) + channels_identities(
            models.last().id@,
            models.last().channels@,
        )
    }
}

/// All configured monitors, each with its identity.
pub open spec fn monitor_identities(s: Seq<Monitor>) -> Seq<(Seq<char>, Seq<char>)> {
    s.map_values(|m: Monitor| (m.id@, m.identity_of()))
}

/// Identities by identifier.
pub open spec fn by_id(s: Seq<(Seq<char>, Seq<char>)>) -> Map<Seq<char>, Seq<char>>
    decreases s.len(),
{
    if s.len() == 0 {
        Map::empty()
    } else {
        by_id(s.drop_last()).insert(s.last().0, s.last().1)
    }
}

/// What had an identifier before was something else.
pub open spec fn replaced(
    s: Seq<(Seq<char>, Seq<char>)>,
    before: Map<Seq<char>, Seq<char>>,
    id: Seq<char>,
) -> bool {
    exists|i: int|
        0 <= i < s.len() && (#[trigger] s[i]).0 == id && !(before.contains_key(id) && before[id]
            == s[i].1)
}

fn gather_keys(models: &Vec<Model>) -> (r: Vec<(String, String)>)
    ensures
        json::pair_views(r@) == key_identities(models@),
{
    let mut r: Vec<(String, String)> = Vec::new();
    let mut m: usize = 0;
    assert(models@.take(0) =~= Seq::empty());
    assert(json::pair_views(r@) =~= Seq::empty());
    while m < models.len()
        invariant
            m <= models@.len(),
            json::pair_views(r@) == key_identities(models@.take(m as int)),
        decreases models@.len() - m,
    {
        assert(models@.take(m + 1).drop_last() =~= models@.take(m as int));
        let model = &models[m];
        let ghost before = json::pair_views(r@);
        let mut c: usize = 0;
        assert(model.channels@.take(0) =~= Seq::empty());
        assert(before + Seq::empty() =~= before);
        while c < model.channels.len()
            invariant
                c <= model.channels@.len(),
                json::pair_views(r@) == before + channels_identities(
                    model.id@,
                    model.channels@.take(c as int),
                ),
            decreases model.channels@.len() - c,
        {
            assert(model.channels@.take(c + 1).drop_last() =~= model.channels@.take(c as int));
            let channel = &model.channels[c];
            let ghost earlier = json::pair_views(r@);
            let ghost own = channel_identities(model.id@, *channel);
            let mut k: usize = 0;
            assert(earlier + own.take(0) =~= earlier);
            while k < channel.keys.len()
                invariant
                    k <= channel.keys@.len(),
                    own == channel_identities(model.id@, *channel),
                    json::pair_views(r@) == earlier + own.take(k as int),
                decreases channel.keys@.len() - k,
            {
                let key = &channel.keys[k];
                let identity = channel.key_identity(model.id.as_str(), key);
                let ghost all = r@;
                r.push((key.id.clone(), identity));
                assert(json::pair_views(r@) =~= json::pair_views(all).push(own[k as int]));
                assert(own.take(k + 1) =~= own.take(k as int).push(own[k as int]));
                assert(json::pair_views(r@) =~= earlier + own.take(k + 1));
                k = k + 1;
            }
            assert(own.take(own.len() as int) =~= own);
            assert(json::pair_views(r@) =~= before + channels_identities(
                model.id@,
                model.channels@.take(c + 1),
            ));
            c = c + 1;
        }
        assert(model.channels@.take(c as int) =~= model.channels@);
        m = m + 1;
    }
    assert(models@.take(m as int) =~= models@);
    r
}

fn gather_monitors(s: &Vec<Monitor>) -> (r: Vec<(String, String)>)
    ensures
        json::pair_views(r@) == monitor_identities(s@),
{
    let mut r: Vec<(String, String)> = Vec::new();
    let mut i: usize = 0;
    while i < s.len()
        invariant
            i <= s@.len(),
            json::pair_views(r@) == monitor_identities(s@).take(i as int),
        decreases s@.len() - i,
    {
        let ghost all = json::pair_views(r@);
        r.push((s[i].id.clone(), s[i].identity()));
        assert(json::pair_views(r@) =~= all.push(monitor_identities(s@)[i as int]));
        assert(json::pair_views(r@) =~= monitor_identities(s@).take(i + 1));
        i = i + 1;
    }
    assert(json::pair_views(r@) =~= monitor_identities(s@));
    r
}

fn index_by_id(s: &Vec<(String, String)>) -> (r: Table<String>)
    ensures
        text_views(r@) == by_id(json::pair_views(s@)),
{
    let ghost pairs = json::pair_views(s@);
    let mut r: Table<String> = Table::new();
    let mut i: usize = 0;
    assert(pairs.take(0) =~= Seq::empty());
    assert(text_views(r@) =~= Map::empty());
    while i < s.len()
        invariant
            i <= s@.len(),
            pairs == json::pair_views(s@),
            text_views(r@) == by_id(pairs.take(i as int)),
        decreases s@.len() - i,
    {
        assert(pairs.take(i + 1).drop_last() =~= pairs.take(i as int));
        assert(pairs[i as int] == (s@[i as int].0@, s@[i as int].1@));
        let ghost before = text_views(r@);
        r.insert(s[i].0.clone(), s[i].1.clone());
        assert(text_views(r@) =~= before.insert(pairs[i as int].0, pairs[i as int].1));
        i = i + 1;
    }
    assert(pairs.take(pairs.len() as int) =~= pairs);
    r
}

/// Drops what belongs to identifiers that mean something else now.
fn drop_replaced<V>(table: &mut Table<V>, s: &Vec<(String, String)>, before: &Table<String>)
    ensures
        final(table)@ == old(table)@.restrict(
            Set::new(
                |id: Seq<char>| !replaced(json::pair_views(s@), text_views(before@), id),
            ),
        ),
{
    let ghost pairs = json::pair_views(s@);
    let ghost was = text_views(before@);
    let mut i: usize = 0;
    while i < s.len()
        invariant
            i <= s@.len(),
            pairs == json::pair_views(s@),
            was == text_views(before@),
            forall|id: Seq<char>| #[trigger]
                table@.contains_key(id) ==> old(table)@.contains_key(id) && table@[id] == old(
                    table,
                )@[id] && !replaced(pairs.take(i as int), was, id),
            forall|id: Seq<char>|
                old(table)@.contains_key(id) && !replaced(pairs.take(i as int), was, id)
                    ==> #[trigger] table@.contains_key(id),
        decreases s@.len() - i,
    {
        let id = s[i].0.as_str();
        let ghost k = id@;
        assert(pairs[i as int] == (s@[i as int].0@, s@[i as int].1@));
        let unchanged = match before.get(id) {
            Some(t) => same(t.as_str(), s[i].1.as_str()),
            None => false,
        };
        assert(unchanged == (was.contains_key(k) && was[k] == pairs[i as int].1));
        if !unchanged {
            table.remove(id);
        }
        proof {
            let a = pairs.take(i as int);
            let b = pairs.take(i + 1);
            assert forall|q: Seq<char>|
                replaced(b, was, q) == (replaced(a, was, q) || (q == k && !unchanged)) by {
                if replaced(a, was, q) {
                    let j = choose|j: int|
                        0 <= j < a.len() && (#[trigger] a[j]).0 == q && !(was.contains_key(q)
                            && was[q] == a[j].1);
                    assert(b[j] == a[j]);
                }
                if q == k && !unchanged {
                    assert(b[i as int].0 == q);
                }
                if replaced(b, was, q) {
                    let j = choose|j: int|
                        0 <= j < b.len() && (#[trigger] b[j]).0 == q && !(was.contains_key(q)
                            && was[q] == b[j].1);
                    if j < i {
                        assert(a[j] == b[j]);
                    }
                }
            }
        }
        i = i + 1;
    }
    assert(pairs.take(pairs.len() as int) =~= pairs);
    assert(table@ =~= old(table)@.restrict(Set::new(|id: Seq<char>| !replaced(pairs, was, id))));
}

impl State {
    /// The state was kept under a configuration's digest, before identities were noted.
    pub open spec fn legacy(self, c: Config) -> bool {
        self.identities@.dom().len() == 0 && self.config_digest@ == config::fingerprint_of(
            config::config_document(c),
        )
    }

    /// What is kept of an earlier state under a configuration, before it is pruned: the health of
    /// keys and the quality of upstreams whose identity did not change.
    pub open spec fn matched_from(self, before: State, c: Config) -> bool {
        let keys = key_identities(c.models@);
        let monitors = monitor_identities(c.monitors@);
        &&& self == (State {
            keys: self.keys,
            quality: self.quality,
            identities: self.identities,
            monitor_identities: self.monitor_identities,
            config_digest: self.config_digest,
            ..before
        })
        &&& text_views(self.identities@) == by_id(keys)
        &&& text_views(self.monitor_identities@) == by_id(monitors)
        &&& self.config_digest@ == config::fingerprint_of(config::config_document(c))
        &&& self.keys@ == (if before.legacy(c) {
            before.keys@
        } else {
            before.keys@.restrict(
                Set::new(|id: Seq<char>| !replaced(keys, text_views(before.identities@), id)),
            )
        })
        &&& self.quality@ == (if before.legacy(c) {
            before.quality@
        } else {
            before.quality@.restrict(
                Set::new(
                    |id: Seq<char>|
                        !replaced(monitors, text_views(before.monitor_identities@), id),
                ),
            )
        })
    }

    /// A state was brought under a configuration from an earlier one: what was matched was pruned.
    pub open spec fn reconciled_from(self, before: State, c: Config) -> bool {
        exists|matched: State| #[trigger]
            matched.matched_from(before, c) && self.pruned_from(matched, c) && self
                == (State {
                keys: self.keys,
                quality: self.quality,
                last_used: self.last_used,
                round_robin: self.round_robin,
                sticky_routes: self.sticky_routes,
                events: self.events,
                notices: self.notices,
                ..matched
            })
    }

    fn match_identities(&mut self, c: &Config)
        ensures
            final(self).matched_from(*old(self), *c),
    {
        let digest = c.digest();
        let legacy = self.identities.len() == 0 && same(
            self.config_digest.as_str(),
            digest.as_str(),
        );
        let keys = gather_keys(&c.models);
        let monitors = gather_monitors(&c.monitors);
        if !legacy {
            drop_replaced(&mut self.keys, &keys, &self.identities);
            drop_replaced(&mut self.quality, &monitors, &self.monitor_identities);
        }
        self.identities = index_by_id(&keys);
        self.monitor_identities = index_by_id(&monitors);
        self.config_digest = digest;
    }

    /// Brings the state under a configuration. What display names, order, listener, password and
    /// webhook are makes no difference to it.
    pub fn reconcile(&mut self, c: &Config)
        ensures
            final(self).reconciled_from(*old(self), *c),
    {
        self.match_identities(c);
        self.prune(c);
    }
}

/// Failures under way at once are one failure: the second neither counts another cycle nor moves
/// the cooldown or the next probe.
pub proof fn concurrent_failures_are_one_cycle(s: KeyView, first: i64, second: i64)
    ensures
        s.failed(first).failed(second) == (KeyView {
            revision: s.failed(first).failed(second).revision,
            ..s.failed(first)
        }),
        s.failed(first).service_failed,
{
}

/// Signs of failure during one incident change nothing.
pub proof fn signs_of_one_incident_are_one(s: KeyView, first: i64, second: i64)
    ensures
        s.suspected(first).suspected(second) == s.suspected(first),
{
}

proof fn recent_cycles_bound(s: Seq<i64>, now: int)
    ensures
        recent_cycles(s, now).len() <= s.len(),
        forall|i: int|
            0 <= i < recent_cycles(s, now).len() ==> now - #[trigger] recent_cycles(s, now)[i] < 600,
    decreases s.len(),
{
    if s.len() > 0 {
        recent_cycles_bound(s.drop_last(), now);
    }
}

/// At most eight failures are remembered, and only those of the last ten minutes.
pub proof fn failure_cycles_are_bounded(s: KeyView, now: i64)
    requires
        !s.service_failed,
    ensures
        1 <= s.failed(now).failure_cycles.len() <= 8,
        s.failed(now).failure_cycles.last() == now,
        forall|i: int|
            0 <= i < s.failed(now).failure_cycles.len() ==> now - #[trigger] s.failed(
                now,
            ).failure_cycles[i] < 600,
{
    recent_cycles_bound(s.failure_cycles, now as int);
}

/// A key that failed serves no request before it recovered.
pub proof fn failed_keys_are_not_eligible(s: KeyView, now: i64, later: int)
    ensures
        !s.failed(now).eligible(later),
{
}

/// A failed key comes back only by an answer, after an earlier one since which a minute has passed,
/// and not before its cooldown is over.
pub proof fn recovery_takes_two_answers(s: KeyView, now: i64, ok: bool)
    requires
        s.service_failed,
        s.probe_fits(now, ok),
        !s.probed(now, ok).service_failed,
    ensures
        ok,
        s.recovery_successes >= 1,
        s.recovery_successes == 1 ==> now - s.last_recovery_success >= 60,
        s.cooldown_until <= now,
{
}

/// Answers within a minute of each other count as one.
pub proof fn quick_answers_do_not_recover(s: KeyView, first: i64, second: i64)
    requires
        s.service_failed,
        s.recovery_successes == 0,
        s.probe_fits(first, true),
        second - first < 60,
    ensures
        s.probed(first, true).service_failed,
        s.probed(first, true).probed(second, true).service_failed,
        s.probed(first, true).probed(second, true).recovery_successes == 1,
{
}

/// The key after several probes without an answer.
pub open spec fn unanswered(s: KeyView, times: Seq<i64>) -> KeyView
    decreases times.len(),
{
    if times.len() == 0 {
        s
    } else {
        unanswered(s, times.drop_last()).probed(times.last(), false)
    }
}

/// Twelve probes without an answer are the last: the key then stays out of use at every time.
pub proof fn budget_stops_probing(s: KeyView, now: i64, times: Seq<i64>)
    requires
        !s.service_failed,
        times.len() >= 12,
    ensures
        unanswered(s.failed(now), times).probe_exhausted,
        unanswered(s.failed(now), times).retry_at == 0,
        forall|later: int| !#[trigger] unanswered(s.failed(now), times).eligible(later),
{
    attempts_add_up(s.failed(now), times);
}

proof fn attempts_add_up(s: KeyView, times: Seq<i64>)
    requires
        s.probe_attempts == 0,
        s.service_failed,
    ensures
        unanswered(s, times).probe_attempts == if times.len() < u32::MAX {
            times.len() as int
        } else {
            u32::MAX as int
        },
        unanswered(s, times).service_failed,
        times.len() >= 12 ==> unanswered(s, times).probe_exhausted && unanswered(s, times).retry_at
            == 0,
    decreases times.len(),
{
    if times.len() > 0 {
        attempts_add_up(s, times.drop_last());
    }
}

/// Probes without an answer come two, three, four and then five minutes apart.
pub proof fn probes_back_off(s: KeyView, now: i64)
    requires
        s.probe_step <= 4,
        s.probe_attempts < 11,
        s.probe_fits(now, false),
    ensures
        s.probed(now, false).probe_step == if s.probe_step < 4 {
            s.probe_step + 1
        } else {
            4
        },
        s.probed(now, false).retry_at == now + 60 * (s.probed(now, false).probe_step + 1),
        60 <= s.probed(now, false).retry_at - now <= 300,
{
}

/// No more than two hundred events and notices are kept, and no event is longer than a thousand
/// characters.
pub proof fn messages_are_bounded(
    events: Seq<EventView>,
    now: i64,
    kind: Seq<char>,
    message: Seq<char>,
    notices: Seq<NoticeView>,
    id: Seq<char>,
)
    ensures
        with_event(events, now, kind, message).len() <= 200,
        with_event(events, now, kind, message).last().message.len() <= 1000,
        with_event(events, now, kind, message).last().kind == kind,
        notices.len() <= 200 ==> with_notice(notices, id, message).len() <= 200,
        with_notice(notices, id, message).last().message == message,
{
}

/// Every channel of a model is tried once, whatever the order.
pub proof fn order_leaves_none_out(s: State, model: Model, now: i64)
    ensures
        s.order(model, now).len() == model.channels@.len(),
        s.order(model, now).no_duplicates(),
        forall|k: int|
            0 <= k < s.order(model, now).len() ==> #[trigger] s.order(model, now)[k]
                < model.channels@.len(),
{
    let n = model.channels@.len();
    assert(model.channels.len() == n);
    if s.keeps_to(model) {
        let a = s.active(model);
        index_bound(model.channels@, s.sticky_routes@[model.id@].channel_id@);
        let o = with_first(n, a);
        assert forall|i: int| 0 < i < o.len() implies #[trigger] o[i] == if i <= a {
            (i - 1) as usize
        } else {
            i as usize
        } by {
            assert(o[i] == in_order(n).remove(a)[i - 1]);
        }
    }
}

proof fn index_bound(s: Seq<Channel>, id: Seq<char>)
    ensures
        0 <= channel_index(s, id) <= s.len(),
        channel_index(s, id) < s.len() ==> s[channel_index(s, id)].id@ == id,
    decreases s.len(),
{
    if s.len() > 0 {
        index_bound(s.drop_last(), id);
    }
}

/// A channel that has just come back waits: while the present channel is ready it stays first until
/// one before it has been back for ten minutes.
pub proof fn returned_channels_wait(s: State, model: Model, now: i64)
    requires
        s.keeps_to(model),
        s.ready(model.channels@[s.active(model)], now as int),
        forall|i: int|
            0 <= i < s.active(model) ==> !#[trigger] back_long(
                s.returned(model, now),
                model.channels@,
                s.readiness(model.channels@, now as int),
                now,
                i,
            ),
    ensures
        s.order(model, now)[0] == s.active(model),
        model.channels@[s.active(model)].id@ == s.sticky_routes@[model.id@].channel_id@,
{
    assert(model.channels.len() == model.channels@.len());
    index_bound(model.channels@, s.sticky_routes@[model.id@].channel_id@);
}

/// A present channel that is not ready does not hold the others back.
pub proof fn failure_bypasses_the_wait(s: State, model: Model, now: i64)
    requires
        s.keeps_to(model),
        !s.ready(model.channels@[s.active(model)], now as int),
    ensures
        s.order(model, now) == in_order(model.channels@.len()),
{
    index_bound(model.channels@, s.sticky_routes@[model.id@].channel_id@);
}

/// A pruned state knows no key, monitor or route that the configuration does not.
pub proof fn pruned_states_are_configured(s: State, before: State, c: Config, id: Seq<char>)
    requires
        s.pruned_from(before, c),
    ensures
        s.keys@.contains_key(id) ==> known_key(c.models@, id),
        s.quality@.contains_key(id) ==> config::has_monitor(c.monitors@, id)
            && s.quality@[id]@.history.len() <= 72,
        s.round_robin@.contains_key(id) ==> known_channel(c.models@, id),
        s.sticky_routes@.contains_key(id) ==> known_route(
            c.models@,
            id,
            s.sticky_routes@[id].channel_id@,
        ),
        s.events@.len() <= 200,
        s.notices@.len() <= 200,
{
    if s.quality@.contains_key(id) {
        assert(quality_views(s.quality@).contains_key(id));
        assert(quality_views(s.quality@)[id] == s.quality@[id]@);
    }
}

proof fn found_by_id(s: Seq<(Seq<char>, Seq<char>)>, i: int)
    requires
        0 <= i < s.len(),
        distinct_ids(s),
    ensures
        by_id(s).contains_key(s[i].0),
        by_id(s)[s[i].0] == s[i].1,
    decreases s.len(),
{
    if i < s.len() - 1 {
        let t = s.drop_last();
        assert(forall|a: int| 0 <= a < t.len() ==> t[a] == s[a]);
        found_by_id(t, i);
    }
}

/// What was configured and still is keeps its state: where identifiers are distinct and stand for
/// what they stood for, nothing counts as replaced.
pub proof fn unchanged_identities_keep_state(s: Seq<(Seq<char>, Seq<char>)>, id: Seq<char>)
    requires
        distinct_ids(s),
    ensures
        !replaced(s, by_id(s), id),
{
    assert forall|i: int| 0 <= i < s.len() && (#[trigger] s[i]).0 == id implies by_id(
        s,
    ).contains_key(id) && by_id(s)[id] == s[i].1 by {
        found_by_id(s, i);
    }
}

impl State {
    /// The models of the keys.
    pub open spec fn key_map(self) -> Map<Seq<char>, KeyView> {
        key_views(self.keys@)
    }

    /// What is known of a key: nothing, where there is no state of it.
    pub open spec fn key_at(self, id: Seq<char>) -> KeyView {
        if self.keys@.contains_key(id) {
            self.keys@[id]@
        } else {
            KeyView::blank()
        }
    }

    /// The state differs from an earlier one in one key, the log and the queue.
    pub open spec fn key_changed(self, before: State, id: Seq<char>, key: KeyView) -> bool {
        &&& self == (State {
            keys: self.keys,
            events: self.events,
            notices: self.notices,
            ..before
        })
        &&& self.key_map() == before.key_map().insert(id, key)
    }

    /// The revision of a key's state.
    pub fn revision(&self, id: &str) -> (r: u64)
        ensures
            r == self.key_at(id@).revision,
    {
        match self.keys.get(id) {
            Some(s) => s.revision,
            None => 0,
        }
    }

    /// Takes a key's state out.
    pub fn take_key(&mut self, id: &str) -> (r: KeyState)
        ensures
            r@ == old(self).key_at(id@),
            *final(self) == (State { keys: final(self).keys, ..*old(self) }),
            final(self).keys@ == old(self).keys@.remove(id@),
    {
        match self.keys.remove(id) {
            Some(s) => s,
            None => KeyState::default(),
        }
    }

    /// Puts a key's state back.
    pub fn put_key(&mut self, id: &str, key: KeyState)
        ensures
            *final(self) == (State { keys: final(self).keys, ..*old(self) }),
            final(self).key_map() == old(self).key_map().insert(id@, key@),
    {
        let ghost before = self.key_map();
        let ghost kv = key@;
        self.keys.insert(id.to_owned(), key);
        assert(self.key_map() =~= before.insert(id@, kv));
    }
}

/// Once a channel before the present one has been back for ten minutes, the order is that of the
/// configuration again.
pub proof fn settled_channels_come_first(s: State, model: Model, now: i64, i: int)
    requires
        s.keeps_to(model),
        0 <= i < s.active(model),
        back_long(
            s.returned(model, now),
            model.channels@,
            s.readiness(model.channels@, now as int),
            now,
            i,
        ),
    ensures
        s.order(model, now) == in_order(model.channels@.len()),
{
}

proof fn times_of_channels(
    base: Map<Seq<char>, i64>,
    s: Seq<Channel>,
    ready: Seq<bool>,
    now: i64,
    n: int,
    i: int,
)
    requires
        config::distinct_channels(s),
        0 <= i < s.len(),
        0 <= n <= s.len(),
    ensures
        ({
            let t = back_since(base, s, ready, now, n);
            let id = s[i].id@;
            if i >= n {
                t.contains_key(id) == base.contains_key(id) && (base.contains_key(id) ==> t[id]
                    == base[id])
            } else if !ready[i] {
                !t.contains_key(id)
            } else {
                t.contains_key(id) && t[id] == if base.contains_key(id) {
                    base[id]
                } else {
                    now
                }
            }
        }),
    decreases n,
{
    if n > 0 {
        times_of_channels(base, s, ready, now, n - 1, i);
        if i != n - 1 {
            assert(s[i].id@ != s[n - 1].id@) by {
                if i < n - 1 {
                    assert(s[i].id@ != s[n - 1].id@);
                } else {
                    assert(s[n - 1].id@ != s[i].id@);
                }
            }
        }
    }
}

/// A better channel's wait runs from the time at which it was first seen ready again, and starts anew
/// after every time it was not.
pub proof fn waits_run_from_the_first_sight(s: State, model: Model, now: i64, i: int)
    requires
        config::distinct_channels(model.channels@),
        s.keeps_to(model),
        0 <= i < s.active(model),
    ensures
        ({
            let id = model.channels@[i].id@;
            let before = s.sticky_routes@[model.id@].recovered@;
            let after = s.returned(model, now);
            if !s.ready(model.channels@[i], now as int) {
                !after.contains_key(id)
            } else {
                after.contains_key(id) && after[id] == if before.contains_key(id) {
                    before[id]
                } else {
                    now
                }
            }
        }),
{
    index_bound(model.channels@, s.sticky_routes@[model.id@].channel_id@);
    let base = of_earlier(
        s.sticky_routes@[model.id@].recovered@,
        model.channels@,
        s.active(model),
    );
    assert(config::has_channel(model.channels@.take(s.active(model)), model.channels@[i].id@)) by {
        assert(model.channels@.take(s.active(model))[i] == model.channels@[i]);
    }
    times_of_channels(
        base,
        model.channels@,
        s.readiness(model.channels@, now as int),
        now,
        s.active(model),
        i,
    );
}

proof fn keys_of_sum(a: Seq<Channel>, b: Seq<Channel>)
    ensures
        config::all_keys(a + b) == config::all_keys(a) + config::all_keys(b),
    decreases b.len(),
{
    if b.len() == 0 {
        assert(a + b =~= a);
        assert(config::all_keys(a) + config::all_keys(b) =~= config::all_keys(a));
    } else {
        assert((a + b).drop_last() =~= a + b.drop_last());
        keys_of_sum(a, b.drop_last());
        assert(config::all_keys(a + b) =~= config::all_keys(a) + config::all_keys(b));
    }
}

/// Identities are those of keys, one by one.
spec fn lists_keys(s: Seq<(Seq<char>, Seq<char>)>, keys: Seq<Key>) -> bool {
    s.len() == keys.len() && forall|i: int| 0 <= i < s.len() ==> (#[trigger] s[i]).0 == keys[i].id@
}

proof fn channels_list_keys(model: Seq<char>, s: Seq<Channel>)
    ensures
        lists_keys(channels_identities(model, s), config::all_keys(s)),
    decreases s.len(),
{
    if s.len() > 0 {
        channels_list_keys(model, s.drop_last());
    }
}

proof fn models_list_keys(models: Seq<Model>)
    ensures
        lists_keys(
            key_identities(models),
            config::all_keys(config::all_channels(models)),
        ),
    decreases models.len(),
{
    if models.len() > 0 {
        let rest = models.drop_last();
        let last = models.last();
        models_list_keys(rest);
        channels_list_keys(last.id@, last.channels@);
        keys_of_sum(config::all_channels(rest), last.channels@);
    } else {
        assert(config::all_keys(config::all_channels(models)) =~= Seq::empty());
    }
}

proof fn accepted_identities_are_distinct(c: Config, listens: bool)
    requires
        c.complaint(listens) is None,
    ensures
        distinct_ids(key_identities(c.models@)),
        distinct_ids(monitor_identities(c.monitors@)),
{
    config::accepted_configurations_are_orderly(c, listens);
    models_list_keys(c.models@);
    let keys = key_identities(c.models@);
    let monitors = monitor_identities(c.monitors@);
    let all = config::all_keys(config::all_channels(c.models@));
    assert forall|a: int, b: int| 0 <= a < b < keys.len() implies (#[trigger] keys[a]).0 != (
    #[trigger] keys[b]).0 by {
        assert(all[a].id@ != all[b].id@);
    }
    assert forall|a: int, b: int| 0 <= a < b < monitors.len() implies (#[trigger] monitors[a]).0 != (
    #[trigger] monitors[b]).0 by {
        assert(c.monitors@[a].id@ != c.monitors@[b].id@);
    }
}

/// No identifier stands twice.
pub open spec fn distinct_ids(s: Seq<(Seq<char>, Seq<char>)>) -> bool {
    forall|a: int, b: int| 0 <= a < b < s.len() ==> (#[trigger] s[a]).0 != (#[trigger] s[b]).0
}

/// Two lists hold the same identifiers with the same identities, in whatever order.
pub open spec fn same_pairs(s: Seq<(Seq<char>, Seq<char>)>, t: Seq<(Seq<char>, Seq<char>)>) -> bool {
    forall|p: (Seq<char>, Seq<char>)| #[trigger] s.contains(p) <==> t.contains(p)
}

proof fn same_pairs_replace_nothing(
    s: Seq<(Seq<char>, Seq<char>)>,
    t: Seq<(Seq<char>, Seq<char>)>,
    id: Seq<char>,
)
    requires
        distinct_ids(s),
        same_pairs(s, t),
    ensures
        !replaced(t, by_id(s), id),
{
    assert forall|i: int| 0 <= i < t.len() && (#[trigger] t[i]).0 == id implies by_id(
        s,
    ).contains_key(id) && by_id(s)[id] == t[i].1 by {
        assert(t.contains(t[i]));
        assert(s.contains(t[i]));
        let k = choose|k: int| 0 <= k < s.len() && s[k] == t[i];
        found_by_id(s, k);
    }
}

/// What display names, order, switches, listener, password and webhook are makes no difference to what
/// is kept: where a state was brought under one accepted configuration, and another one holds the same
/// keys and monitors with the same identities, the health of every key and the quality of every
/// upstream stay.
pub proof fn same_identities_keep_all(
    before: State,
    after: State,
    c: Config,
    d: Config,
    listens: bool,
)
    requires
        c.complaint(listens) is None,
        text_views(before.identities@) == by_id(key_identities(c.models@)),
        text_views(before.monitor_identities@) == by_id(monitor_identities(c.monitors@)),
        same_pairs(key_identities(c.models@), key_identities(d.models@)),
        same_pairs(monitor_identities(c.monitors@), monitor_identities(d.monitors@)),
        after.matched_from(before, d),
    ensures
        after.keys@ == before.keys@,
        after.quality@ == before.quality@,
{
    accepted_identities_are_distinct(c, listens);
    assert forall|id: Seq<char>|
        !#[trigger] replaced(
            key_identities(d.models@),
            text_views(before.identities@),
            id,
        ) by {
        same_pairs_replace_nothing(
            key_identities(c.models@),
            key_identities(d.models@),
            id,
        );
    }
    assert forall|id: Seq<char>|
        !#[trigger] replaced(
            monitor_identities(d.monitors@),
            text_views(before.monitor_identities@),
            id,
        ) by {
        same_pairs_replace_nothing(
            monitor_identities(c.monitors@),
            monitor_identities(d.monitors@),
            id,
        );
    }
    assert(after.keys@ =~= before.keys@);
    assert(after.quality@ =~= before.quality@);
}

proof fn known_keys_are_listed(models: Seq<Model>, id: Seq<char>)
    ensures
        known_key(models, id) <==> config::has_key(
            config::all_keys(config::all_channels(models)),
            id,
        ),
    decreases models.len(),
{
    let all = config::all_keys(config::all_channels(models));
    if models.len() == 0 {
        assert(all =~= Seq::empty());
    } else {
        let rest = models.drop_last();
        let last = models.last();
        let earlier = config::all_keys(config::all_channels(rest));
        let own = config::all_keys(last.channels@);
        known_keys_are_listed(rest, id);
        model_keys_are_listed(last.channels@, id);
        keys_of_sum(config::all_channels(rest), last.channels@);
        keys_in_sum(earlier, own, id);
        if known_key(models, id) {
            let m = choose|m: int| 0 <= m < models.len() && model_has_key(#[trigger] models[m], id);
            if m < rest.len() {
                assert(model_has_key(rest[m], id));
            }
        }
        if known_key(rest, id) {
            let m = choose|m: int| 0 <= m < rest.len() && model_has_key(#[trigger] rest[m], id);
            assert(model_has_key(models[m], id));
        }
        if model_has_key(last, id) {
            assert(model_has_key(models[models.len() - 1], id));
        }
    }
}

/// Some channel among several has a key with an identifier.
spec fn channels_have_key(s: Seq<Channel>, id: Seq<char>) -> bool {
    exists|c: int| 0 <= c < s.len() && config::has_key((#[trigger] s[c]).keys@, id)
}

proof fn keys_in_sum(a: Seq<Key>, b: Seq<Key>, id: Seq<char>)
    ensures
        config::has_key(a + b, id) <==> config::has_key(a, id) || config::has_key(b, id),
{
    if config::has_key(a, id) {
        let i = choose|i: int| 0 <= i < a.len() && (#[trigger] a[i]).id@ == id;
        assert((a + b)[i].id@ == id);
    }
    if config::has_key(b, id) {
        let i = choose|i: int| 0 <= i < b.len() && (#[trigger] b[i]).id@ == id;
        assert((a + b)[a.len() + i].id@ == id);
    }
    if config::has_key(a + b, id) {
        let i = choose|i: int| 0 <= i < (a + b).len() && (#[trigger] (a + b)[i]).id@ == id;
        if i < a.len() {
            assert(a[i].id@ == id);
        } else {
            assert(b[i - a.len()].id@ == id);
        }
    }
}

proof fn model_keys_are_listed(s: Seq<Channel>, id: Seq<char>)
    ensures
        channels_have_key(s, id) <==> config::has_key(config::all_keys(s), id),
    decreases s.len(),
{
    if s.len() > 0 {
        let t = s.drop_last();
        model_keys_are_listed(t, id);
        keys_in_sum(config::all_keys(t), s.last().keys@, id);
        if channels_have_key(s, id) {
            let c = choose|c: int| 0 <= c < s.len() && config::has_key((#[trigger] s[c]).keys@, id);
            if c < t.len() {
                assert(config::has_key(t[c].keys@, id));
            }
        }
        if channels_have_key(t, id) {
            let c = choose|c: int| 0 <= c < t.len() && config::has_key((#[trigger] t[c]).keys@, id);
            assert(config::has_key(s[c].keys@, id));
        }
        if config::has_key(s.last().keys@, id) {
            assert(config::has_key(s[s.len() - 1].keys@, id));
        }
    }
}

proof fn same_pairs_know_the_same_keys(c: Config, d: Config, id: Seq<char>)
    requires
        same_pairs(key_identities(c.models@), key_identities(d.models@)),
    ensures
        known_key(c.models@, id) ==> known_key(d.models@, id),
{
    known_keys_are_listed(c.models@, id);
    known_keys_are_listed(d.models@, id);
    models_list_keys(c.models@);
    models_list_keys(d.models@);
    if known_key(c.models@, id) {
        let a = config::all_keys(config::all_channels(c.models@));
        let b = config::all_keys(config::all_channels(d.models@));
        let s = key_identities(c.models@);
        let t = key_identities(d.models@);
        let i = choose|i: int| 0 <= i < a.len() && (#[trigger] a[i]).id@ == id;
        assert(s[i].0 == id);
        assert(s.contains(s[i]));
        assert(t.contains(s[i]));
        let k = choose|k: int| 0 <= k < t.len() && t[k] == s[i];
        assert(b[k].id@ == id);
    }
}

proof fn same_pairs_know_the_same_monitors(c: Config, d: Config, id: Seq<char>)
    requires
        same_pairs(monitor_identities(c.monitors@), monitor_identities(d.monitors@)),
    ensures
        config::has_monitor(c.monitors@, id) ==> config::has_monitor(d.monitors@, id),
{
    if config::has_monitor(c.monitors@, id) {
        let s = monitor_identities(c.monitors@);
        let t = monitor_identities(d.monitors@);
        let i = choose|i: int| 0 <= i < c.monitors@.len() && (#[trigger] c.monitors@[i]).id@ == id;
        assert(s.contains(s[i]));
        assert(t.contains(s[i]));
        let k = choose|k: int| 0 <= k < t.len() && t[k] == s[i];
        assert(d.monitors@[k].id@ == id);
    }
}

/// A state is under a configuration: it holds the identities of its keys and monitors, and the states of
/// no others.
pub open spec fn under(s: State, c: Config) -> bool {
    &&& text_views(s.identities@) == by_id(key_identities(c.models@))
    &&& text_views(s.monitor_identities@) == by_id(monitor_identities(c.monitors@))
    &&& forall|id: Seq<char>| #[trigger] s.keys@.contains_key(id) ==> known_key(c.models@, id)
    &&& forall|id: Seq<char>| #[trigger]
        s.quality@.contains_key(id) ==> config::has_monitor(c.monitors@, id)
}

/// Reconciling brings a state under the configuration, and notes the configuration's digest.
pub proof fn reconciled_states_are_under(after: State, before: State, c: Config)
    requires
        after.reconciled_from(before, c),
    ensures
        under(after, c),
        after.config_digest@ == config::fingerprint_of(config::config_document(c)),
{
    let matched = choose|matched: State| #[trigger]
        matched.matched_from(before, c) && after.pruned_from(matched, c) && after == (State {
            keys: after.keys,
            quality: after.quality,
            last_used: after.last_used,
            round_robin: after.round_robin,
            sticky_routes: after.sticky_routes,
            events: after.events,
            notices: after.notices,
            ..matched
        });
    assert forall|id: Seq<char>| #[trigger] after.quality@.contains_key(id) implies
        config::has_monitor(c.monitors@, id) by {
        pruned_states_are_configured(after, matched, c, id);
    }
}

/// Reconciling with changes in display names, order, switches, listener, password or webhook keeps the
/// health of every key, and the quality of every upstream but for verdicts beyond those that are kept.
pub proof fn reconciling_keeps_what_is_the_same(
    before: State,
    after: State,
    c: Config,
    d: Config,
    listens: bool,
)
    requires
        c.complaint(listens) is None,
        under(before, c),
        same_pairs(key_identities(c.models@), key_identities(d.models@)),
        same_pairs(monitor_identities(c.monitors@), monitor_identities(d.monitors@)),
        after.reconciled_from(before, d),
    ensures
        after.keys@ == before.keys@,
        quality_views(after.quality@) == quality_views(before.quality@).map_values(
            |q: QualityView| q.trimmed(),
        ),
{
    let matched = choose|matched: State| #[trigger]
        matched.matched_from(before, d) && after.pruned_from(matched, d) && after == (State {
            keys: after.keys,
            quality: after.quality,
            last_used: after.last_used,
            round_robin: after.round_robin,
            sticky_routes: after.sticky_routes,
            events: after.events,
            notices: after.notices,
            ..matched
        });
    same_identities_keep_all(before, matched, c, d, listens);
    assert forall|id: Seq<char>| #[trigger] before.keys@.contains_key(id) implies known_key(
        d.models@,
        id,
    ) by {
        same_pairs_know_the_same_keys(c, d, id);
    }
    assert(after.keys@ =~= before.keys@);
    let q = quality_views(before.quality@);
    assert forall|id: Seq<char>| #[trigger] q.contains_key(id) implies config::has_monitor(
        d.monitors@,
        id,
    ) by {
        assert(before.quality@.contains_key(id));
        same_pairs_know_the_same_monitors(c, d, id);
    }
    assert(quality_views(after.quality@) =~= q.map_values(|q: QualityView| q.trimmed()));
}

/// The health of a key is kept exactly where its identity is the one that was noted: a key whose
/// identity changed starts anew, and no other is touched by that.
pub proof fn keys_are_kept_by_identity(
    before: State,
    after: State,
    c: Config,
    listens: bool,
    id: Seq<char>,
    identity: Seq<char>,
)
    requires
        c.complaint(listens) is None,
        !before.legacy(c),
        after.matched_from(before, c),
        key_identities(c.models@).contains((id, identity)),
    ensures
        after.keys@.contains_key(id) <==> before.keys@.contains_key(id)
            && before.identities@.contains_key(id) && before.identities@[id]@ == identity,
        after.keys@.contains_key(id) ==> after.keys@[id] == before.keys@[id],
{
    accepted_identities_are_distinct(c, listens);
    let s = key_identities(c.models@);
    let was = text_views(before.identities@);
    let k = choose|k: int| 0 <= k < s.len() && s[k] == (id, identity);
    assert(s[k].0 == id);
    assert(replaced(s, was, id) == !(was.contains_key(id) && was[id] == identity)) by {
        if replaced(s, was, id) {
            let i = choose|i: int|
                0 <= i < s.len() && (#[trigger] s[i]).0 == id && !(was.contains_key(id)
                    && was[id] == s[i].1);
            if i < k {
                assert(s[i].0 != s[k].0);
            } else if k < i {
                assert(s[k].0 != s[i].0);
            }
        }
    }
}

/// Two channels differ at most in how they are shown and switched.
pub open spec fn channel_alike(a: Channel, b: Channel) -> bool {
    &&& a.base_url@ == b.base_url@
    &&& a.upstream_model@ == b.upstream_model@
    &&& a.adapter == b.adapter
    &&& a.keys@.len() == b.keys@.len()
    &&& forall|k: int|
        0 <= k < a.keys@.len() ==> (#[trigger] a.keys@[k]).id@ == b.keys@[k].id@
            && a.keys@[k].secret@ == b.keys@[k].secret@
}

/// Channels differ at most in how they are shown and switched.
pub open spec fn channels_alike(a: Seq<Channel>, b: Seq<Channel>) -> bool {
    a.len() == b.len() && forall|c: int|
        0 <= c < a.len() ==> channel_alike(#[trigger] a[c], b[c])
}

/// Models differ at most in how their channels and keys are shown and switched.
pub open spec fn models_alike(a: Seq<Model>, b: Seq<Model>) -> bool {
    a.len() == b.len() && forall|m: int|
        0 <= m < a.len() ==> (#[trigger] a[m]).id@ == b[m].id@ && channels_alike(
            a[m].channels@,
            b[m].channels@,
        )
}

proof fn channels_alike_are_identical(model: Seq<char>, a: Seq<Channel>, b: Seq<Channel>)
    requires
        channels_alike(a, b),
    ensures
        channels_identities(model, a) == channels_identities(model, b),
    decreases a.len(),
{
    if a.len() > 0 {
        assert(channel_alike(a[a.len() - 1], b[b.len() - 1]));
        assert(channel_identities(model, a.last()) =~= channel_identities(model, b.last()));
        assert forall|c: int| 0 <= c < a.drop_last().len() implies channel_alike(
            #[trigger] a.drop_last()[c],
            b.drop_last()[c],
        ) by {
            assert(channel_alike(a[c], b[c]));
        }
        channels_alike_are_identical(model, a.drop_last(), b.drop_last());
    }
}

/// Names, labels, switches and monitors of channels and keys are no part of what keys are told by.
pub proof fn display_is_no_identity(a: Seq<Model>, b: Seq<Model>)
    requires
        models_alike(a, b),
    ensures
        key_identities(a) == key_identities(b),
        same_pairs(key_identities(a), key_identities(b)),
    decreases a.len(),
{
    if a.len() > 0 {
        let i = a.len() - 1;
        assert(a[i].id@ == b[i].id@);
        channels_alike_are_identical(a[i].id@, a[i].channels@, b[i].channels@);
        assert forall|m: int| 0 <= m < a.drop_last().len() implies (
        #[trigger] a.drop_last()[m]).id@ == b.drop_last()[m].id@ && channels_alike(
            a.drop_last()[m].channels@,
            b.drop_last()[m].channels@,
        ) by {
            assert(a[m].id@ == b[m].id@);
        }
        display_is_no_identity(a.drop_last(), b.drop_last());
    }
}

/// A key whose address, upstream model, secret or quota interface changed starts anew, where SHA-256 does
/// not collide on what it was told by and what it is told by now.
pub proof fn changed_keys_start_anew(
    before: State,
    after: State,
    d: Config,
    listens: bool,
    was: (Channel, Seq<char>, Key),
    is: (Channel, Seq<char>, Key),
    id: Seq<char>,
)
    requires
        d.complaint(listens) is None,
        !before.legacy(d),
        before.identities@.contains_key(id),
        before.identities@[id]@ == was.0.identity_of(was.1, was.2),
        key_identities(d.models@).contains((id, is.0.identity_of(is.1, is.2))),
        after.matched_from(before, d),
        was.0.base_url@ != is.0.base_url@ || was.0.upstream_model@ != is.0.upstream_model@
            || was.2.secret@ != is.2.secret@ || Adapter::official(was.1, was.0.adapter)
            != Adapter::official(is.1, is.0.adapter),
    ensures
        config::collision_free(
            config::digested(was.0, was.1, was.2),
            config::digested(is.0, is.1, is.2),
        ) ==> !after.keys@.contains_key(id),
{
    config::identities_tell_apart(was.0, is.0, was.1, is.1, was.2, is.2);
    keys_are_kept_by_identity(before, after, d, listens, id, is.0.identity_of(is.1, is.2));
}

/// A pair is that of a key at a place.
pub open spec fn pair_of(models: Seq<Model>, m: int, c: int, k: int) -> (Seq<char>, Seq<char>) {
    let channel = models[m].channels@[c];
    (channel.keys@[k].id@, channel.identity_of(models[m].id@, channel.keys@[k]))
}

/// A key is at a place.
pub open spec fn at_place(models: Seq<Model>, m: int, c: int, k: int) -> bool {
    0 <= m < models.len() && 0 <= c < models[m].channels@.len() && 0 <= k
        < models[m].channels@[c].keys@.len()
}

proof fn pair_in_sum(
    a: Seq<(Seq<char>, Seq<char>)>,
    b: Seq<(Seq<char>, Seq<char>)>,
    p: (Seq<char>, Seq<char>),
)
    ensures
        (a + b).contains(p) <==> a.contains(p) || b.contains(p),
{
    if a.contains(p) {
        let i = choose|i: int| 0 <= i < a.len() && a[i] == p;
        assert((a + b)[i] == p);
    }
    if b.contains(p) {
        let i = choose|i: int| 0 <= i < b.len() && b[i] == p;
        assert((a + b)[a.len() + i] == p);
    }
    if (a + b).contains(p) {
        let i = choose|i: int| 0 <= i < (a + b).len() && (a + b)[i] == p;
        if i < a.len() {
            assert(a[i] == p);
        } else {
            assert(b[i - a.len()] == p);
        }
    }
}

proof fn channel_pairs(models: Seq<Model>, m: int, n: int, p: (Seq<char>, Seq<char>))
    requires
        0 <= m < models.len(),
        0 <= n <= models[m].channels@.len(),
    ensures
        channels_identities(models[m].id@, models[m].channels@.take(n)).contains(p) <==> exists|
            c: int,
            k: int,
        |
            c < n && at_place(models, m, c, k) && #[trigger] pair_of(models, m, c, k) == p,
    decreases n,
{
    let id = models[m].id@;
    let s = models[m].channels@;
    if n == 0 {
        assert(channels_identities(id, s.take(0)) =~= Seq::empty());
    } else {
        channel_pairs(models, m, n - 1, p);
        assert(s.take(n).drop_last() =~= s.take(n - 1));
        let own = channel_identities(id, s[n - 1]);
        pair_in_sum(channels_identities(id, s.take(n - 1)), own, p);
        if own.contains(p) {
            let k = choose|k: int| 0 <= k < own.len() && own[k] == p;
            assert(at_place(models, m, n - 1, k) && pair_of(models, m, n - 1, k) == p);
        }
        if exists|c: int, k: int|
            c < n && at_place(models, m, c, k) && #[trigger] pair_of(models, m, c, k) == p {
            let (c, k) = choose|c: int, k: int|
                c < n && at_place(models, m, c, k) && #[trigger] pair_of(models, m, c, k) == p;
            if c == n - 1 {
                assert(own[k] == p);
            }
        }
    }
}

proof fn model_pairs(models: Seq<Model>, n: int, p: (Seq<char>, Seq<char>))
    requires
        0 <= n <= models.len(),
    ensures
        key_identities(models.take(n)).contains(p) <==> exists|m: int, c: int, k: int|
            m < n && at_place(models, m, c, k) && #[trigger] pair_of(models, m, c, k) == p,
    decreases n,
{
    if n == 0 {
        assert(key_identities(models.take(0)) =~= Seq::empty());
    } else {
        model_pairs(models, n - 1, p);
        assert(models.take(n).drop_last() =~= models.take(n - 1));
        let s = models[n - 1].channels@;
        assert(s.take(s.len() as int) =~= s);
        channel_pairs(models, n - 1, s.len() as int, p);
        let own = channels_identities(models[n - 1].id@, s);
        pair_in_sum(key_identities(models.take(n - 1)), own, p);
        if own.contains(p) {
            let (c, k) = choose|c: int, k: int|
                c < s.len() && at_place(models, n - 1, c, k) && #[trigger] pair_of(
                    models,
                    n - 1,
                    c,
                    k,
                ) == p;
            assert(at_place(models, n - 1, c, k) && pair_of(models, n - 1, c, k) == p);
        }
        if exists|m: int, c: int, k: int|
            m < n && at_place(models, m, c, k) && #[trigger] pair_of(models, m, c, k) == p {
            let (m, c, k) = choose|m: int, c: int, k: int|
                m < n && at_place(models, m, c, k) && #[trigger] pair_of(models, m, c, k) == p;
            if m == n - 1 {
                assert(c < s.len() && at_place(models, n - 1, c, k));
            }
        }
    }
}

/// Some key of one list of models stands in another, wherever it stands there: with its identifier and
/// what it is told by.
pub open spec fn stands_in(a: Seq<Model>, b: Seq<Model>, m: int, c: int, k: int) -> bool {
    exists|x: int, y: int, z: int|
        at_place(b, x, y, z) && #[trigger] pair_of(b, x, y, z) == pair_of(a, m, c, k)
}

proof fn pair_passes(a: Seq<Model>, b: Seq<Model>, p: (Seq<char>, Seq<char>))
    requires
        forall|m: int, c: int, k: int| #[trigger] at_place(a, m, c, k) ==> stands_in(a, b, m, c, k),
        key_identities(a).contains(p),
    ensures
        key_identities(b).contains(p),
{
    assert(a.take(a.len() as int) =~= a);
    assert(b.take(b.len() as int) =~= b);
    model_pairs(a, a.len() as int, p);
    model_pairs(b, b.len() as int, p);
    let (m, c, k) = choose|m: int, c: int, k: int|
        m < a.len() && at_place(a, m, c, k) && #[trigger] pair_of(a, m, c, k) == p;
    assert(at_place(a, m, c, k));
    assert(stands_in(a, b, m, c, k));
    let (x, y, z) = choose|x: int, y: int, z: int|
        at_place(b, x, y, z) && #[trigger] pair_of(b, x, y, z) == pair_of(a, m, c, k);
    assert(x < b.len() && at_place(b, x, y, z) && pair_of(b, x, y, z) == p);
}

/// The order of models, channels and keys is no part of what keys are told by: two lists that hold the
/// same keys hold the same pairs.
pub proof fn order_is_no_identity(a: Seq<Model>, b: Seq<Model>)
    requires
        forall|m: int, c: int, k: int| #[trigger] at_place(a, m, c, k) ==> stands_in(a, b, m, c, k),
        forall|m: int, c: int, k: int| #[trigger] at_place(b, m, c, k) ==> stands_in(b, a, m, c, k),
    ensures
        same_pairs(key_identities(a), key_identities(b)),
{
    assert forall|p: (Seq<char>, Seq<char>)| #[trigger] key_identities(a).contains(p)
        <==> key_identities(b).contains(p) by {
        if key_identities(a).contains(p) {
            pair_passes(a, b, p);
        }
        if key_identities(b).contains(p) {
            pair_passes(b, a, p);
        }
    }
}

/// A key may serve exactly where it is neither suspected nor failed, its credential was not refused,
/// its probes are not used up, no cooldown and no pause runs, and its allowance, where one is known,
/// is neither exhausted nor at its end. Nothing else about it plays a part.
pub proof fn faults_alone_keep_keys_out(s: KeyView, now: int)
    ensures
        s.suspect ==> !s.eligible(now),
        s.probe_exhausted ==> !s.eligible(now),
        s.service_failed ==> !s.eligible(now),
        s.credential_failed ==> !s.eligible(now),
        s.cooldown_until > now ==> !s.eligible(now),
        s.retry_at > now ==> !s.eligible(now),
        s.allowance is Some && (s.allowance->0).exhausted ==> !s.eligible(now),
        s.allowance is Some && (s.allowance->0).expires_at is Some && (
        s.allowance->0).expires_at->0 <= now ==> !s.eligible(now),
        !s.suspect && !s.probe_exhausted && !s.service_failed && !s.credential_failed
            && s.cooldown_until <= now && s.retry_at <= now && (s.allowance is None || !(
        s.allowance->0).exhausted && ((s.allowance->0).expires_at is None || (
        s.allowance->0).expires_at->0 > now)) ==> s.eligible(now),
{
}

/// Two keys with the same faults may serve alike, whatever else is known of them.
pub proof fn other_knowledge_plays_no_part(s: KeyView, t: KeyView, now: int)
    requires
        s.suspect == t.suspect,
        s.probe_exhausted == t.probe_exhausted,
        s.service_failed == t.service_failed,
        s.credential_failed == t.credential_failed,
        s.cooldown_until == t.cooldown_until,
        s.retry_at == t.retry_at,
        s.allowance == t.allowance,
    ensures
        s.eligible(now) == t.eligible(now),
{
}

/// A key of which nothing is known may serve.
pub proof fn unknown_keys_may_serve(s: State, id: Seq<char>, now: int)
    ensures
        0 <= now ==> KeyView::blank().eligible(now),
        !s.keys@.contains_key(id) ==> s.key_ready(id, now),
        s.keys@.contains_key(id) ==> s.key_ready(id, now) == s.keys@[id]@.eligible(now),
{
}

/// A monitor vouches for a channel while its last definite verdict is healthy and holds; an unknown
/// monitor vouches for nothing.
pub proof fn monitors_vouch_for_a_while(s: State, id: Seq<char>, now: int)
    ensures
        s.monitor_ready(id, now) <==> s.quality@.contains_key(id)
            && s.quality@[id].last_definite@ == "healthy"@ && now < s.quality@[id].valid_until,
{
}

/// A channel may serve exactly where it is switched on, its monitor, where it has one, vouches for it,
/// and some key of it is switched on and unknown or eligible.
pub proof fn channels_serve_by_their_keys(s: State, c: Channel, now: int)
    ensures
        s.ready(c, now) <==> {
            &&& c.enabled
            &&& c.monitor_id is None || s.quality@.contains_key(c.monitor_id->0@)
                && s.quality@[c.monitor_id->0@].last_definite@ == "healthy"@ && now
                < s.quality@[c.monitor_id->0@].valid_until
            &&& exists|i: int|
                0 <= i < c.keys@.len() && (#[trigger] c.keys@[i]).enabled && (
                !s.keys@.contains_key(c.keys@[i].id@) || s.keys@[c.keys@[i].id@]@.eligible(now))
        },
{
}

/// A first sign of failure puts a key under suspicion for five seconds and counts no failure. Another
/// sign within ten minutes of the last incident is a failure; one later is a first sign again.
pub proof fn second_signs_are_failures(s: KeyView, now: i64)
    requires
        !s.suspect,
        !s.service_failed,
        s.suspicion_fits(now),
    ensures
        ({
            let t = s.suspected(now);
            let again = s.last_incident is Some && now < s.last_incident->0 + 600;
            &&& again ==> t.service_failed && !t.suspect && t.retry_at == now + 60
                && t.last_incident == s.last_incident
            &&& !again ==> !t.service_failed && t.suspect && t.retry_at == now + 5
                && t.last_incident == Some(now) && t.failure_cycles == s.failure_cycles
                && t.cooldown_until == s.cooldown_until
            &&& t.revision == s.revision + 1
            &&& t.credential_failed == s.credential_failed
            &&& t.allowance == s.allowance
        }),
{
}

/// Each failure starts the probes anew, a minute later, and says nothing of credentials or quotas.
pub proof fn failures_start_probing(s: KeyView, now: i64)
    requires
        !s.service_failed,
        s.failure_fits(now),
    ensures
        ({
            let t = s.failed(now);
            &&& t.service_failed && !t.suspect && !t.probe_exhausted
            &&& t.retry_at == now + 60
            &&& t.probe_step == 0 && t.probe_attempts == 0 && t.recovery_successes == 0
            &&& t.revision == s.revision + 1
            &&& t.credential_failed == s.credential_failed
            &&& t.request_exhausted == s.request_exhausted
            &&& t.allowance == s.allowance
            &&& t.last_incident == s.last_incident
        }),
{
}

proof fn all_recent(s: Seq<i64>, now: int)
    requires
        forall|i: int| 0 <= i < s.len() ==> now - #[trigger] s[i] < 600,
    ensures
        recent_cycles(s, now) == s,
    decreases s.len(),
{
    if s.len() > 0 {
        let rest = s.drop_last();
        assert(forall|i: int| 0 <= i < rest.len() ==> #[trigger] rest[i] == s[i]);
        all_recent(rest, now);
        assert(now - s[s.len() - 1] < 600);
        assert(rest.push(s.last()) =~= s);
    } else {
        assert(s =~= Seq::empty());
    }
}

proof fn none_recent(s: Seq<i64>, now: int)
    requires
        forall|i: int| 0 <= i < s.len() ==> now - #[trigger] s[i] >= 600,
    ensures
        recent_cycles(s, now).len() == 0,
    decreases s.len(),
{
    if s.len() > 0 {
        let rest = s.drop_last();
        assert(forall|i: int| 0 <= i < rest.len() ==> #[trigger] rest[i] == s[i]);
        none_recent(rest, now);
        assert(now - s[s.len() - 1] >= 600);
    }
}

/// Failures within ten minutes add up to longer cooldowns: the second costs ten minutes, the third
/// twenty, the fourth forty, every later one an hour. A failure with none in the ten minutes before it
/// costs no cooldown of its own.
pub proof fn repeated_failures_cool_down(s: KeyView, now: i64)
    requires
        !s.service_failed,
        s.failure_fits(now),
    ensures
        (forall|i: int| 0 <= i < s.failure_cycles.len() ==> now - #[trigger] s.failure_cycles[i]
            >= 600) ==> s.failed(now).cooldown_until == s.cooldown_until && s.failed(
            now,
        ).failure_cycles == seq![now],
        (forall|i: int| 0 <= i < s.failure_cycles.len() ==> now - #[trigger] s.failure_cycles[i]
            < 600) ==> ({
            let n = s.failure_cycles.len();
            let t = s.failed(now);
            &&& n == 0 ==> t.cooldown_until == s.cooldown_until
            &&& n == 1 ==> t.cooldown_until == now + 600
            &&& n == 2 ==> t.cooldown_until == now + 1200
            &&& n == 3 ==> t.cooldown_until == now + 2400
            &&& n >= 4 ==> t.cooldown_until == now + 3600
        }),
{
    let c = s.failure_cycles;
    if forall|i: int| 0 <= i < c.len() ==> now - #[trigger] c[i] >= 600 {
        none_recent(c, now as int);
        assert(recent_cycles(c, now as int) =~= Seq::empty());
        assert(recent_cycles(c, now as int).push(now) =~= seq![now]);
    }
    if forall|i: int| 0 <= i < c.len() ==> now - #[trigger] c[i] < 600 {
        all_recent(c, now as int);
    }
}

/// A probe with an answer counts where none counted yet, or a minute after the last that did. With the
/// second that counts, and no cooldown running, the key is back: nothing of the failure is left but
/// its memory.
pub proof fn answers_bring_keys_back(s: KeyView, now: i64)
    requires
        s.service_failed,
        s.probe_fits(now, true),
    ensures
        ({
            let t = s.probed(now, true);
            let counts = s.recovery_successes == 0 || now - s.last_recovery_success >= 60;
            let n = s.recovery_successes + if counts {
                1int
            } else {
                0int
            };
            &&& t.recovery_successes == n
            &&& t.last_recovery_success == if counts {
                now
            } else {
                s.last_recovery_success
            }
            &&& n >= 2 && s.cooldown_until <= now <==> !t.service_failed
            &&& !t.service_failed ==> t.retry_at == 0 && !t.probe_exhausted && t.probe_attempts == 0
                && t.probe_step == 0 && t.reason.len() == 0
            &&& t.service_failed && s.probe_attempts < 11 ==> t.retry_at == now + 60
                && t.probe_attempts == s.probe_attempts + 1 && t.probe_exhausted
                == s.probe_exhausted
            &&& t.service_failed && s.probe_attempts >= 11 ==> t.probe_exhausted && t.retry_at == 0
            &&& t.failure_cycles == s.failure_cycles
            &&& t.cooldown_until == s.cooldown_until
            &&& t.credential_failed == s.credential_failed && t.suspect == s.suspect
            &&& t.allowance == s.allowance
            &&& t.revision == s.revision + 1
        }),
{
}

/// A probe without an answer forgets the answers before it, waits a minute longer than the last, up to
/// five, and is the last where it is the twelfth.
pub proof fn silence_takes_answers_back(s: KeyView, now: i64)
    requires
        s.probe_fits(now, false),
    ensures
        ({
            let t = s.probed(now, false);
            &&& t.recovery_successes == 0
            &&& t.service_failed == s.service_failed
            &&& t.failure_cycles == s.failure_cycles
            &&& t.cooldown_until == s.cooldown_until
            &&& t.credential_failed == s.credential_failed && t.suspect == s.suspect
            &&& t.allowance == s.allowance
            &&& t.revision == s.revision + 1
            &&& s.probe_attempts < 11 ==> t.probe_exhausted == s.probe_exhausted && t.probe_attempts
                == s.probe_attempts + 1
            &&& s.probe_attempts < 11 && s.probe_step == 0 ==> t.retry_at == now + 120
            &&& s.probe_attempts < 11 && s.probe_step == 1 ==> t.retry_at == now + 180
            &&& s.probe_attempts < 11 && s.probe_step == 2 ==> t.retry_at == now + 240
            &&& s.probe_attempts < 11 && s.probe_step >= 3 ==> t.retry_at == now + 300
            &&& s.probe_attempts >= 11 ==> t.probe_exhausted && t.retry_at == 0
        }),
{
}

/// A suspicion that a check does not lift becomes a failure with the second such check, a minute or
/// more after the incident began; until that the key is checked again after five seconds.
pub proof fn suspicions_become_failures(s: KeyView, now: i64)
    requires
        s.failure_fits(now),
        now + 5 <= i64::MAX,
        !s.service_failed,
    ensures
        ({
            let t = s.unconfirmed(now);
            let long = s.last_incident is None || now >= s.last_incident->0 + 60;
            &&& s.probe_attempts >= 1 && long <==> t.service_failed
            &&& t.service_failed ==> !t.suspect && t.retry_at == now + 60 && t.probe_attempts == 0
            &&& !t.service_failed ==> t.suspect == s.suspect && t.retry_at == now + 5
                && t.last_incident == s.last_incident && t.failure_cycles == s.failure_cycles
            &&& !t.service_failed && s.probe_attempts < u32::MAX ==> t.probe_attempts
                == s.probe_attempts + 1
            &&& t.revision == s.revision + 1
        }),
{
}

/// The log keeps what came last, in order: an event goes to its end, and only a full log loses its
/// first. A message is kept whole up to a thousand characters.
pub proof fn logs_keep_the_last(s: Seq<EventView>, now: i64, kind: Seq<char>, message: Seq<char>)
    ensures
        ({
            let t = with_event(s, now, kind, message);
            &&& t.last().at == now && t.last().kind == kind
            &&& message.len() <= 1000 ==> t.last().message == message
            &&& message.len() > 1000 ==> t.last().message == message.take(1000)
            &&& s.len() < 200 ==> t.drop_last() == s
            &&& s.len() == 200 ==> t.drop_last() == s.skip(1)
            &&& s.len() >= 200 ==> t.len() == 200
        }),
{
    let t = with_event(s, now, kind, message);
    assert(t.drop_last() =~= last_of(s, 199));
}

/// Notices wait in order, and only a full queue loses its first. A new notice was never tried and may
/// be at once.
pub proof fn queues_keep_the_last(s: Seq<NoticeView>, id: Seq<char>, message: Seq<char>)
    ensures
        ({
            let t = with_notice(s, id, message);
            &&& t.last().id == id && t.last().message == message && t.last().card is None
            &&& t.last().attempts == 0 && t.last().next_at == 0
            &&& s.len() < 200 ==> t.drop_last() == s
            &&& s.len() >= 200 ==> t.drop_last() == s.skip(1)
        }),
{
    let t = with_notice(s, id, message);
    assert(t.drop_last() =~= if s.len() >= 200 {
        s.skip(1)
    } else {
        s
    });
}

/// A model without a present channel, or whose present channel is not its own, is tried in the order
/// of the configuration, and nothing is noted.
pub proof fn models_without_a_channel_go_in_order(s: State, model: Model, now: i64)
    requires
        !s.sticky_routes@.contains_key(model.id@) || forall|i: int|
            0 <= i < model.channels@.len() ==> (#[trigger] model.channels@[i]).id@
                != s.sticky_routes@[model.id@].channel_id@,
    ensures
        s.order(model, now).len() == model.channels@.len(),
        forall|i: int|
            0 <= i < model.channels@.len() ==> #[trigger] s.order(model, now)[i] == i,
        s.routes_after(model, now) == sticky_views(s.sticky_routes@),
{
    assert(model.channels.len() == model.channels@.len());
    if s.sticky_routes@.contains_key(model.id@) {
        index_bound(model.channels@, s.sticky_routes@[model.id@].channel_id@);
    }
}

/// The first channel with the present one's identifier is the present one.
pub proof fn present_channels_are_found(s: State, model: Model, i: int)
    requires
        s.sticky_routes@.contains_key(model.id@),
        0 <= i < model.channels@.len(),
        model.channels@[i].id@ == s.sticky_routes@[model.id@].channel_id@,
        forall|j: int|
            0 <= j < i ==> (#[trigger] model.channels@[j]).id@
                != s.sticky_routes@[model.id@].channel_id@,
    ensures
        s.keeps_to(model),
        s.active(model) == i,
{
    first_index(model.channels@, s.sticky_routes@[model.id@].channel_id@, i);
}

proof fn first_index(s: Seq<Channel>, id: Seq<char>, i: int)
    requires
        0 <= i < s.len(),
        s[i].id@ == id,
        forall|j: int| 0 <= j < i ==> (#[trigger] s[j]).id@ != id,
    ensures
        channel_index(s, id) == i,
    decreases s.len(),
{
    let rest = s.drop_last();
    assert(forall|j: int| 0 <= j < rest.len() ==> #[trigger] rest[j] == s[j]);
    if i < rest.len() {
        first_index(rest, id, i);
    } else {
        no_index(rest, id);
    }
}

proof fn no_index(s: Seq<Channel>, id: Seq<char>)
    requires
        forall|j: int| 0 <= j < s.len() ==> (#[trigger] s[j]).id@ != id,
    ensures
        channel_index(s, id) == s.len(),
    decreases s.len(),
{
    if s.len() > 0 {
        let rest = s.drop_last();
        assert(forall|j: int| 0 <= j < rest.len() ==> #[trigger] rest[j] == s[j]);
        no_index(rest, id);
        assert(s[s.len() - 1].id@ != id);
    }
}

/// Ten minutes after it was first seen ready again, and not a second earlier, a better channel ends
/// the wait: until that the present channel, while ready, stays first.
pub proof fn better_channels_wait_ten_minutes(s: State, model: Model, now: i64)
    requires
        config::distinct_channels(model.channels@),
        s.keeps_to(model),
        s.ready(model.channels@[s.active(model)], now as int),
        s.active(model) > 0,
    ensures
        ({
            let since = s.sticky_routes@[model.id@].recovered@;
            s.order(model, now)[0] == s.active(model) <==> forall|i: int|
                0 <= i < s.active(model) && s.ready(
                    #[trigger] model.channels@[i],
                    now as int,
                ) && since.contains_key(model.channels@[i].id@) ==> now
                    < since[model.channels@[i].id@] + 600
        }),
{
    let a = s.active(model);
    let channels = model.channels@;
    let ready = s.readiness(channels, now as int);
    let back = s.returned(model, now);
    let since = s.sticky_routes@[model.id@].recovered@;
    assert(model.channels.len() == channels.len());
    index_bound(channels, s.sticky_routes@[model.id@].channel_id@);
    assert forall|i: int| 0 <= i < a implies #[trigger] back_long(back, channels, ready, now, i) == (
    s.ready(channels[i], now as int) && since.contains_key(channels[i].id@) && now
        >= since[channels[i].id@] + 600) by {
        waits_run_from_the_first_sight(s, model, now, i);
    }
    if forall|i: int|
        0 <= i < a && s.ready(#[trigger] channels[i], now as int) && since.contains_key(
            channels[i].id@,
        ) ==> now < since[channels[i].id@] + 600 {
        assert(!settled(back, channels, ready, now, a)) by {
            if settled(back, channels, ready, now, a) {
                let i = choose|i: int| 0 <= i < a && #[trigger] back_long(back, channels, ready, now, i);
                assert(s.ready(channels[i], now as int));
            }
        }
        assert(s.order(model, now)[0] == a);
    } else {
        let i = choose|i: int|
            0 <= i < a && s.ready(#[trigger] channels[i], now as int) && since.contains_key(
                channels[i].id@,
            ) && !(now < since[channels[i].id@] + 600);
        assert(back_long(back, channels, ready, now, i));
        assert(settled(back, channels, ready, now, a));
        assert(s.order(model, now)[0] == 0);
    }
}

/// The place of a channel is that of the first with its identifier, or the end.
pub proof fn first_place(s: Seq<Channel>, id: Seq<char>, i: int)
    requires
        0 <= i <= s.len(),
        i < s.len() ==> s[i].id@ == id,
        forall|j: int| 0 <= j < i ==> (#[trigger] s[j]).id@ != id,
    ensures
        channel_index(s, id) == i,
{
    if i < s.len() {
        first_index(s, id, i);
    } else {
        no_index(s, id);
    }
}

/// What is configured stays when a state is pruned: the health of every configured key, the quality of
/// every configured monitor but for verdicts before the last seventy-two, the turns of every configured
/// channel, and the routes of a model to a channel that it has.
pub proof fn configured_parts_stay(
    s: State,
    before: State,
    c: Config,
    m: int,
    ch: int,
    k: int,
    w: int,
)
    requires
        s.pruned_from(before, c),
        0 <= m < c.models@.len(),
        0 <= ch < c.models@[m].channels@.len(),
        0 <= k < c.models@[m].channels@[ch].keys@.len(),
        0 <= w < c.monitors@.len(),
    ensures
        ({
            let model = c.models@[m].id@;
            let channel = c.models@[m].channels@[ch].id@;
            let key = c.models@[m].channels@[ch].keys@[k].id@;
            let watched = c.monitors@[w].id@;
            &&& s.keys@.contains_key(key) <==> before.keys@.contains_key(key)
            &&& s.keys@.contains_key(key) ==> s.keys@[key] == before.keys@[key]
            &&& s.quality@.contains_key(watched) <==> before.quality@.contains_key(watched)
            &&& s.quality@.contains_key(watched) ==> {
                let was = before.quality@[watched]@;
                let is = s.quality@[watched]@;
                &&& is == (QualityView { history: is.history, ..was })
                &&& was.history.len() <= 72 ==> is.history == was.history
                &&& was.history.len() > 72 ==> is.history == was.history.skip(
                    was.history.len() - 72,
                )
            }
            &&& s.round_robin@.contains_key(channel) <==> before.round_robin@.contains_key(channel)
            &&& s.round_robin@.contains_key(channel) ==> s.round_robin@[channel]
                == before.round_robin@[channel]
            &&& before.last_used@.contains_key(model) && before.last_used@[model]@ == channel
                ==> s.last_used@.contains_key(model) && s.last_used@[model]
                == before.last_used@[model]
            &&& before.sticky_routes@.contains_key(model)
                && before.sticky_routes@[model].channel_id@ == channel
                ==> s.sticky_routes@.contains_key(model) && s.sticky_routes@[model]
                == before.sticky_routes@[model]
        }),
        before.events@.len() <= 200 ==> s.events@ == before.events@,
        before.events@.len() > 200 ==> s.events@ == before.events@.take(200),
        before.notices@.len() <= 200 ==> s.notices@ == before.notices@,
        before.notices@.len() > 200 ==> s.notices@ == before.notices@.take(200),
{
    let model = c.models@[m];
    let channel = model.channels@[ch];
    let key = channel.keys@[k].id@;
    let watched = c.monitors@[w].id@;
    assert(config::has_key(channel.keys@, key));
    assert(model_has_key(model, key));
    assert(known_key(c.models@, key));
    assert(config::has_channel(model.channels@, channel.id@));
    assert(known_channel(c.models@, channel.id@));
    assert(known_route(c.models@, model.id@, channel.id@));
    assert(config::has_monitor(c.monitors@, watched));
    let q = quality_views(s.quality@);
    let r = quality_views(before.quality@);
    assert(q.contains_key(watched) <==> r.contains_key(watched));
    assert(q.contains_key(watched) <==> s.quality@.contains_key(watched));
    assert(r.contains_key(watched) <==> before.quality@.contains_key(watched));
    if q.contains_key(watched) {
        assert(q[watched] == r[watched].trimmed());
        assert(q[watched] == s.quality@[watched]@);
        assert(r[watched] == before.quality@[watched]@);
    }
}

/// A state that was kept before identities were noted loses nothing, as long as it was kept under the
/// same configuration.
pub proof fn states_without_identities_are_kept(before: State, after: State, c: Config)
    requires
        before.identities@.dom().len() == 0,
        before.config_digest@ == config::fingerprint_of(config::config_document(c)),
        after.matched_from(before, c),
    ensures
        after.keys@ == before.keys@,
        after.quality@ == before.quality@,
{
}

/// A failure changes what is known of the service and of its probes, and nothing else. A failure of a
/// key that failed already lifts a suspicion at most.
pub proof fn failures_are_of_the_service(s: KeyView, now: i64)
    requires
        s.failure_fits(now),
    ensures
        ({
            let t = s.failed(now);
            &&& t == (KeyView {
                suspect: t.suspect,
                service_failed: t.service_failed,
                revision: t.revision,
                failure_cycles: t.failure_cycles,
                cooldown_until: t.cooldown_until,
                recovery_successes: t.recovery_successes,
                probe_step: t.probe_step,
                probe_attempts: t.probe_attempts,
                probe_exhausted: t.probe_exhausted,
                retry_at: t.retry_at,
                ..s
            })
            &&& s.service_failed ==> !t.suspect && t.revision == s.revision + 1 && t == (KeyView {
                suspect: t.suspect,
                revision: t.revision,
                ..s
            })
        }),
{
}

/// A first sign changes nothing but the suspicion, the incident and the time of the next check. Signs
/// during an incident change nothing at all.
pub proof fn signs_only_raise_suspicion(s: KeyView, now: i64)
    requires
        s.suspicion_fits(now),
    ensures
        s.suspect || s.service_failed ==> s.suspected(now) == s,
        !s.suspect && !s.service_failed && !s.suspected(now).service_failed ==> s.suspected(now)
            == (KeyView {
            last_incident: s.suspected(now).last_incident,
            suspect: s.suspected(now).suspect,
            retry_at: s.suspected(now).retry_at,
            revision: s.suspected(now).revision,
            ..s
        }),
        !s.suspect && !s.service_failed && s.suspected(now).service_failed ==> s.suspected(now)
            == s.failed(now),
{
}

/// A probe changes what is known of the service and of its probes, and nothing else. What operators
/// read changes where the key is back, and where no other probe will be made.
pub proof fn probes_are_of_the_service(s: KeyView, now: i64, ok: bool)
    requires
        s.probe_fits(now, ok),
    ensures
        ({
            let t = s.probed(now, ok);
            &&& t == (KeyView {
                revision: t.revision,
                probe_attempts: t.probe_attempts,
                recovery_successes: t.recovery_successes,
                last_recovery_success: t.last_recovery_success,
                service_failed: t.service_failed,
                probe_exhausted: t.probe_exhausted,
                retry_at: t.retry_at,
                probe_step: t.probe_step,
                reason: t.reason,
                ..s
            })
            &&& !ok ==> t.last_recovery_success == s.last_recovery_success
            &&& ok && t.service_failed ==> t.probe_step == s.probe_step
            &&& !ok && s.probe_step < 3 ==> t.probe_step == s.probe_step + 1
            &&& !ok && s.probe_step >= 3 ==> t.probe_step == 4
            &&& (!ok || t.service_failed) && s.probe_attempts < 11 ==> t.reason == s.reason
            &&& (!ok || s.service_failed && t.service_failed) && s.probe_attempts >= 11 ==> t.reason
                == "连续恢复探测预算已耗尽，等待手动验证或修改配置"@
        }),
{
}

/// A check that does not lift a suspicion changes what is known of the service and of its probes, and
/// nothing else.
pub proof fn doubts_are_of_the_service(s: KeyView, now: i64)
    requires
        s.failure_fits(now),
        now + 5 <= i64::MAX,
        !s.service_failed,
    ensures
        ({
            let t = s.unconfirmed(now);
            &&& !t.service_failed ==> t == (KeyView {
                probe_attempts: t.probe_attempts,
                retry_at: t.retry_at,
                revision: t.revision,
                ..s
            })
            &&& t.service_failed ==> t.failure_cycles == s.failed(now).failure_cycles
                && t.cooldown_until == s.failed(now).cooldown_until && t.last_incident
                == s.last_incident && t.reason == s.reason && t.allowance == s.allowance
                && t.credential_failed == s.credential_failed
        }),
{
}

/// Failures of the last ten minutes are remembered in order, the new one last, and no more than eight.
pub proof fn failures_are_remembered(s: KeyView, now: i64)
    requires
        !s.service_failed,
        s.failure_fits(now),
        forall|i: int| 0 <= i < s.failure_cycles.len() ==> now - #[trigger] s.failure_cycles[i] < 600,
    ensures
        s.failure_cycles.len() < 8 ==> s.failed(now).failure_cycles == s.failure_cycles.push(now),
        s.failure_cycles.len() >= 8 ==> s.failed(now).failure_cycles == s.failure_cycles.skip(
            s.failure_cycles.len() - 7,
        ).push(now),
{
    all_recent(s.failure_cycles, now as int);
    let n = s.failure_cycles.len();
    if n >= 8 {
        assert(s.failure_cycles.push(now).skip(n + 1 - 8) =~= s.failure_cycles.skip(n - 7).push(now));
    }
}

/// Whichever channel comes first, the others follow in the order of the configuration.
pub proof fn other_channels_keep_their_order(s: State, model: Model, now: i64, k: int, l: int)
    requires
        1 <= k < l < model.channels@.len(),
    ensures
        s.order(model, now)[k] < s.order(model, now)[l],
        s.order(model, now)[0] == 0 || s.keeps_to(model) && s.order(model, now)[0] == s.active(model),
{
    assert(model.channels.len() == model.channels@.len());
    if s.keeps_to(model) {
        index_bound(model.channels@, s.sticky_routes@[model.id@].channel_id@);
    }
}

/// To ask for an order changes no model's channel, and nothing of another model's route.
pub proof fn asking_changes_no_route(s: State, model: Model, now: i64, other: Seq<char>)
    requires
        s.sticky_routes@.contains_key(other),
    ensures
        s.routes_after(model, now).contains_key(other),
        s.routes_after(model, now)[other].channel_id == s.sticky_routes@[other].channel_id@,
        other != model.id@ ==> s.routes_after(model, now)[other] == s.sticky_routes@[other]@,
{
}

/// Only channels before the present one are timed: a channel that is not starts its ten minutes anew when
/// it is.
pub proof fn only_better_channels_are_timed(s: State, model: Model, now: i64, id: Seq<char>)
    requires
        s.keeps_to(model),
        forall|i: int| 0 <= i < s.active(model) ==> (#[trigger] model.channels@[i]).id@ != id,
    ensures
        !s.returned(model, now).contains_key(id),
{
    let c = model.channels@;
    let n = s.active(model);
    index_bound(c, s.sticky_routes@[model.id@].channel_id@);
    let base = of_earlier(s.sticky_routes@[model.id@].recovered@, c, n);
    assert(!config::has_channel(c.take(n), id)) by {
        if config::has_channel(c.take(n), id) {
            let i = choose|i: int| 0 <= i < c.take(n).len() && (#[trigger] c.take(n)[i]).id@ == id;
            assert(c[i].id@ == id);
        }
    }
    untimed(base, c, s.readiness(c, now as int), now, n, id);
}

proof fn untimed(
    base: Map<Seq<char>, i64>,
    s: Seq<Channel>,
    ready: Seq<bool>,
    now: i64,
    n: int,
    id: Seq<char>,
)
    requires
        !base.contains_key(id),
        forall|i: int| 0 <= i < n ==> (#[trigger] s[i]).id@ != id,
    ensures
        !back_since(base, s, ready, now, n).contains_key(id),
    decreases n,
{
    if n > 0 {
        untimed(base, s, ready, now, n - 1, id);
        assert(s[n - 1].id@ != id);
    }
}

} // verus!
