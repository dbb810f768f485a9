//! Checks of keys: what a probe of an upstream means, and what comes of it.
use crate::balance::{Allowance, AllowanceView};
use crate::board;
use crate::board::line;
use crate::clock;
use crate::config::{Channel, Config, Key};
use crate::errors;
use crate::json;
use crate::json::{member, object, Json, JsonView};
use crate::random;
use crate::sse;
use crate::sse::{Observer, ObserverView};
use crate::state;
use crate::state::{KeyState, KeyView, State};
use crate::text;
use crate::text::parse_i64;
use vstd::prelude::*;
use vstd::string::*;

verus! {

/// What a probe found.
#[derive(Clone, Copy, Debug, PartialEq, Eq, Structural)]
pub enum Probe {
    Healthy,
    Failed,
    /// A status that needs no second look.
    Definite(u16),
    /// The seconds to wait.
    Throttled(i64),
}

/// The document of a probe: a tiny prompt of its own, never a replay of anybody's history.
pub open spec fn probe_document(model: Seq<char>) -> JsonView {
    JsonView::Object(
        seq![
            ("model"@, JsonView::Text(model)),
            ("input"@, JsonView::Text("Reply OK."@)),
            ("max_output_tokens"@, json::natural(256)),
            (
                "reasoning"@,
                JsonView::Object(seq![("effort"@, JsonView::Text("low"@))]),
            ),
            ("stream"@, JsonView::Bool(true)),
        ],
    )
}

/// The document of a probe.
pub fn probe_body(c: &Channel) -> (r: Json)
    ensures
        r@ == probe_document(c.upstream_model@),
{
    let effort = vec![member("effort", Json::text("low"))];
    let ghost inner = json::all_members(effort@);
    assert(inner =~= seq![("effort"@, JsonView::Text("low"@))]);
    let members = vec![
        member("model", Json::text(c.upstream_model.as_str())),
        member("input", Json::text("Reply OK.")),
        member("max_output_tokens", Json::natural(256)),
        member("reasoning", object(effort)),
        member("stream", Json::Bool(true)),
    ];
    assert(json::all_members(members@) =~= seq![
        ("model"@, JsonView::Text(c.upstream_model@)),
        ("input"@, JsonView::Text("Reply OK."@)),
        ("max_output_tokens"@, json::natural(256)),
        ("reasoning"@, JsonView::Object(seq![("effort"@, JsonView::Text("low"@))])),
        ("stream"@, JsonView::Bool(true)),
    ]);
    object(members)
}

/// The seconds to wait that a throttling upstream asks for: a minute to an hour, five minutes
/// where it does not say.
pub open spec fn wait_of(retry_after: Option<Seq<char>>) -> i64 {
    let asked: int = match retry_after {
        Some(t) => match text::signed_value(t) {
            Some(n) => if i64::MIN <= n <= i64::MAX {
                n
            } else {
                300
            },
            None => 300,
        },
        None => 300,
    };
    if asked < 60 {
        60
    } else if asked > 3600 {
        3600
    } else {
        asked as i64
    }
}

/// What a refusal means.
pub open spec fn refusal_of(
    status: u16,
    retry_after: Option<Seq<char>>,
    body: Option<JsonView>,
) -> Probe {
    let class = errors::class_of(status, body);
    if class == 401 || class == 402 {
        Probe::Definite(class)
    } else if class == 429 {
        Probe::Throttled(wait_of(retry_after))
    } else if status >= 500 {
        Probe::Definite(status)
    } else {
        Probe::Failed
    }
}

fn wait(retry_after: Option<&str>) -> (r: i64)
    ensures
        r == wait_of(text::str_view(retry_after)),
        60 <= r <= 3600,
{
    let asked: i64 = match retry_after {
        Some(t) => match parse_i64(t) {
            Some(n) => n,
            None => 300,
        },
        None => 300,
    };
    if asked < 60 {
        60
    } else if asked > 3600 {
        3600
    } else {
        asked
    }
}

/// What a status other than success means for a probe.
pub fn refused(status: u16, retry_after: Option<&str>, body: Option<&Json>) -> (r: Probe)
    ensures
        r == refusal_of(status, text::str_view(retry_after), sse::view_of(body)),
{
    let class = errors::classify_parsed(status, body);
    if class == 401 || class == 402 {
        Probe::Definite(class)
    } else if class == 429 {
        Probe::Throttled(wait(retry_after))
    } else if status >= 500 {
        Probe::Definite(status)
    } else {
        Probe::Failed
    }
}

/// What a classified failure within a successful response means.
pub open spec fn class_means(class: Option<u16>) -> Probe {
    match class {
        Some(c) => if c == 401 || c == 402 {
            Probe::Definite(c)
        } else if c == 429 {
            Probe::Throttled(60)
        } else {
            Probe::Failed
        },
        None => Probe::Failed,
    }
}

fn meaning(class: Option<u16>) -> (r: Probe)
    ensures
        r == class_means(class),
{
    match class {
        Some(c) => if c == 401 || c == 402 {
            Probe::Definite(c)
        } else if c == 429 {
            Probe::Throttled(60)
        } else {
            Probe::Failed
        },
        None => Probe::Failed,
    }
}

/// What a document means as the answer to a probe.
pub open spec fn answer_of(v: JsonView) -> Probe {
    if errors::sound_response(v) {
        Probe::Healthy
    } else {
        class_means(Some(errors::class_of(200, Some(v))))
    }
}

/// What a document means as the answer to a probe.
pub fn answered(v: &Json) -> (r: Probe)
    ensures
        r == answer_of(v@),
{
    if errors::valid_response(v) {
        Probe::Healthy
    } else {
        meaning(Some(errors::classify_parsed(200, Some(v))))
    }
}

/// A probe that reads a stream of events.
pub struct ProbeStream {
    pub observer: Observer,
    pub bytes: usize,
}

/// What is known of a stream after some bytes, where that decides the probe.
pub open spec fn stream_verdict(o: ObserverView) -> Option<Probe> {
    if o.verdict.failed {
        Some(class_means(o.failure_status))
    } else if o.verdict.terminal {
        Some(Probe::Healthy)
    } else {
        None
    }
}

impl ProbeStream {
    /// The stream is within bounds.
    pub open spec fn sound(self) -> bool {
        self.observer@.sound() && self.bytes <= 262144
    }

    /// A stream before its first bytes.
    pub fn new() -> (r: Self)
        ensures
            r.sound(),
            r.observer@ == ObserverView::fresh(),
            r.bytes == 0,
    {
        ProbeStream { observer: Observer::default(), bytes: 0 }
    }

    /// Takes the next bytes, and says what they decide. A probe reads no more than a quarter of a
    /// mebibyte.
    pub fn feed(&mut self, chunk: &[u8]) -> (r: Option<Probe>)
        requires
            old(self).sound(),
        ensures
            final(self).sound(),
            old(self).bytes + chunk@.len() > 262144 ==> r == Some(Probe::Failed) && *final(self)
                == *old(self),
            old(self).bytes + chunk@.len() <= 262144 ==> {
                &&& final(self).bytes == old(self).bytes + chunk@.len()
                &&& final(self).observer@ == old(self).observer@.fed(chunk@)
                &&& r == stream_verdict(old(self).observer@.fed(chunk@))
            },
    {
        if chunk.len() > 262144 - self.bytes {
            return Some(Probe::Failed);
        }
        self.bytes = self.bytes + chunk.len();
        self.observer.feed(chunk);
        if self.observer.failed {
            return Some(meaning(self.observer.failure_status));
        }
        if self.observer.terminal {
            return Some(Probe::Healthy);
        }
        None
    }

    /// Takes the end of the stream, and says what that decides.
    pub fn finish(&mut self) -> (r: Probe)
        requires
            old(self).sound(),
        ensures
            final(self).sound(),
            final(self).bytes == old(self).bytes,
            final(self).observer@ == old(self).observer@.finished(),
            r == (if final(self).observer@.verdict.terminal
                && !final(self).observer@.verdict.failed {
                Probe::Healthy
            } else {
                Probe::Failed
            }),
    {
        self.observer.finish();
        if self.observer.terminal && !self.observer.failed {
            Probe::Healthy
        } else {
            Probe::Failed
        }
    }
}

impl Probe {
    /// The probe found a definite status of a credential or a quota.
    pub open spec fn settles_account(self) -> bool {
        self == Probe::Definite(401) || self == Probe::Definite(402)
    }
}

impl KeyView {
    /// The key as a check finds it. An operator's check renews the budget of probes; a reset forgets
    /// the history of failures and asks for one answer only.
    pub open spec fn prepared(self, reset: bool, manual: bool, now: i64) -> KeyView {
        let s = if manual {
            KeyView { probe_exhausted: false, probe_attempts: 0, ..self }
        } else {
            self
        };
        if reset {
            KeyView {
                last_incident: None,
                cooldown_until: 0,
                failure_cycles: Seq::empty(),
                recovery_successes: 1,
                last_recovery_success: (now - 60) as i64,
                ..s
            }
        } else {
            s
        }
    }

    /// The key after an upstream throttled the check.
    pub open spec fn deferred(self, now: i64, delay: i64) -> KeyView {
        KeyView {
            retry_at: (now + delay) as i64,
            revision: (self.revision + 1) as u64,
            reason: "恢复检查遇到限流，延后检查，不消耗故障探测预算"@,
            ..self
        }
    }

    /// The key after an operator's check with an answer: unlocked at once.
    pub open spec fn unlocked(self) -> KeyView {
        KeyView {
            suspect: false,
            service_failed: false,
            cooldown_until: 0,
            probe_exhausted: false,
            probe_attempts: 0,
            probe_step: 0,
            recovery_successes: 0,
            retry_at: 0,
            reason: Seq::empty(),
            checked: true,
            credential_failed: false,
            revision: (self.revision + 1) as u64,
            ..self
        }
    }

    /// The key after a check with an answer.
    pub open spec fn healthy(self, now: i64) -> KeyView {
        let s = if self.service_failed {
            self.probed(now, true)
        } else {
            KeyView {
                suspect: false,
                retry_at: 0,
                reason: Seq::empty(),
                revision: (self.revision + 1) as u64,
                ..self
            }
        };
        KeyView { checked: true, credential_failed: false, ..s }
    }

    /// The key after its credential was refused.
    pub open spec fn refused_credential(self) -> KeyView {
        KeyView {
            suspect: false,
            revision: (self.revision + 1) as u64,
            credential_failed: true,
            reason: "凭证失效"@,
            ..self
        }
    }

    /// The key after its quota was found exhausted.
    pub open spec fn refused_quota(self, now: i64) -> KeyView {
        KeyView {
            suspect: false,
            revision: (self.revision + 1) as u64,
            request_exhausted: true,
            balance_checked: now,
            allowance: Some(
                AllowanceView {
                    exhausted: true,
                    ..match self.allowance {
                        Some(a) => a,
                        None => AllowanceView::blank(),
                    }
                },
            ),
            reason: "额度耗尽"@,
            ..self
        }
    }

    /// The key with the start of its incident noted, where that was not.
    pub open spec fn dated(self, now: i64) -> KeyView {
        KeyView {
            last_incident: Some(
                match self.last_incident {
                    Some(t) => t,
                    None => now,
                },
            ),
            reason: "网络异常确认中，继续可用；持续至少60秒且多次验证失败后隔离"@,
            ..self
        }
    }

    /// The key after a check without a definite answer, during a suspicion.
    pub open spec fn doubted(self, now: i64) -> KeyView {
        let s = self.dated(now).unconfirmed(now);
        if s.service_failed && !self.service_failed {
            KeyView {
                reason: "网络异常持续至少60秒，且多次最小 Responses 验证失败"@,
                ..s
            }
        } else {
            s
        }
    }

    /// The key after a check that found it failing.
    pub open spec fn condemned(self, now: i64) -> KeyView {
        (KeyView { reason: "最小 Responses 验证失败"@, ..self }).failed(now)
    }

    /// A prepared key after its check, unless the upstream throttled that.
    pub open spec fn concluded(self, outcome: Probe, manual: bool, now: i64) -> KeyView {
        match outcome {
            Probe::Healthy => if manual {
                self.unlocked().healthy(now)
            } else {
                self.healthy(now)
            },
            Probe::Throttled(delay) => self.deferred(now, delay),
            _ => if outcome == Probe::Definite(401) {
                self.refused_credential()
            } else if outcome == Probe::Definite(402) {
                self.refused_quota(now)
            } else if self.suspect && outcome == Probe::Failed {
                self.doubted(now)
            } else if !self.service_failed {
                self.condemned(now)
            } else {
                self.probed(now, false)
            },
        }
    }

    /// A prepared key failed by a check.
    pub open spec fn falls(self, outcome: Probe, now: i64) -> bool {
        &&& !self.service_failed
        &&& !outcome.settles_account()
        &&& outcome is Failed && self.suspect ==> self.dated(now).unconfirmed(now).service_failed
        &&& outcome is Failed || outcome is Definite
    }

    /// What a check computes on a prepared key can be held.
    pub open spec fn conclusion_fits(self, outcome: Probe, manual: bool, now: i64) -> bool {
        &&& self.revision + 2 <= u64::MAX
        &&& match outcome {
            Probe::Healthy => !manual && self.service_failed ==> self.probe_fits(now, true),
            Probe::Throttled(delay) => i64::MIN <= now + delay <= i64::MAX,
            _ => !outcome.settles_account() ==> if self.suspect && outcome == Probe::Failed {
                &&& self.failure_fits(now)
                &&& now + 5 <= i64::MAX
                &&& self.last_incident is Some ==> state::span(
                    now as int,
                    self.last_incident->0 as int,
                )
            } else if !self.service_failed {
                self.failure_fits(now)
            } else {
                self.probe_fits(now, false)
            },
        }
    }
}

impl KeyState {
    fn prepare(&mut self, reset: bool, manual: bool, now: i64)
        requires
            reset ==> now - 60 >= i64::MIN,
        ensures
            final(self)@ == old(self)@.prepared(reset, manual, now),
    {
        if manual {
            self.probe_exhausted = false;
            self.probe_attempts = 0;
        }
        if reset {
            self.last_incident = None;
            self.cooldown_until = 0;
            self.failure_cycles.clear();
            assert(self@.failure_cycles =~= Seq::empty());
            self.recovery_successes = 1;
            self.last_recovery_success = now - 60;
        }
    }

    fn defer(&mut self, now: i64, delay: i64)
        requires
            old(self)@.revision < u64::MAX,
            i64::MIN <= now + delay <= i64::MAX,
        ensures
            final(self)@ == old(self)@.deferred(now, delay),
    {
        self.retry_at = now + delay;
        self.revision = self.revision + 1;
        self.reason = "恢复检查遇到限流，延后检查，不消耗故障探测预算".to_owned();
    }

    fn forget_reason(&mut self)
        ensures
            final(self)@ == (KeyView { reason: Seq::empty(), ..old(self)@ }),
    {
        self.reason = String::new();
        assert(self@.reason =~= Seq::empty());
    }

    fn unlock(&mut self)
        requires
            old(self)@.revision < u64::MAX,
        ensures
            final(self)@ == old(self)@.unlocked(),
    {
        self.forget_reason();
        self.suspect = false;
        self.service_failed = false;
        self.cooldown_until = 0;
        self.probe_exhausted = false;
        self.probe_attempts = 0;
        self.probe_step = 0;
        self.recovery_successes = 0;
        self.retry_at = 0;
        self.checked = true;
        self.credential_failed = false;
        self.revision = self.revision + 1;
    }

    fn heal(&mut self, now: i64)
        requires
            old(self)@.revision < u64::MAX,
            old(self)@.service_failed ==> old(self)@.probe_fits(now, true),
        ensures
            final(self)@ == old(self)@.healthy(now),
    {
        if self.service_failed {
            self.probe_result(now, true);
        } else {
            self.forget_reason();
            self.suspect = false;
            self.retry_at = 0;
            self.revision = self.revision + 1;
        }
        self.checked = true;
        self.credential_failed = false;
    }

    /// Notes that the key's credential was refused.
    pub fn refuse_credential(&mut self)
        requires
            old(self)@.revision < u64::MAX,
        ensures
            final(self)@ == old(self)@.refused_credential(),
    {
        self.suspect = false;
        self.revision = self.revision + 1;
        self.credential_failed = true;
        self.reason = "凭证失效".to_owned();
    }

    /// Notes that the allowance is used up, whatever it said.
    pub fn exhaust(&mut self)
        ensures
            final(self)@ == (KeyView {
                allowance: Some(
                    AllowanceView {
                        exhausted: true,
                        ..match old(self)@.allowance {
                            Some(a) => a,
                            None => AllowanceView::blank(),
                        }
                    },
                ),
                ..old(self)@
            }),
    {
        let allowance = self.allowance.take();
        let mut a = match allowance {
            Some(a) => a,
            None => Allowance::default(),
        };
        a.exhausted = true;
        self.allowance = Some(a);
    }

    /// Notes that the key's quota was found exhausted.
    pub fn refuse_quota(&mut self, now: i64)
        requires
            old(self)@.revision < u64::MAX,
        ensures
            final(self)@ == old(self)@.refused_quota(now),
    {
        self.exhaust();
        self.suspect = false;
        self.revision = self.revision + 1;
        self.request_exhausted = true;
        self.balance_checked = now;
        self.reason = "额度耗尽".to_owned();
    }

    fn doubt(&mut self, now: i64)
        requires
            old(self)@.failure_fits(now),
            now + 5 <= i64::MAX,
            old(self)@.last_incident is Some ==> state::span(
                now as int,
                old(self)@.last_incident->0 as int,
            ),
        ensures
            final(self)@ == old(self)@.doubted(now),
    {
        let failed_before = self.service_failed;
        self.reason = "网络异常确认中，继续可用；持续至少60秒且多次验证失败后隔离".to_owned();
        if self.last_incident.is_none() {
            self.last_incident = Some(now);
        }
        assert(self@ == old(self)@.dated(now));
        self.confirmation_failed(now);
        if self.service_failed && !failed_before {
            self.reason = "网络异常持续至少60秒，且多次最小 Responses 验证失败".to_owned();
        }
    }

    fn condemn(&mut self, now: i64)
        requires
            old(self)@.failure_fits(now),
        ensures
            final(self)@ == old(self)@.condemned(now),
    {
        self.reason = "最小 Responses 验证失败".to_owned();
        self.fail_service(now);
    }

    fn conclude(&mut self, outcome: Probe, manual: bool, now: i64) -> (fell: bool)
        requires
            old(self)@.conclusion_fits(outcome, manual, now),
        ensures
            final(self)@ == old(self)@.concluded(outcome, manual, now),
            fell == old(self)@.falls(outcome, now),
    {
        let failed_before = self.service_failed;
        match outcome {
            Probe::Healthy => {
                if manual {
                    self.unlock();
                }
                self.heal(now);
                false
            },
            Probe::Throttled(delay) => {
                self.defer(now, delay);
                false
            },
            Probe::Definite(401) => {
                self.refuse_credential();
                false
            },
            Probe::Definite(402) => {
                self.refuse_quota(now);
                false
            },
            Probe::Failed if self.suspect => {
                self.doubt(now);
                self.service_failed && !failed_before
            },
            _ => {
                if !self.service_failed {
                    self.condemn(now);
                    true
                } else {
                    self.probe_result(now, false);
                    false
                }
            },
        }
    }
}

/// What operators are told of a key that was taken out of use.
pub open spec fn outage_of(c: Channel, k: Key) -> Seq<char> {
    "服务中断："@ + c.name@ + " / "@ + k.label@ + "，将自动使用后续可用渠道。"@
}

fn outage(c: &Channel, k: &Key) -> (r: String)
    ensures
        r@ == outage_of(*c, *k),
{
    let a = "服务中断：".to_owned().concat(c.name.as_str());
    let b = a.concat(" / ");
    let d = b.concat(k.label.as_str());
    d.concat("，将自动使用后续可用渠道。")
}

/// What operators are told of an operator's check.
pub open spec fn recheck_of(ok: bool) -> Seq<char> {
    if ok {
        "重新验证成功"@
    } else {
        "重新验证失败"@
    }
}

/// A check that ended: the key as the check found it, and what it found.
pub struct Check {
    pub outcome: Probe,
    /// Forget the history of failures.
    pub reset: bool,
    /// An operator asked for the check.
    pub manual: bool,
}

impl Check {
    /// The key after the check.
    pub open spec fn after(self, s: KeyView, now: i64) -> KeyView {
        s.prepared(self.reset, self.manual, now).concluded(self.outcome, self.manual, now)
    }

    /// The key failed by the check.
    pub open spec fn fell(self, s: KeyView, now: i64) -> bool {
        s.prepared(self.reset, self.manual, now).falls(self.outcome, now)
    }

    /// The key came back by the check.
    pub open spec fn recovered(self, s: KeyView, now: i64) -> bool {
        &&& self.outcome == Probe::Healthy
        &&& s.service_failed || s.suspect
        &&& !self.after(s, now).service_failed
        &&& !self.after(s, now).suspect
    }

    /// What the check computes can be held.
    pub open spec fn fits(self, s: KeyView, now: i64) -> bool {
        &&& self.reset ==> now - 60 >= i64::MIN
        &&& s.prepared(self.reset, self.manual, now).conclusion_fits(
            self.outcome,
            self.manual,
            now,
        )
    }

    /// What operators are told of the check.
    pub open spec fn told(
        self,
        b: board::Board,
        s: KeyView,
        c: Channel,
        k: Key,
        webhook: bool,
        now: i64,
        id: u64,
    ) -> board::Board {
        if self.outcome is Throttled {
            b.event_if(
                self.manual,
                now,
                "check"@,
                board::line_of(c, k, "上游限流，请稍后验证"@),
            )
        } else {
            let fell = self.fell(s, now);
            let recovered = self.recovered(s, now);
            b.event_if(
                self.after(s, now).probe_exhausted,
                now,
                "service"@,
                board::line_of(c, k, "恢复探测达到12次上限，已停止自动探测"@),
            ).event_if(recovered, now, "service"@, board::line_of(c, k, "服务恢复"@)).event_if(
                fell,
                now,
                "service"@,
                board::line_of(c, k, "服务验证失败"@),
            ).notice_if(fell && webhook, now, id, outage_of(c, k)).event_if(
                self.manual && !fell && !recovered,
                now,
                "check"@,
                board::line_of(c, k, recheck_of(self.outcome == Probe::Healthy)),
            )
        }
    }
}

fn tell(
    state: &mut State,
    cfg: &Config,
    c: &Channel,
    k: &Key,
    check: &Check,
    fell: bool,
    recovered: bool,
    exhausted: bool,
    now: i64,
    id: u64,
    Ghost(s): Ghost<KeyView>,
)
    requires
        !(check.outcome is Throttled) ==> fell == check.fell(s, now) && recovered
            == check.recovered(s, now) && exhausted == check.after(s, now).probe_exhausted,
    ensures
        final(state).only_board_differs(*old(state)),
        final(state).board() == check.told(
            old(state).board(),
            s,
            *c,
            *k,
            cfg.notifies(),
            now,
            id,
        ),
{
    match check.outcome {
        Probe::Throttled(_) => {
            state.event_if(check.manual, now, "check", line(c, k, "上游限流，请稍后验证"));
        },
        _ => {
            let webhook = cfg.has_webhook();
            let ok = match check.outcome {
                Probe::Healthy => true,
                _ => false,
            };
            state.event_if(
                exhausted,
                now,
                "service",
                line(c, k, "恢复探测达到12次上限，已停止自动探测"),
            );
            state.event_if(recovered, now, "service", line(c, k, "服务恢复"));
            state.event_if(fell, now, "service", line(c, k, "服务验证失败"));
            state.notice_if(fell && webhook, now, id, outage(c, k));
            let result = if ok {
                "重新验证成功"
            } else {
                "重新验证失败"
            };
            state.event_if(
                check.manual && !fell && !recovered,
                now,
                "check",
                line(c, k, result),
            );
        },
    }
}

/// Brings the outcome of a check into the state, as of a time, unless the key's state changed since
/// the check began.
pub fn settle_at(
    state: &mut State,
    cfg: &Config,
    c: &Channel,
    k: &Key,
    revision: u64,
    check: &Check,
    now: i64,
    id: u64,
) -> (r: bool)
    requires
        old(state).key_at(k.id@).revision == revision ==> check.fits(
            old(state).key_at(k.id@),
            now,
        ),
    ensures
        r == (old(state).key_at(k.id@).revision == revision),
        r ==> {
            &&& final(state).key_changed(
                *old(state),
                k.id@,
                check.after(old(state).key_at(k.id@), now),
            )
            &&& final(state).board() == check.told(
                old(state).board(),
                old(state).key_at(k.id@),
                *c,
                *k,
                cfg.notifies(),
                now,
                id,
            )
        },
        !r ==> final(state).key_changed(*old(state), k.id@, old(state).key_at(k.id@))
            && final(state).board() == old(state).board(),
{
    let ghost before = state.key_map();
    let mut s = state.take_key(k.id.as_str());
    let ghost sv = s@;
    if s.revision != revision {
        state.put_key(k.id.as_str(), s);
        assert(state.key_map() =~= before.insert(k.id@, sv));
        return false;
    }
    let troubled = s.service_failed || s.suspect;
    s.prepare(check.reset, check.manual, now);
    let fell = s.conclude(check.outcome, check.manual, now);
    let ghost after = s@;
    let ok = match check.outcome {
        Probe::Healthy => true,
        _ => false,
    };
    let recovered = ok && troubled && !s.service_failed && !s.suspect;
    let exhausted = s.probe_exhausted;
    state.put_key(k.id.as_str(), s);
    assert(state.key_map() =~= before.insert(k.id@, after));
    tell(state, cfg, c, k, check, fell, recovered, exhausted, now, id, Ghost(sv));
    true
}

/// Brings the outcome of a check into the state, unless the key's state changed since the check
/// began.
pub fn settle(
    state: &mut State,
    cfg: &Config,
    c: &Channel,
    k: &Key,
    revision: u64,
    check: &Check,
) -> (r: bool)
    requires
        old(state).key_at(k.id@).revision == revision ==> forall|now: i64|
            clock::reading(now as int) ==> #[trigger] check.fits(old(state).key_at(k.id@), now),
    ensures
        r == (old(state).key_at(k.id@).revision == revision),
        r ==> exists|now: i64, id: u64|
            {
                &&& clock::reading(now as int)
                &&& final(state).key_changed(
                    *old(state),
                    k.id@,
                    check.after(old(state).key_at(k.id@), now),
                )
                &&& final(state).board() == #[trigger] check.told(
                    old(state).board(),
                    old(state).key_at(k.id@),
                    *c,
                    *k,
                    cfg.notifies(),
                    now,
                    id,
                )
            },
        !r ==> final(state).key_changed(*old(state), k.id@, old(state).key_at(k.id@))
            && final(state).board() == old(state).board(),
{
    let now = clock::now();
    let id = random::random_u64();
    settle_at(state, cfg, c, k, revision, check, now, id)
}

/// An operator's check with an answer puts a key back to use at once, but for its quota.
pub proof fn manual_answer_unlocks(s: KeyView, reset: bool, now: i64)
    requires
        0 <= now,
    ensures
        ({
            let t = (Check { outcome: Probe::Healthy, reset, manual: true }).after(s, now);
            t.eligible(now as int) == !t.out_of_quota(now as int)
        }),
{
}

/// Throttling costs a key nothing but time: no probe of the budget, no verdict.
pub proof fn throttling_decides_nothing(s: KeyView, now: i64, delay: i64)
    ensures
        ({
            let t = (Check { outcome: Probe::Throttled(delay), reset: false, manual: false }).after(
                s,
                now,
            );
            t == KeyView { retry_at: t.retry_at, revision: t.revision, reason: t.reason, ..s }
        }),
{
}

/// A failing key never comes back by anything but an answer.
pub proof fn only_answers_recover(s: KeyView, outcome: Probe, reset: bool, manual: bool, now: i64)
    requires
        s.service_failed,
        outcome != Probe::Healthy,
    ensures
        (Check { outcome, reset, manual }).after(s, now).service_failed,
{
}

/// A probe that was throttled waits as long as was asked, but at least a minute and at most an hour;
/// five minutes where nothing that can be read was asked.
pub proof fn waits_are_bounded(asked: Option<Seq<char>>)
    ensures
        60 <= wait_of(asked) <= 3600,
        asked is None ==> wait_of(asked) == 300,
        asked is Some && text::signed_value(asked->0) is None ==> wait_of(asked) == 300,
        asked is Some && text::signed_value(asked->0) is Some ==> ({
            let n = text::signed_value(asked->0)->0;
            &&& 60 <= n <= 3600 ==> wait_of(asked) == n
            &&& i64::MIN <= n < 60 ==> wait_of(asked) == 60
            &&& 3600 < n <= i64::MAX ==> wait_of(asked) == 3600
        }),
{
}

/// A refused probe settles the account where a credential or a quota was refused, waits where it was
/// throttled, is definite where the service itself failed, and otherwise only failed.
pub proof fn refused_probes_mean(status: u16, asked: Option<Seq<char>>, body: Option<JsonView>)
    ensures
        ({
            let r = refusal_of(status, asked, body);
            let class = errors::class_of(status, body);
            &&& class == 401 ==> r == Probe::Definite(401)
            &&& class == 402 ==> r == Probe::Definite(402)
            &&& class == 429 ==> r is Throttled && r->Throttled_0 == wait_of(asked)
            &&& class == 400 || class == 503 ==> r == if status >= 500 {
                Probe::Definite(status)
            } else {
                Probe::Failed
            }
            &&& r != Probe::Healthy
        }),
        refusal_of(500, None, None) == Probe::Definite(500),
        refusal_of(404, None, None) == Probe::Failed,
        refusal_of(400, None, None) == Probe::Failed,
{
    errors::silent_replies_go_by_their_status(500, None);
    errors::silent_replies_go_by_their_status(404, None);
    errors::silent_replies_go_by_their_status(400, None);
}

/// A probe is answered by a sound response or a stream that came to an end without failing, and by
/// nothing else. A failure settles the account, waits a minute, or only failed, as its class says.
pub proof fn probes_are_answered(v: JsonView, o: ObserverView)
    ensures
        answer_of(v) == Probe::Healthy <==> errors::sound_response(v),
        !errors::sound_response(v) && errors::class_of(200, Some(v)) == 429 ==> answer_of(v)
            == Probe::Throttled(60),
        !errors::sound_response(v) && errors::class_of(200, Some(v)) == 401 ==> answer_of(v)
            == Probe::Definite(401),
        !errors::sound_response(v) && errors::class_of(200, Some(v)) == 402 ==> answer_of(v)
            == Probe::Definite(402),
        !errors::sound_response(v) && errors::class_of(200, Some(v)) == 503 ==> answer_of(v)
            == Probe::Failed,
        stream_verdict(o) is None <==> !o.verdict.failed && !o.verdict.terminal,
        stream_verdict(o) == Some(Probe::Healthy) <==> !o.verdict.failed && o.verdict.terminal,
        o.verdict.failed && o.failure_status == Some(401u16) ==> stream_verdict(o) == Some(
            Probe::Definite(401),
        ),
        o.verdict.failed && o.failure_status == Some(402u16) ==> stream_verdict(o) == Some(
            Probe::Definite(402),
        ),
        o.verdict.failed && o.failure_status == Some(429u16) ==> stream_verdict(o) == Some(
            Probe::Throttled(60),
        ),
        o.verdict.failed && (o.failure_status is None || o.failure_status == Some(503u16)
            || o.failure_status == Some(400u16)) ==> stream_verdict(o) == Some(Probe::Failed),
{
}

/// An answer lifts a suspicion at once, clears a refused credential, and says nothing of the quota. A
/// failed key takes it as an answer to a probe.
pub proof fn answers_lift_suspicions(s: KeyView, now: i64)
    requires
        (Check { outcome: Probe::Healthy, reset: false, manual: false }).fits(s, now),
    ensures
        ({
            let t = (Check { outcome: Probe::Healthy, reset: false, manual: false }).after(s, now);
            &&& !t.credential_failed && t.checked
            &&& t.allowance == s.allowance && t.request_exhausted == s.request_exhausted
            &&& !s.service_failed ==> !t.suspect && !t.service_failed && t.retry_at == 0
                && t.reason.len() == 0 && t.cooldown_until == s.cooldown_until && t.failure_cycles
                == s.failure_cycles && t.last_incident == s.last_incident
            &&& !s.service_failed ==> t == (KeyView {
                suspect: t.suspect,
                retry_at: t.retry_at,
                reason: t.reason,
                revision: t.revision,
                checked: t.checked,
                credential_failed: t.credential_failed,
                ..s
            })
            &&& s.service_failed ==> t == (KeyView {
                checked: true,
                credential_failed: false,
                ..s.probed(now, true)
            })
            &&& t.revision == s.revision + 1
        }),
{
}

/// A refused credential ends a suspicion and is noted as such; a used-up quota too. Neither counts as a
/// failure of the service, nor as an answer to a probe.
pub proof fn accounts_are_settled(s: KeyView, now: i64)
    requires
        s.revision + 2 <= u64::MAX,
    ensures
        ({
            let t = (Check { outcome: Probe::Definite(401), reset: false, manual: false }).after(
                s,
                now,
            );
            &&& t.credential_failed && !t.suspect && t.revision == s.revision + 1
            &&& t.reason == "凭证失效"@
            &&& t == (KeyView {
                credential_failed: true,
                suspect: false,
                revision: t.revision,
                reason: t.reason,
                ..s
            })
        }),
        ({
            let t = (Check { outcome: Probe::Definite(402), reset: false, manual: false }).after(
                s,
                now,
            );
            &&& t.allowance is Some && (t.allowance->0).exhausted && t.request_exhausted
            &&& !t.suspect && t.balance_checked == now && t.revision == s.revision + 1
            &&& s.allowance is Some ==> t.allowance == Some(
                AllowanceView { exhausted: true, ..s.allowance->0 },
            )
            &&& s.allowance is None ==> t.allowance == Some(
                AllowanceView { exhausted: true, ..AllowanceView::blank() },
            )
            &&& t.reason == "额度耗尽"@
            &&& t == (KeyView {
                allowance: t.allowance,
                request_exhausted: true,
                balance_checked: now,
                suspect: false,
                revision: t.revision,
                reason: t.reason,
                ..s
            })
        }),
{
}

/// A definite failure of the service takes a key out of use at once, suspected or not. Without a
/// definite answer a suspected key is checked again first, and one in use fails at once. A key that
/// failed already takes either as silence to a probe.
pub proof fn failures_are_concluded(s: KeyView, status: u16, now: i64)
    requires
        (Check { outcome: Probe::Failed, reset: false, manual: false }).fits(s, now),
        (Check { outcome: Probe::Definite(status), reset: false, manual: false }).fits(s, now),
        status != 401,
        status != 402,
    ensures
        ({
            let definite = Check { outcome: Probe::Definite(status), reset: false, manual: false };
            let failed = Check { outcome: Probe::Failed, reset: false, manual: false };
            let t = definite.after(s, now);
            let u = failed.after(s, now);
            &&& t.service_failed
            &&& !s.service_failed ==> !t.suspect && definite.fell(s, now) && t.retry_at == now + 60
            &&& s.service_failed ==> t == s.probed(now, false) && !definite.fell(s, now)
            &&& !s.suspect ==> u.service_failed && (failed.fell(s, now) <==> !s.service_failed)
            &&& s.service_failed && !s.suspect ==> u == s.probed(now, false)
            &&& s.suspect && !s.service_failed ==> (u.service_failed <==> s.probe_attempts >= 1
                && s.last_incident is Some && now >= s.last_incident->0 + 60)
            &&& s.suspect && !s.service_failed ==> (failed.fell(s, now) <==> u.service_failed)
            &&& s.suspect && !s.service_failed && !u.service_failed ==> u.suspect && u.retry_at
                == now + 5
            &&& u.credential_failed == s.credential_failed && t.credential_failed
                == s.credential_failed
            &&& u.allowance == s.allowance && t.allowance == s.allowance
        }),
{
}

/// A throttled check waits as long as it was told to, says so, and leaves the rest as it was.
pub proof fn throttled_checks_wait(s: KeyView, reset: bool, manual: bool, now: i64, delay: i64)
    requires
        (Check { outcome: Probe::Throttled(delay), reset, manual }).fits(s, now),
    ensures
        (Check { outcome: Probe::Throttled(delay), reset, manual }).after(s, now).retry_at == now
            + delay,
        !(Check { outcome: Probe::Throttled(delay), reset, manual }).fell(s, now),
        (Check { outcome: Probe::Throttled(delay), reset, manual }).after(s, now).reason
            == "恢复检查遇到限流，延后检查，不消耗故障探测预算"@,
        !reset && !manual ==> ({
            let t = (Check { outcome: Probe::Throttled(delay), reset, manual }).after(s, now);
            &&& t.revision == s.revision + 1
            &&& t == (KeyView {
                retry_at: t.retry_at,
                revision: t.revision,
                reason: t.reason,
                ..s
            })
        }),
{
}

/// A suspicion that stands is noted: when its incident began, that one more check failed, and what
/// operators read. Nothing else that is known of the key changes. A failure says what it came of.
pub proof fn doubts_are_noted(s: KeyView, now: i64)
    requires
        (Check { outcome: Probe::Failed, reset: false, manual: false }).fits(s, now),
        !s.service_failed,
    ensures
        ({
            let u = (Check { outcome: Probe::Failed, reset: false, manual: false }).after(s, now);
            &&& !u.service_failed ==> {
                &&& s.last_incident is Some ==> u.last_incident == s.last_incident
                &&& s.last_incident is None ==> u.last_incident == Some(now)
                &&& s.probe_attempts < u32::MAX ==> u.probe_attempts == s.probe_attempts + 1
                &&& u.revision == s.revision + 1
                &&& u.reason == "网络异常确认中，继续可用；持续至少60秒且多次验证失败后隔离"@
                &&& u == (KeyView {
                    last_incident: u.last_incident,
                    probe_attempts: u.probe_attempts,
                    retry_at: u.retry_at,
                    revision: u.revision,
                    reason: u.reason,
                    ..s
                })
            }
            &&& u.service_failed && s.suspect ==> u.reason
                == "网络异常持续至少60秒，且多次最小 Responses 验证失败"@
            &&& u.service_failed && !s.suspect ==> u.reason == "最小 Responses 验证失败"@
        }),
{
}

/// An operator's check renews the budget of probes. A reset forgets incidents, failures and cooldowns,
/// and lets one answer bring a failed key back.
pub proof fn operators_give_keys_a_chance(s: KeyView, outcome: Probe, now: i64, delay: i64)
    requires
        0 <= now,
        s.service_failed,
        s.revision + 2 <= u64::MAX,
        now + 300 <= i64::MAX,
    ensures
        ({
            let t = (Check { outcome: Probe::Throttled(delay), reset: false, manual: true }).after(
                s,
                now,
            );
            !t.probe_exhausted && t.probe_attempts == 0 && t.failure_cycles == s.failure_cycles
                && t.cooldown_until == s.cooldown_until
        }),
        ({
            let t = (Check { outcome: Probe::Throttled(delay), reset: true, manual: false }).after(
                s,
                now,
            );
            t.probe_exhausted == s.probe_exhausted && t.probe_attempts == s.probe_attempts
                && t.failure_cycles.len() == 0 && t.cooldown_until == 0 && t.last_incident is None
        }),
        !(Check { outcome: Probe::Healthy, reset: true, manual: false }).after(s, now).service_failed,
        !(Check { outcome: Probe::Healthy, reset: false, manual: true }).after(s, now).service_failed,
{
}

/// What operators are told of a check: that a key came back, that it failed, also by the webhook, that
/// its probes are used up, and of a check of their own its result where it changed nothing.
pub proof fn checks_are_told(
    check: Check,
    b: board::Board,
    s: KeyView,
    c: Channel,
    k: Key,
    webhook: bool,
    now: i64,
    id: u64,
)
    requires
        !(check.outcome is Throttled),
        !check.after(s, now).probe_exhausted,
    ensures
        ({
            let t = check.told(b, s, c, k, webhook, now, id);
            let up = check.outcome == Probe::Healthy && (s.service_failed || s.suspect)
                && !check.after(s, now).service_failed && !check.after(s, now).suspect;
            let down = check.fell(s, now);
            &&& up ==> t == b.event(now, "service"@, board::line_of(c, k, "服务恢复"@))
            &&& down && !webhook ==> t == b.event(
                now,
                "service"@,
                board::line_of(c, k, "服务验证失败"@),
            )
            &&& down && webhook ==> t == b.event(
                now,
                "service"@,
                board::line_of(c, k, "服务验证失败"@),
            ).notice(now, id, outage_of(c, k))
            &&& !up && !down && !check.manual ==> t == b
            &&& !up && !down && check.manual && check.outcome == Probe::Healthy ==> t == b.event(
                now,
                "check"@,
                board::line_of(c, k, "重新验证成功"@),
            )
            &&& !up && !down && check.manual && check.outcome != Probe::Healthy ==> t == b.event(
                now,
                "check"@,
                board::line_of(c, k, "重新验证失败"@),
            )
        }),
{
}

/// A probe asks for very little, under the upstream's own name of the model, and for a stream.
pub proof fn probes_ask_for_little(model: Seq<char>)
    ensures
        probe_document(model).at("model"@) == JsonView::Text(model),
        probe_document(model).at("input"@) == JsonView::Text("Reply OK."@),
        probe_document(model).at("max_output_tokens"@) == json::natural(256),
        probe_document(model).at("reasoning"@).at("effort"@) == JsonView::Text("low"@),
        probe_document(model).at("stream"@) == JsonView::Bool(true),
{
    reveal_strlit("model");
    reveal_strlit("input");
    reveal_strlit("max_output_tokens");
    reveal_strlit("reasoning");
    reveal_strlit("stream");
    reveal_with_fuel(json::lookup, 6);
    let o = probe_document(model)->Object_0;
    let a = o.skip(1);
    let b = a.skip(1);
    let c = b.skip(1);
    let d = c.skip(1);
    assert(a[0] == o[1] && b[0] == o[2] && c[0] == o[3] && d[0] == o[4]);
    assert("model"@.len() == 5 && "input"@.len() == 5 && "max_output_tokens"@.len() == 17
        && "reasoning"@.len() == 9 && "stream"@.len() == 6);
    assert("model"@[0] == 'm' && "input"@[0] == 'i');
}

/// An answer to an operator's check unlocks a key at once, whatever state it was in: it is neither
/// suspected nor failed nor refused, nothing of its pauses, cooldown and probes is left, and what is
/// known of its quota and of its failures stays.
pub proof fn operators_unlock_keys(s: KeyView, now: i64, later: int)
    requires
        (Check { outcome: Probe::Healthy, reset: false, manual: true }).fits(s, now),
        0 <= later,
    ensures
        ({
            let t = (Check { outcome: Probe::Healthy, reset: false, manual: true }).after(s, now);
            &&& !t.suspect && !t.service_failed && !t.credential_failed && !t.probe_exhausted
            &&& t.cooldown_until == 0 && t.retry_at == 0
            &&& t.probe_attempts == 0 && t.probe_step == 0 && t.recovery_successes == 0
            &&& t.checked && t.reason.len() == 0
            &&& t.eligible(later) <==> !s.out_of_quota(later)
            &&& t == (KeyView {
                suspect: t.suspect,
                service_failed: t.service_failed,
                credential_failed: t.credential_failed,
                probe_exhausted: t.probe_exhausted,
                cooldown_until: t.cooldown_until,
                retry_at: t.retry_at,
                probe_attempts: t.probe_attempts,
                probe_step: t.probe_step,
                recovery_successes: t.recovery_successes,
                checked: t.checked,
                reason: t.reason,
                revision: t.revision,
                ..s
            })
        }),
{
}

/// A throttled check is told only to the operator who asked for it. The last probe of a failed key is
/// told before anything else of it.
pub proof fn stopped_probes_are_told(
    check: Check,
    b: board::Board,
    s: KeyView,
    c: Channel,
    k: Key,
    webhook: bool,
    now: i64,
    id: u64,
)
    ensures
        check.outcome is Throttled && !check.manual ==> check.told(b, s, c, k, webhook, now, id) == b,
        check.outcome is Throttled && check.manual ==> check.told(b, s, c, k, webhook, now, id)
            == b.event(now, "check"@, board::line_of(c, k, "上游限流，请稍后验证"@)),
        !(check.outcome is Throttled) && !check.manual && s.service_failed && check.after(
            s,
            now,
        ).probe_exhausted && check.after(s, now).service_failed ==> check.told(
            b,
            s,
            c,
            k,
            webhook,
            now,
            id,
        ) == b.event(
            now,
            "service"@,
            board::line_of(c, k, "恢复探测达到12次上限，已停止自动探测"@),
        ),
{
}

/// The notice of an outage names the channel and the label of the key, and says what happens next.
pub proof fn outages_are_named(c: Channel, k: Key)
    ensures
        text::after(outage_of(c, k), "服务中断："@ + c.name@ + " / "@ + k.label@) == Some(
            "，将自动使用后续可用渠道。"@,
        ),
{
    text::prefixes_are_cut(
        "服务中断："@ + c.name@ + " / "@ + k.label@,
        "，将自动使用后续可用渠道。"@,
        outage_of(c, k),
    );
}

} // verus!
