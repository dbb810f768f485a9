//! Background work: which checks are due, and what comes of a look at a quota.
use crate::balance::{Adapter, Allowance, AllowanceView};
use crate::board;
use crate::board::line;
use crate::clock;
use crate::config::{Channel, Config, Key, Model, Monitor};
use crate::random;
use crate::state;
use crate::state::{KeyView, State};
use crate::text;
use crate::text::same;
use vstd::prelude::*;
use vstd::string::*;

verus! {

/// What is checked of keys in the background.
#[derive(Clone, Copy, Debug, PartialEq, Eq, Structural)]
pub enum Task {
    Balance,
    Service,
}

/// The place of a key: its model, its channel in that, and its own in the channel.
pub type Place = (usize, usize, usize);

impl KeyView {
    /// The quota was last looked at five minutes ago or more.
    pub open spec fn balance_due(self, now: i64) -> bool {
        now - self.balance_checked >= 300
    }

    /// The key is out of use, may be probed, and is not out of quota.
    pub open spec fn service_due(self, now: i64) -> bool {
        &&& self.service_failed || self.suspect
        &&& !self.probe_exhausted
        &&& self.retry_at <= now
        &&& match self.allowance {
            Some(a) => !a.exhausted,
            None => true,
        }
    }
}

impl State {
    /// A check of a key is due.
    pub open spec fn due(self, task: Task, k: Key, now: i64) -> bool {
        &&& k.enabled
        &&& match task {
            Task::Balance => self.keys@.contains_key(k.id@) ==> self.keys@[k.id@]@.balance_due(now),
            Task::Service => self.keys@.contains_key(k.id@) && self.keys@[k.id@]@.service_due(now),
        }
    }

    fn is_due(&self, task: Task, k: &Key, now: i64) -> (r: bool)
        requires
            self.timely(now),
        ensures
            r == self.due(task, *k, now),
    {
        if !k.enabled {
            return false;
        }
        match task {
            Task::Balance => match self.keys.get(k.id.as_str()) {
                Some(s) => {
                    assert(self.keys@.contains_key(k.id@));
                    now - s.balance_checked >= 300
                },
                None => true,
            },
            Task::Service => match self.keys.get(k.id.as_str()) {
                Some(s) => (s.service_failed || s.suspect) && !s.probe_exhausted && s.retry_at
                    <= now && match &s.allowance {
                    Some(a) => !a.exhausted,
                    None => true,
                },
                None => false,
            },
        }
    }

    /// The time since every look at a quota can be computed.
    pub open spec fn timely(self, now: i64) -> bool {
        forall|id: Seq<char>| #[trigger]
            self.keys@.contains_key(id) ==> state::span(
                now as int,
                self.keys@[id]@.balance_checked as int,
            )
    }

    /// The due checks among the first keys of a channel, in order.
    pub open spec fn due_keys(
        self,
        task: Task,
        c: Channel,
        now: i64,
        at: (int, int),
        n: int,
    ) -> Seq<Place>
        decreases n,
    {
        if n <= 0 {
            Seq::empty()
        } else {
            let rest = self.due_keys(task, c, now, at, n - 1);
            if self.due(task, c.keys@[n - 1], now) {
                rest.push((at.0 as usize, at.1 as usize, (n - 1) as usize))
            } else {
                rest
            }
        }
    }

    /// The due checks among the first channels of a model, in order. Channels that are switched off
    /// are passed over.
    pub open spec fn due_channels(self, task: Task, m: Model, now: i64, at: int, n: int) -> Seq<Place>
        decreases n,
    {
        if n <= 0 {
            Seq::empty()
        } else {
            let rest = self.due_channels(task, m, now, at, n - 1);
            let c = m.channels@[n - 1];
            if c.enabled {
                rest + self.due_keys(task, c, now, (at, n - 1), c.keys@.len() as int)
            } else {
                rest
            }
        }
    }

    /// The due checks among the first models, in order.
    pub open spec fn due_models(self, task: Task, models: Seq<Model>, now: i64, n: int) -> Seq<Place>
        decreases n,
    {
        if n <= 0 {
            Seq::empty()
        } else {
            self.due_models(task, models, now, n - 1) + self.due_channels(
                task,
                models[n - 1],
                now,
                n - 1,
                models[n - 1].channels@.len() as int,
            )
        }
    }

    /// The checks of keys that are due, in the order of the configuration.
    pub fn jobs(&self, task: Task, cfg: &Config, now: i64) -> (r: Vec<Place>)
        requires
            self.timely(now),
        ensures
            r@ == self.due_models(task, cfg.models@, now, cfg.models@.len() as int),
    {
        let mut r: Vec<Place> = Vec::new();
        let mut m: usize = 0;
        while m < cfg.models.len()
            invariant
                m <= cfg.models@.len(),
                self.timely(now),
                r@ == self.due_models(task, cfg.models@, now, m as int),
            decreases cfg.models@.len() - m,
        {
            let model = &cfg.models[m];
            let ghost before = r@;
            let mut c: usize = 0;
            assert(before + Seq::empty() =~= before);
            while c < model.channels.len()
                invariant
                    c <= model.channels@.len(),
                    self.timely(now),
                    r@ == before + self.due_channels(task, *model, now, m as int, c as int),
                decreases model.channels@.len() - c,
            {
                let channel = &model.channels[c];
                let ghost earlier = r@;
                if channel.enabled {
                    let mut k: usize = 0;
                    assert(earlier + Seq::empty() =~= earlier);
                    while k < channel.keys.len()
                        invariant
                            k <= channel.keys@.len(),
                            self.timely(now),
                            r@ == earlier + self.due_keys(
                                task,
                                *channel,
                                now,
                                (m as int, c as int),
                                k as int,
                            ),
                        decreases channel.keys@.len() - k,
                    {
                        let ghost all = r@;
                        if self.is_due(task, &channel.keys[k], now) {
                            r.push((m, c, k));
                            assert(r@ =~= earlier + self.due_keys(
                                task,
                                *channel,
                                now,
                                (m as int, c as int),
                                k + 1,
                            ));
                        }
                        k = k + 1;
                    }
                }
                assert(r@ =~= before + self.due_channels(task, *model, now, m as int, c + 1));
                c = c + 1;
            }
            m = m + 1;
        }
        r
    }
}

/// A key of a channel is switched on.
pub open spec fn some_key_on(c: Channel) -> bool {
    exists|i: int| 0 <= i < c.keys@.len() && (#[trigger] c.keys@[i]).enabled
}

/// A channel in use relies on a monitor.
pub open spec fn relies(c: Channel, monitor: Seq<char>) -> bool {
    c.enabled && some_key_on(c) && text::opt_view(c.monitor_id) == Some(monitor)
}

/// Some channel of a model relies on a monitor.
pub open spec fn model_relies(m: Model, monitor: Seq<char>) -> bool {
    exists|i: int| 0 <= i < m.channels@.len() && relies(#[trigger] m.channels@[i], monitor)
}

/// Some channel relies on a monitor.
pub open spec fn needed(models: Seq<Model>, monitor: Seq<char>) -> bool {
    exists|i: int| 0 <= i < models.len() && model_relies(#[trigger] models[i], monitor)
}

fn key_on(c: &Channel) -> (r: bool)
    ensures
        r == some_key_on(*c),
{
    let mut i: usize = 0;
    while i < c.keys.len()
        invariant
            i <= c.keys@.len(),
            forall|j: int| 0 <= j < i ==> !(#[trigger] c.keys@[j]).enabled,
        decreases c.keys@.len() - i,
    {
        if c.keys[i].enabled {
            return true;
        }
        i = i + 1;
    }
    false
}

fn model_needs(m: &Model, monitor: &str) -> (r: bool)
    ensures
        r == model_relies(*m, monitor@),
{
    let mut i: usize = 0;
    while i < m.channels.len()
        invariant
            i <= m.channels@.len(),
            forall|j: int| 0 <= j < i ==> !relies(#[trigger] m.channels@[j], monitor@),
        decreases m.channels@.len() - i,
    {
        let c = &m.channels[i];
        let own = match &c.monitor_id {
            Some(id) => same(id.as_str(), monitor),
            None => false,
        };
        if c.enabled && key_on(c) && own {
            return true;
        }
        i = i + 1;
    }
    false
}

fn is_needed(models: &Vec<Model>, monitor: &str) -> (r: bool)
    ensures
        r == needed(models@, monitor@),
{
    let mut i: usize = 0;
    while i < models.len()
        invariant
            i <= models@.len(),
            forall|j: int| 0 <= j < i ==> !model_relies(#[trigger] models@[j], monitor@),
        decreases models@.len() - i,
    {
        if model_needs(&models[i], monitor) {
            return true;
        }
        i = i + 1;
    }
    false
}

impl State {
    /// A monitor's check is due: a channel in use relies on it, and its time has come.
    pub open spec fn monitor_due(self, models: Seq<Model>, m: Monitor, now: i64) -> bool {
        needed(models, m.id@) && (self.quality@.contains_key(m.id@) ==> self.quality@[m.id@].next_at
            <= now)
    }

    /// The due checks among the first monitors, in order.
    pub open spec fn due_monitors(self, cfg: Config, now: i64, n: int) -> Seq<usize>
        decreases n,
    {
        if n <= 0 {
            Seq::empty()
        } else {
            let rest = self.due_monitors(cfg, now, n - 1);
            if self.monitor_due(cfg.models@, cfg.monitors@[n - 1], now) {
                rest.push((n - 1) as usize)
            } else {
                rest
            }
        }
    }

    /// The checks of monitors that are due, in the order of the configuration.
    pub fn monitor_jobs(&self, cfg: &Config, now: i64) -> (r: Vec<usize>)
        ensures
            r@ == self.due_monitors(*cfg, now, cfg.monitors@.len() as int),
    {
        let mut r: Vec<usize> = Vec::new();
        let mut i: usize = 0;
        while i < cfg.monitors.len()
            invariant
                i <= cfg.monitors@.len(),
                r@ == self.due_monitors(*cfg, now, i as int),
            decreases cfg.monitors@.len() - i,
        {
            let m = &cfg.monitors[i];
            let timely = match self.quality.get(m.id.as_str()) {
                Some(q) => q.next_at <= now,
                None => true,
            };
            if timely && is_needed(&cfg.models, m.id.as_str()) {
                r.push(i);
            }
            i = i + 1;
        }
        r
    }
}

/// What a look at a quota found: the interface and the allowance, or what went wrong.
pub type Look = Result<(Adapter, Allowance), String>;

/// The model of [`Look`].
pub open spec fn look_view(l: Look) -> Result<(Adapter, AllowanceView), Seq<char>> {
    match l {
        Ok((a, q)) => Ok((a, q@)),
        Err(e) => Err(e@),
    }
}

/// A look that needs proof: a request had found the quota exhausted, and an unlimited token quota
/// cannot show that the account behind it was topped up.
pub open spec fn doubtful(s: KeyView, look: Result<(Adapter, AllowanceView), Seq<char>>) -> bool {
    s.request_exhausted && match look {
        Ok((_, a)) => a.unlimited,
        Err(_) => false,
    }
}

/// Whether a look at a quota needs a probe to prove it.
pub fn wants_proof(state: &State, k: &Key, look: &Look) -> (r: bool)
    ensures
        r == doubtful(state.key_at(k.id@), look_view(*look)),
{
    let exhausted = match state.keys.get(k.id.as_str()) {
        Some(s) => s.request_exhausted,
        None => false,
    };
    exhausted && match look {
        Ok((_, a)) => a.unlimited,
        Err(_) => false,
    }
}

/// A look after its proof: without one, the quota counts as exhausted.
pub open spec fn proven(
    look: Result<(Adapter, AllowanceView), Seq<char>>,
    disproved: bool,
) -> Result<(Adapter, AllowanceView), Seq<char>> {
    match look {
        Ok((d, a)) => if disproved {
            Ok((d, AllowanceView { exhausted: true, ..a }))
        } else {
            look
        },
        Err(_) => look,
    }
}

impl KeyView {
    /// The key after a look at its quota. That alone does not show that its credential works again.
    pub open spec fn looked(
        self,
        look: Result<(Adapter, AllowanceView), Seq<char>>,
        now: i64,
    ) -> KeyView {
        let s = KeyView { balance_checked: now, revision: (self.revision + 1) as u64, ..self };
        match look {
            Ok((d, a)) => KeyView {
                request_exhausted: a.exhausted && self.request_exhausted,
                detected: Some(d),
                allowance: Some(a),
                balance_error: None,
                ..s
            },
            Err(e) => KeyView { balance_error: Some(e), ..s },
        }
    }

    /// The quota ran out or came back.
    pub open spec fn turned(self, look: Result<(Adapter, AllowanceView), Seq<char>>) -> bool {
        match (self.allowance, look) {
            (Some(b), Ok((_, a))) => b.exhausted != a.exhausted,
            _ => false,
        }
    }
}

/// What is said of a quota.
pub open spec fn quota_line(c: Channel, k: Key, exhausted: bool) -> Seq<char> {
    board::line_of(
        c,
        k,
        if exhausted {
            "额度耗尽"@
        } else {
            "额度恢复"@
        },
    )
}

/// What operators are told of a look at a quota.
pub open spec fn look_told(
    b: board::Board,
    s: KeyView,
    look: Result<(Adapter, AllowanceView), Seq<char>>,
    c: Channel,
    k: Key,
    webhook: bool,
    now: i64,
    id: u64,
) -> board::Board {
    match look {
        Ok((_, a)) => {
            let m = quota_line(c, k, a.exhausted);
            b.event_if(s.turned(look), now, "balance"@, m).notice_if(
                s.turned(look) && a.exhausted && webhook,
                now,
                id,
                m,
            )
        },
        Err(e) => b.event_if(
            s.balance_error != Some(e),
            now,
            "check"@,
            board::line_of(c, k, "额度查询异常："@ + e),
        ),
    }
}

/// Brings a look at a quota into the state, as of a time, unless the key's state changed since the
/// look began. `disproved` says that the look needed proof and a probe gave none.
pub fn settle_at(
    state: &mut State,
    cfg: &Config,
    c: &Channel,
    k: &Key,
    revision: u64,
    look: Look,
    disproved: bool,
    now: i64,
    id: u64,
) -> (r: bool)
    requires
        revision < u64::MAX,
    ensures
        r == (old(state).key_at(k.id@).revision == revision),
        r ==> {
            let l = proven(look_view(look), disproved);
            &&& final(state).key_changed(
                *old(state),
                k.id@,
                old(state).key_at(k.id@).looked(l, now),
            )
            &&& final(state).board() == look_told(
                old(state).board(),
                old(state).key_at(k.id@),
                l,
                *c,
                *k,
                cfg.notifies(),
                now,
                id,
            )
        },
        !r ==> final(state).key_changed(*old(state), k.id@, old(state).key_at(k.id@))
            && final(state).board() == old(state).board(),
{
    let ghost before = state.key_map();
    let ghost l = proven(look_view(look), disproved);
    let mut s = state.take_key(k.id.as_str());
    let ghost sv = s@;
    if s.revision != revision {
        state.put_key(k.id.as_str(), s);
        assert(state.key_map() =~= before.insert(k.id@, sv));
        return false;
    }
    s.balance_checked = now;
    s.revision = s.revision + 1;
    match look {
        Ok((detected, mut allowance)) => {
            if disproved {
                allowance.exhausted = true;
            }
            let exhausted = allowance.exhausted;
            let turned = match &s.allowance {
                Some(b) => b.exhausted != exhausted,
                None => false,
            };
            s.request_exhausted = exhausted && s.request_exhausted;
            s.detected = Some(detected);
            s.allowance = Some(allowance);
            s.balance_error = None;
            let ghost after = s@;
            assert(after == sv.looked(l, now));
            state.put_key(k.id.as_str(), s);
            assert(state.key_map() =~= before.insert(k.id@, after));
            let what = if exhausted {
                "额度耗尽"
            } else {
                "额度恢复"
            };
            state.event_if(turned, now, "balance", line(c, k, what));
            state.notice_if(
                turned && exhausted && cfg.has_webhook(),
                now,
                id,
                line(c, k, what),
            );
        },
        Err(reason) => {
            let changed = match &s.balance_error {
                Some(e) => !same(e.as_str(), reason.as_str()),
                None => true,
            };
            let what = "额度查询异常：".to_owned().concat(reason.as_str());
            s.balance_error = Some(reason);
            let ghost after = s@;
            assert(after == sv.looked(l, now));
            state.put_key(k.id.as_str(), s);
            assert(state.key_map() =~= before.insert(k.id@, after));
            state.event_if(changed, now, "check", line(c, k, what.as_str()));
        },
    }
    true
}

/// Brings a look at a quota into the state, unless the key's state changed since the look began.
pub fn settle(
    state: &mut State,
    cfg: &Config,
    c: &Channel,
    k: &Key,
    revision: u64,
    look: Look,
    disproved: bool,
) -> (r: bool)
    requires
        revision < u64::MAX,
    ensures
        r == (old(state).key_at(k.id@).revision == revision),
        r ==> exists|now: i64, id: u64|
            {
                &&& clock::reading(now as int)
                &&& final(state).key_changed(
                    *old(state),
                    k.id@,
                    old(state).key_at(k.id@).looked(proven(look_view(look), disproved), now),
                )
                &&& final(state).board() == #[trigger] look_told(
                    old(state).board(),
                    old(state).key_at(k.id@),
                    proven(look_view(look), disproved),
                    *c,
                    *k,
                    cfg.notifies(),
                    now,
                    id,
                )
            },
        !r ==> final(state).key_changed(*old(state), k.id@, old(state).key_at(k.id@))
            && final(state).board() == old(state).board(),
{
    let now = clock::now();
    let id = random::random_u64();
    settle_at(state, cfg, c, k, revision, look, disproved, now, id)
}

/// A look at a quota says nothing of service or credentials.
pub proof fn looks_leave_service_alone(
    s: KeyView,
    look: Result<(Adapter, AllowanceView), Seq<char>>,
    now: i64,
)
    ensures
        ({
            let t = s.looked(look, now);
            &&& t.service_failed == s.service_failed
            &&& t.credential_failed == s.credential_failed
            &&& t.suspect == s.suspect
            &&& t.retry_at == s.retry_at
            &&& t.cooldown_until == s.cooldown_until
        }),
{
}

/// After a look no other is due for five minutes.
pub proof fn looks_are_spaced(
    s: KeyView,
    look: Result<(Adapter, AllowanceView), Seq<char>>,
    now: i64,
    later: i64,
)
    requires
        later - now < 300,
    ensures
        !s.looked(look, now).balance_due(later),
{
}

/// A key whose probes are used up, or whose quota is, is not probed.
pub proof fn spent_keys_are_not_probed(s: KeyView, now: i64)
    requires
        s.probe_exhausted || s.allowance is Some && s.allowance->0.exhausted,
    ensures
        !s.service_due(now),
{
}

/// A place is that of a key of a channel that is switched on, and its check is due.
pub open spec fn due_place(s: State, task: Task, models: Seq<Model>, now: i64, p: Place) -> bool {
    &&& p.0 < models.len()
    &&& p.1 < models[p.0 as int].channels@.len()
    &&& models[p.0 as int].channels@[p.1 as int].enabled
    &&& p.2 < models[p.0 as int].channels@[p.1 as int].keys@.len()
    &&& s.due(task, models[p.0 as int].channels@[p.1 as int].keys@[p.2 as int], now)
}

proof fn sum_contains(a: Seq<Place>, b: Seq<Place>, p: Place)
    ensures
        (a + b).contains(p) == (a.contains(p) || b.contains(p)),
{
    if a.contains(p) {
        let i = choose|i: int| 0 <= i < a.len() && a[i] == p;
        assert((a + b)[i] == p);
    }
    if b.contains(p) {
        let i = choose|i: int| 0 <= i < b.len() && b[i] == p;
        assert((a + b)[a.len() + i] == p);
    }
    if (a + b).contains(p) {
        let i = choose|i: int| 0 <= i < (a + b).len() && (a + b)[i] == p;
        if i < a.len() {
            assert(a[i] == p);
        } else {
            assert(b[i - a.len()] == p);
        }
    }
}

proof fn due_keys_hold(s: State, task: Task, c: Channel, now: i64, at: (int, int), n: int, p: Place)
    requires
        0 <= n <= c.keys@.len(),
        0 <= at.0 <= usize::MAX,
        0 <= at.1 <= usize::MAX,
    ensures
        s.due_keys(task, c, now, at, n).contains(p) <==> p.0 == at.0 && p.1 == at.1 && p.2 < n
            && s.due(task, c.keys@[p.2 as int], now),
    decreases n,
{
    if n > 0 {
        assert(c.keys.len() == c.keys@.len());
        due_keys_hold(s, task, c, now, at, n - 1, p);
        let rest = s.due_keys(task, c, now, at, n - 1);
        let last: Place = (at.0 as usize, at.1 as usize, (n - 1) as usize);
        if s.due(task, c.keys@[n - 1], now) {
            sum_contains(rest, seq![last], p);
            assert(rest.push(last) =~= rest + seq![last]);
            assert(seq![last].contains(p) == (p == last)) by {
                assert(seq![last][0] == last);
            }
        }
    }
}

proof fn due_channels_hold(s: State, task: Task, m: Model, now: i64, at: int, n: int, p: Place)
    requires
        0 <= n <= m.channels@.len(),
        0 <= at <= usize::MAX,
    ensures
        s.due_channels(task, m, now, at, n).contains(p) <==> p.0 == at && p.1 < n
            && m.channels@[p.1 as int].enabled && p.2 < m.channels@[p.1 as int].keys@.len()
            && s.due(task, m.channels@[p.1 as int].keys@[p.2 as int], now),
    decreases n,
{
    if n > 0 {
        assert(m.channels.len() == m.channels@.len());
        due_channels_hold(s, task, m, now, at, n - 1, p);
        let c = m.channels@[n - 1];
        due_keys_hold(s, task, c, now, (at, n - 1), c.keys@.len() as int, p);
        sum_contains(
            s.due_channels(task, m, now, at, n - 1),
            s.due_keys(task, c, now, (at, n - 1), c.keys@.len() as int),
            p,
        );
    }
}

/// The checks that are done are those that are due, and no others.
pub proof fn due_checks_are_done(s: State, task: Task, models: Seq<Model>, now: i64, n: int, p: Place)
    requires
        0 <= n <= models.len() <= usize::MAX,
    ensures
        s.due_models(task, models, now, n).contains(p) <==> p.0 < n && due_place(
            s,
            task,
            models,
            now,
            p,
        ),
    decreases n,
{
    if n > 0 {
        due_checks_are_done(s, task, models, now, n - 1, p);
        let m = models[n - 1];
        due_channels_hold(s, task, m, now, n - 1, m.channels@.len() as int, p);
        sum_contains(
            s.due_models(task, models, now, n - 1),
            s.due_channels(task, m, now, n - 1, m.channels@.len() as int),
            p,
        );
    }
}

/// A look at a quota that failed is no evidence: what was known of the quota stays, whether a request
/// had found it exhausted too, and the key may serve exactly when it might have. Only the time and
/// the reason are noted.
pub proof fn failed_looks_are_no_evidence(s: KeyView, e: Seq<char>, now: i64, later: int)
    requires
        s.revision < u64::MAX,
    ensures
        s.looked(Err(e), now).allowance == s.allowance,
        s.looked(Err(e), now).request_exhausted == s.request_exhausted,
        s.looked(Err(e), now).detected == s.detected,
        s.looked(Err(e), now).eligible(later) == s.eligible(later),
        s.looked(Err(e), now).balance_error == Some(e),
        s.looked(Err(e), now).balance_checked == now,
        s.looked(Err(e), now).revision == s.revision + 1,
        s.looked(Err(e), now) == (KeyView {
            balance_error: s.looked(Err(e), now).balance_error,
            balance_checked: s.looked(Err(e), now).balance_checked,
            revision: s.looked(Err(e), now).revision,
            ..s
        }),
        proven(Err(e), true) == Err::<(Adapter, AllowanceView), Seq<char>>(e),
        proven(Err(e), false) == Err::<(Adapter, AllowanceView), Seq<char>>(e),
{
}

/// A look at a quota that succeeded leaves the allowance and the interface that it found, and no
/// complaint. That a request had found the quota exhausted is forgotten exactly where something is
/// left.
pub proof fn looks_leave_what_they_found(s: KeyView, d: Adapter, a: AllowanceView, now: i64, later: int)
    requires
        s.revision < u64::MAX,
    ensures
        ({
            let t = s.looked(Ok((d, a)), now);
            &&& t.allowance == Some(a)
            &&& t.detected == Some(d)
            &&& t.balance_error is None
            &&& t.balance_checked == now
            &&& t.revision == s.revision + 1
            &&& t == (KeyView {
                allowance: t.allowance,
                detected: t.detected,
                balance_error: t.balance_error,
                balance_checked: t.balance_checked,
                revision: t.revision,
                request_exhausted: t.request_exhausted,
                ..s
            })
            &&& !a.exhausted ==> !t.request_exhausted
            &&& a.exhausted ==> t.request_exhausted == s.request_exhausted
            &&& a.exhausted || a.expires_at is Some && a.expires_at->0 <= later ==> !t.eligible(
                later,
            )
            &&& !a.exhausted && a.expires_at is None ==> t.eligible(later) == (KeyView {
                allowance: None,
                ..s
            }).eligible(later)
        }),
{
}

/// An unlimited quota proves nothing where a request had found it exhausted: a probe decides. Without
/// an answer the quota counts as exhausted, with one as it was found. No other look needs proof.
pub proof fn doubtful_looks_need_proof(s: KeyView, d: Adapter, a: AllowanceView, e: Seq<char>, now: i64)
    ensures
        doubtful(s, Ok((d, a))) <==> s.request_exhausted && a.unlimited,
        !doubtful(s, Err(e)),
        s.looked(proven(Ok((d, a)), true), now).allowance == Some(
            AllowanceView { exhausted: true, ..a },
        ),
        s.looked(proven(Ok((d, a)), true), now).request_exhausted == s.request_exhausted,
        s.looked(proven(Ok((d, a)), true), now).detected == Some(d),
        proven(Ok((d, a)), false) == Ok::<(Adapter, AllowanceView), Seq<char>>((d, a)),
{
}

/// A quota is looked at where its key is switched on, and was never looked at or last five minutes ago
/// or more.
pub proof fn quotas_are_due(s: State, k: Key, now: i64)
    ensures
        !k.enabled ==> !s.due(Task::Balance, k, now),
        k.enabled && !s.keys@.contains_key(k.id@) ==> s.due(Task::Balance, k, now),
        k.enabled && s.keys@.contains_key(k.id@) ==> (s.due(Task::Balance, k, now) <==> now
            >= s.keys@[k.id@].balance_checked + 300),
{
}

/// The service of a key is probed where the key is switched on, is under suspicion or failed, its time
/// has come, and neither its probes nor its quota are used up. Everything else about it plays no part.
pub proof fn services_are_due(s: State, k: Key, now: i64)
    ensures
        !k.enabled || !s.keys@.contains_key(k.id@) ==> !s.due(Task::Service, k, now),
        k.enabled && s.keys@.contains_key(k.id@) ==> ({
            let x = s.keys@[k.id@];
            s.due(Task::Service, k, now) <==> {
                &&& x.suspect || x.service_failed
                &&& !x.probe_exhausted
                &&& x.retry_at <= now
                &&& x.allowance is None || !(x.allowance->0).exhausted
            }
        }),
{
}

/// A key in service is not probed.
pub proof fn keys_in_service_are_not_probed(s: State, k: Key, now: i64)
    requires
        s.keys@.contains_key(k.id@),
        s.keys@[k.id@]@.eligible(now as int),
    ensures
        !s.due(Task::Service, k, now),
{
}

/// A monitor is asked exactly where some channel that is switched on, with a key that is, relies on
/// it, and it was never asked or its time has come.
pub proof fn monitors_are_due(s: State, models: Seq<Model>, m: Monitor, now: i64)
    ensures
        s.monitor_due(models, m, now) <==> {
            &&& exists|i: int, c: int, k: int|
                0 <= i < models.len() && 0 <= c < models[i].channels@.len() && 0 <= k
                    < models[i].channels@[c].keys@.len()
                    && #[trigger] in_use_by(models[i].channels@[c], k, m.id@)
            &&& !s.quality@.contains_key(m.id@) || s.quality@[m.id@].next_at <= now
        },
{
    if needed(models, m.id@) {
        let i = choose|i: int| 0 <= i < models.len() && model_relies(#[trigger] models[i], m.id@);
        let c = choose|c: int|
            0 <= c < models[i].channels@.len() && relies(
                #[trigger] models[i].channels@[c],
                m.id@,
            );
        let k = choose|k: int|
            0 <= k < models[i].channels@[c].keys@.len()
                && (#[trigger] models[i].channels@[c].keys@[k]).enabled;
        assert(in_use_by(models[i].channels@[c], k, m.id@));
    }
    if exists|i: int, c: int, k: int|
        0 <= i < models.len() && 0 <= c < models[i].channels@.len() && 0 <= k
            < models[i].channels@[c].keys@.len()
            && #[trigger] in_use_by(models[i].channels@[c], k, m.id@) {
        let (i, c, k) = choose|i: int, c: int, k: int|
            0 <= i < models.len() && 0 <= c < models[i].channels@.len() && 0 <= k
                < models[i].channels@[c].keys@.len()
                && #[trigger] in_use_by(models[i].channels@[c], k, m.id@);
        assert(some_key_on(models[i].channels@[c]));
        assert(relies(models[i].channels@[c], m.id@));
        assert(model_relies(models[i], m.id@));
    }
}

/// A channel is switched on, one of its keys too, and a monitor is the channel's own.
pub open spec fn in_use_by(c: Channel, k: int, monitor: Seq<char>) -> bool {
    &&& c.enabled
    &&& c.keys@[k].enabled
    &&& c.monitor_id is Some
    &&& c.monitor_id->0@ == monitor
}

/// The monitors that are asked are those that are due, and no others, each once and in the order of
/// the configuration.
pub proof fn due_monitors_are_asked(s: State, cfg: Config, now: i64, n: int, p: usize)
    requires
        0 <= n <= cfg.monitors@.len(),
    ensures
        s.due_monitors(cfg, now, n).contains(p) <==> p < n && s.monitor_due(
            cfg.models@,
            cfg.monitors@[p as int],
            now,
        ),
        forall|i: int, j: int|
            0 <= i < j < s.due_monitors(cfg, now, n).len() ==> #[trigger] s.due_monitors(
                cfg,
                now,
                n,
            )[i] < #[trigger] s.due_monitors(cfg, now, n)[j],
        forall|i: int|
            0 <= i < s.due_monitors(cfg, now, n).len() ==> #[trigger] s.due_monitors(cfg, now, n)[i]
                < n,
    decreases n,
{
    if n > 0 {
        assert(cfg.monitors.len() == cfg.monitors@.len());
        due_monitors_are_asked(s, cfg, now, n - 1, p);
        let rest = s.due_monitors(cfg, now, n - 1);
        let all = s.due_monitors(cfg, now, n);
        if s.monitor_due(cfg.models@, cfg.monitors@[n - 1], now) {
            assert(all[rest.len() as int] == n - 1);
            if rest.contains(p) {
                let i = choose|i: int| 0 <= i < rest.len() && rest[i] == p;
                assert(all[i] == p);
            }
            if all.contains(p) {
                let i = choose|i: int| 0 <= i < all.len() && all[i] == p;
                if i < rest.len() {
                    assert(rest[i] == p);
                }
            }
        }
    }
}

/// Operators are told when a known quota runs out or comes back, and only then; that one ran out also
/// goes to the webhook, where there is one.
pub proof fn turns_of_quotas_are_told(
    b: board::Board,
    s: KeyView,
    d: Adapter,
    a: AllowanceView,
    c: Channel,
    k: Key,
    webhook: bool,
    now: i64,
    id: u64,
)
    ensures
        ({
            let t = look_told(b, s, Ok((d, a)), c, k, webhook, now, id);
            let turned = s.allowance is Some && (s.allowance->0).exhausted != a.exhausted;
            &&& !turned ==> t == b
            &&& turned && !a.exhausted ==> t == b.event(
                now,
                "balance"@,
                board::line_of(c, k, "额度恢复"@),
            )
            &&& turned && a.exhausted && !webhook ==> t == b.event(
                now,
                "balance"@,
                board::line_of(c, k, "额度耗尽"@),
            )
            &&& turned && a.exhausted && webhook ==> t == b.event(
                now,
                "balance"@,
                board::line_of(c, k, "额度耗尽"@),
            ).notice(now, id, board::line_of(c, k, "额度耗尽"@))
        }),
{
}

/// The same complaint about a quota is noted once, and never goes to the webhook.
pub proof fn complaints_are_told_once(
    b: board::Board,
    s: KeyView,
    e: Seq<char>,
    c: Channel,
    k: Key,
    webhook: bool,
    now: i64,
    id: u64,
)
    ensures
        look_told(b, s.looked(Err(e), now), Err(e), c, k, webhook, now, id) == b,
        s.balance_error != Some(e) ==> look_told(b, s, Err(e), c, k, webhook, now, id) == b.event(
            now,
            "check"@,
            board::line_of(c, k, "额度查询异常："@ + e),
        ),
        look_told(b, s, Err(e), c, k, webhook, now, id).queue == b.queue,
{
}

} // verus!
