//! Checks of quality: a question with a known answer, a schedule, and reports.
use crate::board;
use crate::clock;
use crate::config;
use crate::config::{Config, Monitor, MonitorPeriod};
use crate::json;
use crate::json::{array, at, member, object, str_of, Json, JsonView};
use crate::random;
use crate::state;
use crate::state::{NoticeView, PointView, Quality, QualityPoint, QualityView, State};
use crate::text;
use crate::text::{chars, ends_with, is_empty, is_numeric, number, same, strip_suffix, trim_end_matches};
use vstd::prelude::*;
use vstd::string::*;

verus! {

/// The question.
pub const CANDY: &'static str = "不使用任何外部工具回答以下问题：\n\n在一个黑色的袋子里放有三种口味的糖果，每种糖果有两种不同的形状（圆形和五角星形，不同的形状靠手感可以分辨）。现已知不同口味的糖和不同形状的数量统计如下表。参赛者需要在活动前决定摸出的糖果数目，那么，最少取出多少个糖果才能保证手中同时拥有不同形状的苹果味和桃子味的糖？（同时手中有圆形苹果味匹配五角星桃子味糖果，或者有圆形桃子味匹配五角星苹果味糖果都满足要求）\n\n        苹果味  桃子味  西瓜味\n圆形       7      9      8\n五角星形   7      6      4\n";

/// The number 21 stands at a place, with no digit beside it.
pub open spec fn answers_at(c: Seq<char>, i: int) -> bool {
    &&& 0 <= i
    &&& i + 1 < c.len()
    &&& c[i] == '2'
    &&& c[i + 1] == '1'
    &&& i == 0 || !text::numeric(c[i - 1])
    &&& i + 2 == c.len() || !text::numeric(c[i + 2])
}

/// Whether a text holds the number 21, with no digit beside it.
pub fn judge(text: &str) -> (r: bool)
    ensures
        r == exists|i: int| #[trigger] answers_at(text@, i),
{
    let c = chars(text);
    let n = c.len();
    let mut i: usize = 0;
    while i < n
        invariant
            i <= n == c@.len(),
            c@ == text@,
            forall|j: int| 0 <= j < i ==> !#[trigger] answers_at(text@, j),
        decreases n - i,
    {
        if n - i >= 2 && c[i] == '2' && c[i + 1] == '1' && (i == 0 || !is_numeric(c[i - 1])) && (n
            - i == 2 || !is_numeric(c[i + 2])) {
            assert(answers_at(text@, i as int));
            return true;
        }
        assert(!answers_at(text@, i as int));
        i = i + 1;
    }
    false
}

/// The first period that holds a minute of the day.
pub open spec fn period_at(periods: Seq<MonitorPeriod>, minute: int) -> Option<MonitorPeriod>
    decreases periods.len(),
{
    if periods.len() == 0 {
        None
    } else {
        match period_at(periods.drop_last(), minute) {
            Some(p) => Some(p),
            None => if periods.last().covers(minute) {
                Some(periods.last())
            } else {
                None
            },
        }
    }
}

/// A check is due at a minute of the day: at the period's distance from its start or, outside of all
/// periods, every twenty minutes.
pub open spec fn due_at(periods: Seq<MonitorPeriod>, minute: int) -> bool {
    match period_at(periods, minute) {
        Some(p) => {
            let since = (minute + 1440 - p.start) % 1440;
            if p.interval_minutes == 0 {
                since == 0
            } else {
                since % (p.interval_minutes as int) == 0
            }
        },
        None => minute % 20 == 0,
    }
}

/// The start of the minute that comes a number of minutes after a time.
pub open spec fn minute_start(now: int, j: int) -> int {
    60 * (now / 60 + j)
}

/// The first due minute from a number of minutes after a time, within a day.
pub open spec fn first_due(now: int, periods: Seq<MonitorPeriod>, j: int) -> int
    decreases 1442 - j,
{
    if j > 1441 {
        now + 86400
    } else if due_at(periods, clock::local_minute(minute_start(now, j))) {
        minute_start(now, j)
    } else {
        first_due(now, periods, j + 1)
    }
}

/// The time of the next check.
pub open spec fn next_at(now: int, periods: Seq<MonitorPeriod>) -> int {
    first_due(now, periods, 1)
}

/// The distance of a minute of the day from the start of its period can be computed.
pub open spec fn readable(periods: Seq<MonitorPeriod>, minute: int) -> bool {
    match period_at(periods, minute) {
        Some(p) => p.start <= minute + 1440,
        None => true,
    }
}

/// Every minute of the day is readable.
pub open spec fn placed(periods: Seq<MonitorPeriod>) -> bool {
    forall|minute: int| 0 <= minute < 1440 ==> #[trigger] readable(periods, minute)
}

/// Every minute that is tried from a number of minutes after a time, up to the first due one, is
/// readable, as far as dates carry them.
pub open spec fn legible(now: int, periods: Seq<MonitorPeriod>, j: int) -> bool
    decreases 1442 - j,
{
    let t = minute_start(now, j);
    j > 1441 || !clock::instant(t) || {
        &&& readable(periods, clock::local_minute(t))
        &&& due_at(periods, clock::local_minute(t)) || legible(now, periods, j + 1)
    }
}

/// Every minute that is tried from a number of minutes after a time, up to the first due one, is
/// carried by a date and readable.
pub open spec fn reachable(now: int, periods: Seq<MonitorPeriod>, j: int) -> bool
    decreases 1442 - j,
{
    let t = minute_start(now, j);
    j > 1441 || {
        &&& clock::instant(t)
        &&& readable(periods, clock::local_minute(t))
        &&& due_at(periods, clock::local_minute(t)) || reachable(now, periods, j + 1)
    }
}

/// The schedule gives a next check: dates carry all minutes that are tried for it.
pub open spec fn followable(now: int, periods: Seq<MonitorPeriod>) -> bool {
    reachable(now, periods, 1)
}

proof fn reachable_is_legible(now: int, periods: Seq<MonitorPeriod>, j: int)
    requires
        reachable(now, periods, j),
    ensures
        legible(now, periods, j),
    decreases 1442 - j,
{
    if j <= 1441 && !due_at(periods, clock::local_minute(minute_start(now, j))) {
        reachable_is_legible(now, periods, j + 1);
    }
}

proof fn placed_is_legible(now: int, periods: Seq<MonitorPeriod>, j: int)
    requires
        placed(periods),
    ensures
        legible(now, periods, j),
    decreases 1442 - j,
{
    if j <= 1441 {
        assert(readable(periods, clock::local_minute(minute_start(now, j))));
        placed_is_legible(now, periods, j + 1);
    }
}

fn is_due(periods: &[MonitorPeriod], minute: u16) -> (r: bool)
    requires
        minute < 1440,
        readable(periods@, minute as int),
    ensures
        r == due_at(periods@, minute as int),
{
    let mut i: usize = 0;
    assert(periods@.take(0) =~= Seq::empty());
    while i < periods.len()
        invariant
            i <= periods@.len(),
            minute < 1440,
            readable(periods@, minute as int),
            period_at(periods@.take(i as int), minute as int) is None,
        decreases periods@.len() - i,
    {
        assert(periods@.take(i + 1).drop_last() =~= periods@.take(i as int));
        let p = &periods[i];
        if p.contains(minute) {
            proof {
                period_stays(periods@, minute as int, i + 1);
            }
            return ((minute + 1440 - p.start) % 1440).is_multiple_of(p.interval_minutes);
        }
        i = i + 1;
    }
    assert(periods@.take(periods@.len() as int) =~= periods@);
    minute.is_multiple_of(20)
}

proof fn period_stays(s: Seq<MonitorPeriod>, minute: int, n: int)
    requires
        0 <= n <= s.len(),
        period_at(s.take(n), minute) is Some,
    ensures
        period_at(s, minute) == period_at(s.take(n), minute),
    decreases s.len(),
{
    if n == s.len() {
        assert(s.take(n) =~= s);
    } else {
        assert(s.drop_last().take(n) =~= s.take(n));
        period_stays(s.drop_last(), minute, n);
    }
}

fn whole_minutes(now: i64) -> (r: i64)
    ensures
        r == now as int / 60,
{
    let q = now / 60;
    if now % 60 < 0 {
        q - 1
    } else {
        q
    }
}

/// The time of the next check, where dates carry all minutes that are tried for it.
fn seek_next(now: i64, periods: &[MonitorPeriod]) -> (r: Option<i64>)
    requires
        legible(now as int, periods@, 1),
    ensures
        match r {
            Some(t) => followable(now as int, periods@) && t == next_at(now as int, periods@),
            None => !followable(now as int, periods@),
        },
{
    if now < clock::FIRST_SECOND - 86400 || now > clock::LAST_SECOND {
        return None;
    }
    let base = whole_minutes(now);
    let mut j: i64 = 1;
    while j <= 1441
        invariant
            1 <= j <= 1442,
            base == now as int / 60,
            clock::FIRST_SECOND - 86400 <= now <= clock::LAST_SECOND,
            legible(now as int, periods@, j as int),
            followable(now as int, periods@) == reachable(now as int, periods@, j as int),
            next_at(now as int, periods@) == first_due(now as int, periods@, j as int),
        decreases 1442 - j,
    {
        let t = (base + j) * 60;
        if t < clock::FIRST_SECOND || t > clock::LAST_SECOND {
            return None;
        }
        if is_due(periods, clock::minute_of_day(t)) {
            return Some(t);
        }
        j = j + 1;
    }
    Some(now + 86400)
}

/// The time of the next check.
pub fn next(now: i64, periods: &[MonitorPeriod]) -> (r: i64)
    requires
        followable(now as int, periods@),
    ensures
        r == next_at(now as int, periods@),
{
    proof {
        reachable_is_legible(now as int, periods@, 1);
    }
    match seek_next(now, periods) {
        Some(t) => t,
        None => now,
    }
}

/// The time of the next check, where dates carry one.
pub fn next_date(now: i64, periods: &[MonitorPeriod]) -> (r: Option<i64>)
    requires
        placed(periods@),
    ensures
        match r {
            Some(t) => followable(now as int, periods@) && t == next_at(now as int, periods@),
            None => !followable(now as int, periods@),
        },
{
    proof {
        placed_is_legible(now as int, periods@, 1);
    }
    seek_next(now, periods)
}

proof fn followable_times(now: int, periods: Seq<MonitorPeriod>)
    requires
        followable(now, periods),
    ensures
        now + 86760 <= i64::MAX,
        i64::MIN <= now,
{
}

/// The address at which a monitored upstream answers chats.
pub open spec fn chat_url_of(base: Seq<char>) -> Seq<char> {
    let a = text::trimmed_end(base, '/');
    let b = config::without(a, "/chat/completions"@);
    let c = config::without(b, "/responses"@);
    let root = if text::ends(c, "/v1"@) {
        c
    } else {
        c + "/v1"@
    };
    root + "/chat/completions"@
}

fn cut_suffix(s: String, suffix: &str) -> (r: String)
    ensures
        r@ == config::without(s@, suffix@),
{
    match strip_suffix(s.as_str(), suffix) {
        Some(t) => t,
        None => s,
    }
}

/// The address at which a monitored upstream answers chats.
pub fn chat_url(base: &str) -> (r: String)
    ensures
        r@ == chat_url_of(base@),
{
    let a = trim_end_matches(base, '/');
    let b = cut_suffix(a, "/chat/completions");
    let c = cut_suffix(b, "/responses");
    let root = if ends_with(c.as_str(), "/v1") {
        c
    } else {
        c.concat("/v1")
    };
    root.concat("/chat/completions")
}

/// The document of a check.
pub open spec fn question_document(model: Seq<char>) -> JsonView {
    JsonView::Object(
        seq![
            ("model"@, JsonView::Text(model)),
            (
                "messages"@,
                JsonView::Array(
                    seq![
                        JsonView::Object(
                            seq![
                                ("role"@, JsonView::Text("user"@)),
                                ("content"@, JsonView::Text(CANDY@)),
                            ],
                        ),
                    ],
                ),
            ),
            ("stream"@, JsonView::Bool(false)),
            (
                "thinking"@,
                JsonView::Object(seq![("type"@, JsonView::Text("enabled"@))]),
            ),
            ("reasoning_effort"@, JsonView::Text("low"@)),
        ],
    )
}

/// The document of a check.
pub fn question(m: &Monitor) -> (r: Json)
    ensures
        r@ == question_document(m.model@),
{
    let message = vec![
        member("role", Json::text("user")),
        member("content", Json::text(CANDY)),
    ];
    assert(json::all_members(message@) =~= seq![
        ("role"@, JsonView::Text("user"@)),
        ("content"@, JsonView::Text(CANDY@)),
    ]);
    let messages = vec![object(message)];
    assert(json::all(messages@) =~= seq![
        JsonView::Object(
            seq![("role"@, JsonView::Text("user"@)), ("content"@, JsonView::Text(CANDY@))],
        ),
    ]);
    let thinking = vec![member("type", Json::text("enabled"))];
    assert(json::all_members(thinking@) =~= seq![("type"@, JsonView::Text("enabled"@))]);
    let members = vec![
        member("model", Json::text(m.model.as_str())),
        member("messages", array(messages)),
        member("stream", Json::Bool(false)),
        member("thinking", object(thinking)),
        member("reasoning_effort", Json::text("low")),
    ];
    let r = object(members);
    assert(r@->Object_0 =~= question_document(m.model@)->Object_0);
    r
}

/// The first element of an array, or null.
pub open spec fn first_item(v: JsonView) -> JsonView {
    match v.as_items() {
        Some(s) => if s.len() > 0 {
            s[0]
        } else {
            JsonView::Null
        },
        None => JsonView::Null,
    }
}

fn first_of<'a>(v: Option<&'a Json>) -> (r: Option<&'a Json>)
    ensures
        json::seen(r) == first_item(json::seen(v)),
{
    match json::items_of(v) {
        Some(s) => if s.len() > 0 {
            assert(json::all(s@)[0] == s@[0]@);
            Some(&s[0])
        } else {
            None
        },
        None => None,
    }
}

/// What a reply says: whether its answer is right, or why there is none.
pub open spec fn reply_says(v: JsonView) -> Result<bool, Seq<char>> {
    let choice = first_item(v.at("choices"@));
    match choice.at("message"@).at("content"@).as_str() {
        Some(t) => if t.len() == 0 {
            Err("检测响应缺少答案"@)
        } else if choice.at("finish_reason"@).as_str() == Some("length"@) {
            Err("检测答案被截断"@)
        } else {
            Ok(exists|i: int| #[trigger] answers_at(t, i))
        },
        None => Err("检测响应缺少答案"@),
    }
}

/// The model of an outcome.
pub open spec fn outcome_view(o: Result<bool, String>) -> Result<bool, Seq<char>> {
    match o {
        Ok(b) => Ok(b),
        Err(e) => Err(e@),
    }
}

/// What a reply says: whether its answer is right, or why there is none.
pub fn read_reply(v: &Json) -> (r: Result<bool, String>)
    ensures
        outcome_view(r) == reply_says(v@),
{
    let choice = first_of(at(Some(v), "choices"));
    match str_of(at(at(choice, "message"), "content")) {
        Some(t) => {
            if is_empty(t.as_str()) {
                return Err("检测响应缺少答案".to_owned());
            }
            let cut = match str_of(at(choice, "finish_reason")) {
                Some(f) => same(f.as_str(), "length"),
                None => false,
            };
            if cut {
                return Err("检测答案被截断".to_owned());
            }
            Ok(judge(t.as_str()))
        },
        None => Err("检测响应缺少答案".to_owned()),
    }
}

/// The verdict of an outcome.
pub open spec fn verdict_of(o: Result<bool, Seq<char>>) -> Seq<char> {
    match o {
        Ok(true) => "healthy"@,
        Ok(false) => "degraded"@,
        Err(_) => "unknown"@,
    }
}

fn verdict(o: &Result<bool, String>) -> (r: &'static str)
    ensures
        r@ == verdict_of(outcome_view(*o)),
{
    match o {
        Ok(true) => "healthy",
        Ok(false) => "degraded",
        Err(_) => "unknown",
    }
}

impl QualityView {
    /// The quality after a check. A check without a definite outcome leaves the last definite verdict
    /// in force until it expires.
    pub open spec fn judged(
        self,
        o: Result<bool, Seq<char>>,
        response_ms: u64,
        now: i64,
        periods: Seq<MonitorPeriod>,
    ) -> QualityView {
        let next = next_at(now as int, periods) as i64;
        let definite = o is Ok;
        QualityView {
            response_ms: if definite {
                Some(response_ms)
            } else {
                None
            },
            verdict: verdict_of(o),
            checked_at: now,
            next_at: next,
            last_definite: if definite {
                verdict_of(o)
            } else {
                self.last_definite
            },
            valid_until: if definite {
                (next + 300) as i64
            } else {
                self.valid_until
            },
            error: match o {
                Ok(_) => Seq::empty(),
                Err(e) => e,
            },
            history: state::last_of(self.history, 71).push(
                PointView { at: now, verdict: verdict_of(o) },
            ),
        }
    }
}

proof fn next_bounds(now: int, periods: Seq<MonitorPeriod>, j: int)
    requires
        1 <= j <= 1442,
    ensures
        now < first_due(now, periods, j) <= now + 86460,
    decreases 1442 - j,
{
    if j <= 1441 {
        next_bounds(now, periods, j + 1);
    }
}

/// The next check comes within a day and a minute.
pub proof fn next_is_soon(now: int, periods: Seq<MonitorPeriod>)
    ensures
        now < next_at(now, periods) <= now + 86460,
{
    next_bounds(now, periods, 1);
}

impl Quality {
    fn note(&mut self, now: i64, verdict: &str)
        ensures
            final(self)@ == (QualityView {
                history: state::last_of(old(self)@.history, 71).push(
                    PointView { at: now, verdict: verdict@ },
                ),
                ..old(self)@
            }),
    {
        let ghost all = self.history@;
        let size = self.history.len();
        let mut dropped: usize = 0;
        assert(all.skip(0) =~= all);
        while self.history.len() >= 72
            invariant
                size == all.len(),
                self.history@ == all.skip(dropped as int),
                self.history@.len() + dropped == size,
                dropped > 0 ==> self.history@.len() >= 71,
                *self == (Quality { history: self.history, ..*old(self) }),
            decreases self.history@.len(),
        {
            self.history.pop_front();
            assert(all.skip(dropped as int).skip(1) =~= all.skip(dropped + 1));
            assert(self.history@ =~= all.skip(dropped + 1));
            dropped = dropped + 1;
        }
        let ghost kept = self.history@;
        assert(state::point_views(kept) =~= state::last_of(state::point_views(all), 71));
        let p = QualityPoint { at: now, verdict: verdict.to_owned() };
        let ghost pv = p@;
        self.history.push_back(p);
        assert(self@.history =~= state::point_views(kept).push(pv));
    }

    /// Brings the outcome of a check into the quality.
    pub fn record(
        &mut self,
        outcome: Result<bool, String>,
        response_ms: u64,
        now: i64,
        periods: &[MonitorPeriod],
    )
        requires
            followable(now as int, periods@),
        ensures
            final(self)@ == old(self)@.judged(
                outcome_view(outcome),
                response_ms,
                now,
                periods@,
            ),
    {
        let v = verdict(&outcome);
        proof {
            next_is_soon(now as int, periods@);
            followable_times(now as int, periods@);
        }
        self.note(now, v);
        self.verdict = v.to_owned();
        self.checked_at = now;
        self.next_at = next(now, periods);
        match outcome {
            Ok(_) => {
                self.response_ms = Some(response_ms);
                self.last_definite = v.to_owned();
                self.valid_until = self.next_at + 300;
                self.error = String::new();
                assert(self@.error =~= Seq::empty());
            },
            Err(e) => {
                self.response_ms = None;
                self.error = e;
            },
        }
    }
}

/// What operators are told of a verdict.
pub open spec fn verdict_line(name: Seq<char>, o: Result<bool, Seq<char>>) -> Seq<char> {
    "监控 "@ + name + "："@ + (match o {
        Ok(true) => "满血"@,
        Ok(false) => "降智"@,
        Err(_) => "检测异常，保留未过期的上次结论"@,
    })
}

/// What operators are told of an upstream that lost its quality.
pub open spec fn decline_line(m: Monitor) -> Seq<char> {
    "降智提醒："@ + m.name@ + "（"@ + m.id@ + "）已从满血变为降智，关联渠道暂停使用。"@
}

impl State {
    /// What is known of a monitor: nothing, where it was never checked.
    pub open spec fn quality_at(self, id: Seq<char>) -> QualityView {
        if self.quality@.contains_key(id) {
            self.quality@[id]@
        } else {
            QualityView::blank()
        }
    }
}

/// What operators are told of a check.
pub open spec fn check_told(
    b: board::Board,
    q: QualityView,
    o: Result<bool, Seq<char>>,
    cfg: Config,
    m: Monitor,
    now: i64,
    id: u64,
) -> board::Board {
    b.event_if(q.verdict != verdict_of(o), now, "quality"@, verdict_line(m.name@, o)).notice_if(
        q.last_definite == "healthy"@ && o == Ok::<bool, Seq<char>>(false) && cfg.notifies()
            && !cfg.notify_all_monitors,
        now,
        id,
        decline_line(m),
    )
}

/// Brings the outcome of a monitor's check into the state, as of a time.
pub fn settle_at(
    state: &mut State,
    cfg: &Config,
    m: &Monitor,
    outcome: Result<bool, String>,
    response_ms: u64,
    now: i64,
    id: u64,
)
    requires
        followable(now as int, cfg.monitor_schedule@),
    ensures
        settled(
            *old(state),
            *final(state),
            *cfg,
            *m,
            outcome_view(outcome),
            response_ms,
            now,
            id,
        ),
{
    let ghost all = state::quality_views(state.quality@);
    let ghost o = outcome_view(outcome);
    let mut q = match state.quality.remove(m.id.as_str()) {
        Some(q) => q,
        None => Quality::default(),
    };
    let ghost before = q@;
    let v = verdict(&outcome);
    let changed = !same(q.verdict.as_str(), v);
    let was_healthy = same(q.last_definite.as_str(), "healthy");
    let (word, degraded) = match &outcome {
        Ok(true) => ("满血", false),
        Ok(false) => ("降智", true),
        Err(_) => ("检测异常，保留未过期的上次结论", false),
    };
    q.record(outcome, response_ms, now, cfg.monitor_schedule.as_slice());
    let ghost after = q@;
    state.quality.insert(m.id.clone(), q);
    assert(state::quality_views(state.quality@) =~= all.insert(m.id@, after));
    let head = "监控 ".to_owned().concat(m.name.as_str()).concat("：");
    state.event_if(changed, now, "quality", head.concat(word));
    let tail = "降智提醒：".to_owned().concat(m.name.as_str()).concat("（").concat(m.id.as_str());
    state.notice_if(
        was_healthy && degraded && cfg.has_webhook() && !cfg.notify_all_monitors,
        now,
        id,
        tail.concat("）已从满血变为降智，关联渠道暂停使用。"),
    );
}

/// A monitor's check came into a state, as of a time and under an identifier for a notice.
pub open spec fn settled(
    before: State,
    after: State,
    cfg: Config,
    m: Monitor,
    o: Result<bool, Seq<char>>,
    response_ms: u64,
    now: i64,
    id: u64,
) -> bool {
    &&& after == (State {
        quality: after.quality,
        events: after.events,
        notices: after.notices,
        ..before
    })
    &&& state::quality_views(after.quality@) == state::quality_views(before.quality@).insert(
        m.id@,
        before.quality_at(m.id@).judged(o, response_ms, now, cfg.monitor_schedule@),
    )
    &&& after.board() == check_told(
        before.board(),
        before.quality_at(m.id@),
        o,
        cfg,
        m,
        now,
        id,
    )
}

/// A monitor's check came into a state exactly where the schedule gives a next check that a date carries;
/// else nothing changed.
pub open spec fn settled_or_not(
    r: bool,
    before: State,
    after: State,
    cfg: Config,
    m: Monitor,
    o: Result<bool, Seq<char>>,
    response_ms: u64,
    now: i64,
    id: u64,
) -> bool {
    &&& r == followable(now as int, cfg.monitor_schedule@)
    &&& r ==> settled(before, after, cfg, m, o, response_ms, now, id)
    &&& !r ==> after == before
}

/// Brings the outcome of a monitor's check into the state, as of a time, where the schedule gives a next
/// check that a date carries. At the end of the calendar it may not: then nothing changes.
pub fn settle_by(
    state: &mut State,
    cfg: &Config,
    m: &Monitor,
    outcome: Result<bool, String>,
    response_ms: u64,
    now: i64,
    id: u64,
) -> (r: bool)
    requires
        placed(cfg.monitor_schedule@),
    ensures
        settled_or_not(
            r,
            *old(state),
            *final(state),
            *cfg,
            *m,
            outcome_view(outcome),
            response_ms,
            now,
            id,
        ),
{
    if next_date(now, cfg.monitor_schedule.as_slice()).is_none() {
        return false;
    }
    settle_at(state, cfg, m, outcome, response_ms, now, id);
    true
}

/// Brings the outcome of a monitor's check into the state, unless no date carries the next check.
pub fn settle(
    state: &mut State,
    cfg: &Config,
    m: &Monitor,
    outcome: Result<bool, String>,
    response_ms: u64,
) -> (r: bool)
    requires
        placed(cfg.monitor_schedule@),
    ensures
        exists|now: i64, id: u64|
            clock::reading(now as int) && #[trigger] settled_or_not(
                r,
                *old(state),
                *final(state),
                *cfg,
                *m,
                outcome_view(outcome),
                response_ms,
                now,
                id,
            ),
{
    let now = clock::now();
    let id = random::random_u64();
    settle_by(state, cfg, m, outcome, response_ms, now, id)
}

/// A check without a definite outcome leaves the last definite verdict in force.
pub proof fn unknown_keeps_the_last_verdict(
    q: QualityView,
    e: Seq<char>,
    ms: u64,
    now: i64,
    periods: Seq<MonitorPeriod>,
    later: int,
)
    ensures
        q.judged(Err(e), ms, now, periods).healthy(later) == q.healthy(later),
{
}

/// A right answer makes an upstream healthy until five minutes past its next check; a wrong one makes
/// it unhealthy at once.
pub proof fn definite_verdicts_take_effect(
    q: QualityView,
    ms: u64,
    now: i64,
    periods: Seq<MonitorPeriod>,
    later: int,
)
    requires
        now + 86760 <= i64::MAX,
    ensures
        q.judged(Ok(true), ms, now, periods).healthy(later) == (later < next_at(
            now as int,
            periods,
        ) + 300),
        !q.judged(Ok(false), ms, now, periods).healthy(later),
{
    next_is_soon(now as int, periods);
    reveal_strlit("healthy");
    reveal_strlit("degraded");
    assert("healthy"@.len() != "degraded"@.len());
}

/// At most seventy-two verdicts of a monitor are kept.
pub proof fn history_is_bounded(
    q: QualityView,
    o: Result<bool, Seq<char>>,
    ms: u64,
    now: i64,
    periods: Seq<MonitorPeriod>,
)
    ensures
        q.judged(o, ms, now, periods).history.len() <= 72,
        q.judged(o, ms, now, periods).history.last() == (PointView {
            at: now,
            verdict: verdict_of(o),
        }),
{
}

/// The standing of a monitor in a report.
#[derive(Clone, Copy, Debug, PartialEq, Eq, Structural)]
pub enum Standing {
    Healthy,
    Degraded,
    Unchecked,
    Abnormal,
}

impl Standing {
    /// How a report shows it.
    pub open spec fn shown(self) -> Seq<char> {
        match self {
            Standing::Healthy => "🟢 满血"@,
            Standing::Degraded => "🔴 非满血"@,
            Standing::Unchecked => "⚪ 本轮未检测"@,
            Standing::Abnormal => "🟠 验证异常"@,
        }
    }

    fn show(self) -> (r: &'static str)
        ensures
            r@ == self.shown(),
    {
        match self {
            Standing::Healthy => "🟢 满血",
            Standing::Degraded => "🔴 非满血",
            Standing::Unchecked => "⚪ 本轮未检测",
            Standing::Abnormal => "🟠 验证异常",
        }
    }
}

/// A monitor was checked in a round.
pub open spec fn checked(done: Seq<String>, id: Seq<char>) -> bool {
    exists|i: int| 0 <= i < done.len() && #[trigger] done[i]@ == id
}

fn was_checked(done: &Vec<String>, id: &str) -> (r: bool)
    ensures
        r == checked(done@, id@),
{
    let mut i: usize = 0;
    while i < done.len()
        invariant
            i <= done@.len(),
            forall|j: int| 0 <= j < i ==> #[trigger] done@[j]@ != id@,
        decreases done@.len() - i,
    {
        if same(done[i].as_str(), id) {
            return true;
        }
        i = i + 1;
    }
    false
}

impl State {
    /// The standing of a monitor after a round. A verdict of an earlier round does not count.
    pub open spec fn standing(self, done: Seq<String>, id: Seq<char>) -> Standing {
        if !checked(done, id) {
            Standing::Unchecked
        } else if self.quality@.contains_key(id) && self.quality@[id]@.verdict == "healthy"@ {
            Standing::Healthy
        } else if self.quality@.contains_key(id) && self.quality@[id]@.verdict == "degraded"@ {
            Standing::Degraded
        } else {
            Standing::Abnormal
        }
    }

    fn find_standing(&self, done: &Vec<String>, id: &str) -> (r: Standing)
        ensures
            r == self.standing(done@, id@),
    {
        if !was_checked(done, id) {
            return Standing::Unchecked;
        }
        match self.quality.get(id) {
            Some(q) => if same(q.verdict.as_str(), "healthy") {
                Standing::Healthy
            } else if same(q.verdict.as_str(), "degraded") {
                Standing::Degraded
            } else {
                Standing::Abnormal
            },
            None => Standing::Abnormal,
        }
    }

    /// The response time that a report shows: a text made of the milliseconds, where the round
    /// measured them.
    pub open spec fn shown_time(self, done: Seq<String>, id: Seq<char>, seconds: Seq<char>) -> Seq<
        char,
    > {
        if checked(done, id) && self.quality@.contains_key(id)
            && self.quality@[id]@.response_ms is Some {
            seconds
        } else {
            "—"@
        }
    }

    /// How many of the first monitors have a standing.
    pub open spec fn tally(
        self,
        monitors: Seq<Monitor>,
        done: Seq<String>,
        standing: Standing,
        n: int,
    ) -> nat
        decreases n,
    {
        if n <= 0 {
            0
        } else {
            self.tally(monitors, done, standing, n - 1) + if self.standing(
                done,
                monitors[n - 1].id@,
            ) == standing {
                1nat
            } else {
                0nat
            }
        }
    }
}

/// Plain text on a card.
pub open spec fn plain_of(content: Seq<char>) -> JsonView {
    JsonView::Object(
        seq![("tag"@, JsonView::Text("plain_text"@)), ("content"@, JsonView::Text(content))],
    )
}

fn plain(content: &str) -> (r: Json)
    ensures
        r@ == plain_of(content@),
{
    let members = vec![
        member("tag", Json::text("plain_text")),
        member("content", Json::text(content)),
    ];
    let r = object(members);
    assert(r@->Object_0 =~= plain_of(content@)->Object_0);
    r
}

/// A short field on a card.
pub open spec fn field_of(content: Seq<char>) -> JsonView {
    JsonView::Object(
        seq![("is_short"@, JsonView::Bool(true)), ("text"@, plain_of(content))],
    )
}

fn field(content: &str) -> (r: Json)
    ensures
        r@ == field_of(content@),
{
    let members = vec![member("is_short", Json::Bool(true)), member("text", plain(content))];
    let r = object(members);
    assert(r@->Object_0 =~= field_of(content@)->Object_0);
    r
}

/// A block of fields on a card.
pub open spec fn block_of(fields: Seq<JsonView>) -> JsonView {
    JsonView::Object(
        seq![("tag"@, JsonView::Text("div"@)), ("fields"@, JsonView::Array(fields))],
    )
}

fn block(fields: Vec<Json>) -> (r: Json)
    ensures
        r@ == block_of(json::all(fields@)),
{
    let ghost f = json::all(fields@);
    let members = vec![member("tag", Json::text("div")), member("fields", array(fields))];
    let r = object(members);
    assert(r@->Object_0 =~= block_of(f)->Object_0);
    r
}

/// A line across a card.
pub open spec fn rule_of() -> JsonView {
    JsonView::Object(seq![("tag"@, JsonView::Text("hr"@))])
}

fn rule() -> (r: Json)
    ensures
        r@ == rule_of(),
{
    let members = vec![member("tag", Json::text("hr"))];
    let r = object(members);
    assert(r@->Object_0 =~= rule_of()->Object_0);
    r
}

/// A note at the foot of a card.
pub open spec fn note_of(content: Seq<char>) -> JsonView {
    JsonView::Object(
        seq![
            ("tag"@, JsonView::Text("note"@)),
            ("elements"@, JsonView::Array(seq![plain_of(content)])),
        ],
    )
}

fn note(content: &str) -> (r: Json)
    ensures
        r@ == note_of(content@),
{
    let items = vec![plain(content)];
    assert(json::all(items@) =~= seq![plain_of(content@)]);
    let members = vec![member("tag", Json::text("note")), member("elements", array(items))];
    let r = object(members);
    assert(r@->Object_0 =~= note_of(content@)->Object_0);
    r
}

/// A card.
pub open spec fn card_of(color: Seq<char>, title: Seq<char>, elements: Seq<JsonView>) -> JsonView {
    JsonView::Object(
        seq![
            (
                "config"@,
                JsonView::Object(seq![("wide_screen_mode"@, JsonView::Bool(true))]),
            ),
            (
                "header"@,
                JsonView::Object(
                    seq![("template"@, JsonView::Text(color)), ("title"@, plain_of(title))],
                ),
            ),
            ("elements"@, JsonView::Array(elements)),
        ],
    )
}

fn card(color: &str, title: &str, elements: Vec<Json>) -> (r: Json)
    ensures
        r@ == card_of(color@, title@, json::all(elements@)),
{
    let ghost e = json::all(elements@);
    let settings = object(vec![member("wide_screen_mode", Json::Bool(true))]);
    assert(settings@->Object_0 =~= seq![("wide_screen_mode"@, JsonView::Bool(true))]);
    let header = object(vec![member("template", Json::text(color)), member("title", plain(title))]);
    assert(header@->Object_0 =~= seq![
        ("template"@, JsonView::Text(color@)),
        ("title"@, plain_of(title@)),
    ]);
    let members = vec![
        member("config", settings),
        member("header", header),
        member("elements", array(elements)),
    ];
    let r = object(members);
    assert(r@->Object_0 =~= card_of(color@, title@, e)->Object_0);
    r
}

/// What a round of checks is reported from.
pub struct Round {
    /// The monitors that were checked.
    pub done: Vec<String>,
    /// The response time of each configured monitor, as text.
    pub seconds: Vec<String>,
}

impl Round {
    /// The row of a monitor.
    pub open spec fn row(self, cfg: Config, state: State, i: int) -> JsonView {
        let m = cfg.monitors@[i];
        block_of(
            seq![
                field_of(m.name@),
                field_of(
                    state.standing(self.done@, m.id@).shown() + " · 响应 "@ + state.shown_time(
                        self.done@,
                        m.id@,
                        self.seconds@[i]@,
                    ),
                ),
            ],
        )
    }

    /// The rows of all monitors.
    pub open spec fn rows(self, cfg: Config, state: State) -> Seq<JsonView> {
        Seq::new(cfg.monitors@.len(), |i: int| self.row(cfg, state, i))
    }

    /// How many monitors have a standing.
    pub open spec fn count(self, cfg: Config, state: State, standing: Standing) -> nat {
        state.tally(cfg.monitors@, self.done@, standing, cfg.monitors@.len() as int)
    }

    /// The totals, one field for each standing.
    pub open spec fn totals(self, cfg: Config, state: State) -> Seq<JsonView> {
        seq![
            total_of("满血"@, self.count(cfg, state, Standing::Healthy)),
            total_of("非满血"@, self.count(cfg, state, Standing::Degraded)),
            total_of("本轮未检测"@, self.count(cfg, state, Standing::Unchecked)),
            total_of("验证异常"@, self.count(cfg, state, Standing::Abnormal)),
        ]
    }

    /// The color of the cards and their title.
    pub open spec fn headline(self, cfg: Config, state: State) -> (Seq<char>, Seq<char>) {
        if self.count(cfg, state, Standing::Degraded) > 0 {
            ("red"@, "满血检测 · 存在非满血渠道"@)
        } else if self.count(cfg, state, Standing::Unchecked) + self.count(
            cfg,
            state,
            Standing::Abnormal,
        ) > 0 {
            ("orange"@, "满血检测 · 部分渠道尚不能判定"@)
        } else {
            ("green"@, "满血检测 · 全部满血"@)
        }
    }

    /// The foot of the cards.
    pub open spec fn foot(self, cfg: Config, now: i64) -> Seq<char> {
        clock::local_stamp(now) + " · 共 "@ + text::decimal(cfg.monitors@.len())
            + " 个监控 · 本轮检测 "@ + text::decimal(self.done@.len())
            + " 个 · 糖果判据\n详细结果请到降智监控页面查看"@
    }

    /// One page of the report. Long lists are spread over several, with every name in full.
    pub open spec fn page(self, cfg: Config, state: State, now: i64, p: int) -> JsonView {
        let rows = self.rows(cfg, state);
        let (color, title) = self.headline(cfg, state);
        card_of(
            color,
            title + " · "@ + text::decimal((p + 1) as nat) + "/"@ + text::decimal(
                pages(rows.len()),
            ),
            seq![block_of(self.totals(cfg, state)), rule_of()] + rows.subrange(
                20 * p,
                page_end(rows.len(), p),
            ) + seq![rule_of(), note_of(self.foot(cfg, now))],
        )
    }

    /// All pages of the report.
    pub open spec fn report(self, cfg: Config, state: State, now: i64) -> Seq<JsonView> {
        Seq::new(pages(cfg.monitors@.len()), |p: int| self.page(cfg, state, now, p))
    }
}

/// The field of a total.
pub open spec fn total_of(label: Seq<char>, n: nat) -> JsonView {
    field_of(label + "\n"@ + text::decimal(n) + " 个"@)
}

fn total(label: &str, n: usize) -> (r: Json)
    ensures
        r@ == total_of(label@, n as nat),
{
    let t = label.to_owned().concat("\n").concat(number(n as u64).as_str()).concat(" 个");
    field(t.as_str())
}

/// How many pages a number of rows fills.
pub open spec fn pages(rows: nat) -> nat {
    ((rows + 19) / 20) as nat
}

/// The end of a page.
pub open spec fn page_end(rows: nat, p: int) -> int {
    if 20 * p + 20 < rows {
        20 * p + 20
    } else {
        rows as int
    }
}

fn copy_all(s: &Vec<Json>, from: usize, to: usize) -> (r: Vec<Json>)
    requires
        from <= to <= s@.len(),
    ensures
        json::all(r@) == json::all(s@).subrange(from as int, to as int),
{
    let mut r: Vec<Json> = Vec::new();
    let mut i: usize = from;
    while i < to
        invariant
            from <= i <= to <= s@.len(),
            r@.len() == i - from,
            forall|k: int| 0 <= k < r@.len() ==> (#[trigger] r@[k])@ == s@[from + k]@,
        decreases to - i,
    {
        r.push(s[i].copy());
        i = i + 1;
    }
    assert(json::all(r@) =~= json::all(s@).subrange(from as int, to as int));
    r
}

fn count_of(cfg: &Config, state: &State, round: &Round, standing: Standing) -> (r: usize)
    ensures
        r == round.count(*cfg, *state, standing),
        r <= cfg.monitors@.len(),
{
    let mut n: usize = 0;
    let mut i: usize = 0;
    while i < cfg.monitors.len()
        invariant
            i <= cfg.monitors@.len(),
            n <= i,
            n == state.tally(cfg.monitors@, round.done@, standing, i as int),
        decreases cfg.monitors@.len() - i,
    {
        if state.find_standing(&round.done, cfg.monitors[i].id.as_str()) == standing {
            n = n + 1;
        }
        i = i + 1;
    }
    n
}

fn row(cfg: &Config, state: &State, round: &Round, i: usize) -> (r: Json)
    requires
        i < cfg.monitors@.len(),
        round.seconds@.len() == cfg.monitors@.len(),
    ensures
        r@ == round.row(*cfg, *state, i as int),
{
    let m = &cfg.monitors[i];
    let standing = state.find_standing(&round.done, m.id.as_str());
    let measured = match state.quality.get(m.id.as_str()) {
        Some(q) => q.response_ms.is_some(),
        None => false,
    };
    let time = if was_checked(&round.done, m.id.as_str()) && measured {
        round.seconds[i].as_str()
    } else {
        "—"
    };
    let second = standing.show().to_owned().concat(" · 响应 ").concat(time);
    let fields = vec![field(m.name.as_str()), field(second.as_str())];
    assert(json::all(fields@) =~= seq![field_of(m.name@), field_of(second@)]);
    block(fields)
}

/// The report of a round of checks, as cards.
pub fn summary_cards(cfg: &Config, state: &State, round: &Round, now: i64) -> (r: Vec<Json>)
    requires
        clock::instant(now as int),
        round.seconds@.len() == cfg.monitors@.len(),
    ensures
        json::all(r@) == round.report(*cfg, *state, now),
{
    let n = cfg.monitors.len();
    let mut rows: Vec<Json> = Vec::new();
    let mut i: usize = 0;
    while i < n
        invariant
            i <= n == cfg.monitors@.len(),
            round.seconds@.len() == cfg.monitors@.len(),
            rows@.len() == i,
            forall|k: int|
                0 <= k < i ==> (#[trigger] rows@[k])@ == round.row(*cfg, *state, k),
        decreases n - i,
    {
        rows.push(row(cfg, state, round, i));
        i = i + 1;
    }
    assert(json::all(rows@) =~= round.rows(*cfg, *state));
    let healthy = count_of(cfg, state, round, Standing::Healthy);
    let degraded = count_of(cfg, state, round, Standing::Degraded);
    let unchecked = count_of(cfg, state, round, Standing::Unchecked);
    let abnormal = count_of(cfg, state, round, Standing::Abnormal);
    let (color, title) = if degraded > 0 {
        ("red", "满血检测 · 存在非满血渠道")
    } else if unchecked > 0 || abnormal > 0 {
        ("orange", "满血检测 · 部分渠道尚不能判定")
    } else {
        ("green", "满血检测 · 全部满血")
    };
    let total_pages = if n == 0 {
        0
    } else {
        (n - 1) / 20 + 1
    };
    assert(total_pages == pages(n as nat));
    let foot = clock::stamp(now).concat(" · 共 ").concat(number(n as u64).as_str()).concat(
        " 个监控 · 本轮检测 ",
    ).concat(number(round.done.len() as u64).as_str()).concat(
        " 个 · 糖果判据\n详细结果请到降智监控页面查看",
    );
    assert(foot@ == round.foot(*cfg, now));
    let mut cards: Vec<Json> = Vec::new();
    let mut p: usize = 0;
    while p < total_pages
        invariant
            p <= total_pages == pages(n as nat),
            n == cfg.monitors@.len(),
            rows@.len() == n,
            json::all(rows@) == round.rows(*cfg, *state),
            healthy == round.count(*cfg, *state, Standing::Healthy),
            degraded == round.count(*cfg, *state, Standing::Degraded),
            unchecked == round.count(*cfg, *state, Standing::Unchecked),
            abnormal == round.count(*cfg, *state, Standing::Abnormal),
            (color@, title@) == round.headline(*cfg, *state),
            foot@ == round.foot(*cfg, now),
            cards@.len() == p,
            forall|k: int|
                0 <= k < p ==> (#[trigger] cards@[k])@ == round.page(*cfg, *state, now, k),
        decreases total_pages - p,
    {
        let from = p * 20;
        let to = if n - from > 20 {
            from + 20
        } else {
            n
        };
        let fields = vec![
            total("满血", healthy),
            total("非满血", degraded),
            total("本轮未检测", unchecked),
            total("验证异常", abnormal),
        ];
        assert(json::all(fields@) =~= round.totals(*cfg, *state));
        let mut elements = vec![block(fields), rule()];
        let mut chunk = copy_all(&rows, from, to);
        let ghost middle = json::all(chunk@);
        elements.append(&mut chunk);
        elements.push(rule());
        elements.push(note(foot.as_str()));
        assert(json::all(elements@) =~= seq![
            block_of(round.totals(*cfg, *state)),
            rule_of(),
        ] + middle + seq![rule_of(), note_of(foot@)]);
        let place = title.to_owned().concat(" · ").concat(number(p as u64 + 1).as_str()).concat(
            "/",
        ).concat(number(total_pages as u64).as_str());
        cards.push(card(color, place.as_str(), elements));
        p = p + 1;
    }
    assert(json::all(cards@) =~= round.report(*cfg, *state, now));
    cards
}

/// The name of a report among the notices.
pub open spec fn report_name() -> Seq<char> {
    "降智监控全量检测报告"@
}

/// The queue with a card on its last notice.
pub open spec fn with_card(s: Seq<NoticeView>, card: JsonView) -> Seq<NoticeView> {
    s.drop_last().push(NoticeView { card: Some(card), ..s.last() })
}

/// After the first cards of a report were queued, each under an identifier of its own.
pub open spec fn cards_queued(
    b: board::Board,
    now: i64,
    ids: Seq<u64>,
    cards: Seq<JsonView>,
    n: int,
) -> board::Board
    decreases n,
{
    if n <= 0 {
        b
    } else {
        let c = cards_queued(b, now, ids, cards, n - 1).notice(now, ids[n - 1], report_name());
        board::Board { queue: with_card(c.queue, cards[n - 1]), ..c }
    }
}

/// A round is reported as a whole.
pub open spec fn reported(cfg: Config, round: Round) -> bool {
    round.done@.len() > 0 && cfg.notify_all_monitors && cfg.notifies()
}

fn queue_cards(state: &mut State, cards: &Vec<Json>, ids: &Vec<u64>, now: i64)
    requires
        ids@.len() == cards@.len(),
    ensures
        final(state).only_board_differs(*old(state)),
        final(state).board() == cards_queued(
            old(state).board(),
            now,
            ids@,
            json::all(cards@),
            cards@.len() as int,
        ),
{
    let mut i: usize = 0;
    while i < cards.len()
        invariant
            i <= cards@.len(),
            ids@.len() == cards@.len(),
            state.only_board_differs(*old(state)),
            state.board() == cards_queued(
                old(state).board(),
                now,
                ids@,
                json::all(cards@),
                i as int,
            ),
        decreases cards@.len() - i,
    {
        state.notify_at(now, ids[i], "降智监控全量检测报告".to_owned());
        let ghost queued = state.queue();
        let ghost notices = state.notices@;
        match state.notices.pop_back() {
            Some(mut n) => {
                assert(queued.last() == notices.last()@);
                n.card = Some(cards[i].copy());
                let ghost nv = n@;
                let ghost rest = state.notices@;
                assert(state::notice_views(rest) =~= queued.drop_last());
                state.notices.push_back(n);
                assert(state.queue() =~= queued.drop_last().push(nv));
                assert(json::all(cards@)[i as int] == cards@[i as int]@);
            },
            None => {},
        }
        i = i + 1;
    }
}

/// Queues the report of a round, as of a time, where rounds are reported as a whole.
pub fn publish_at(state: &mut State, cfg: &Config, round: &Round, ids: &Vec<u64>, now: i64)
    requires
        clock::instant(now as int),
        round.seconds@.len() == cfg.monitors@.len(),
        ids@.len() == pages(cfg.monitors@.len()),
    ensures
        final(state).only_board_differs(*old(state)),
        final(state).board() == (if reported(*cfg, *round) {
            cards_queued(
                old(state).board(),
                now,
                ids@,
                round.report(*cfg, *old(state), now),
                ids@.len() as int,
            )
        } else {
            old(state).board()
        }),
{
    if round.done.len() > 0 && cfg.notify_all_monitors && cfg.has_webhook() {
        let cards = summary_cards(cfg, state, round, now);
        assert(cards@.len() == json::all(cards@).len());
        queue_cards(state, &cards, ids, now);
    }
}

/// Queues the report of a round, where rounds are reported as a whole.
pub fn publish(state: &mut State, cfg: &Config, round: &Round)
    requires
        round.seconds@.len() == cfg.monitors@.len(),
    ensures
        final(state).only_board_differs(*old(state)),
        !reported(*cfg, *round) ==> final(state).board() == old(state).board(),
        reported(*cfg, *round) ==> exists|now: i64, ids: Seq<u64>|
            {
                &&& clock::reading(now as int)
                &&& ids.len() == pages(cfg.monitors@.len())
                &&& final(state).board() == #[trigger] cards_queued(
                    old(state).board(),
                    now,
                    ids,
                    round.report(*cfg, *old(state), now),
                    ids.len() as int,
                )
            },
{
    let n = cfg.monitors.len();
    let total = if n == 0 {
        0
    } else {
        (n - 1) / 20 + 1
    };
    assert(total == pages(n as nat));
    let mut ids: Vec<u64> = Vec::new();
    while ids.len() < total
        invariant
            ids@.len() <= total,
        decreases total - ids@.len(),
    {
        ids.push(random::random_u64());
    }
    let now = clock::now();
    publish_at(state, cfg, round, &ids, now);
}

/// The four totals of a report count every monitor once.
pub proof fn totals_are_complete(state: State, monitors: Seq<Monitor>, done: Seq<String>, n: int)
    requires
        0 <= n <= monitors.len(),
    ensures
        state.tally(monitors, done, Standing::Healthy, n) + state.tally(
            monitors,
            done,
            Standing::Degraded,
            n,
        ) + state.tally(monitors, done, Standing::Unchecked, n) + state.tally(
            monitors,
            done,
            Standing::Abnormal,
            n,
        ) == n,
    decreases n,
{
    if n > 0 {
        totals_are_complete(state, monitors, done, n - 1);
    }
}

/// A report is green only where every monitor was checked and answered right.
pub proof fn green_means_all_healthy(round: Round, cfg: Config, state: State)
    ensures
        round.headline(cfg, state).0 == "green"@ <==> round.count(cfg, state, Standing::Healthy)
            == cfg.monitors@.len(),
{
    totals_are_complete(state, cfg.monitors@, round.done@, cfg.monitors@.len() as int);
    reveal_strlit("green");
    reveal_strlit("orange");
    reveal_strlit("red");
    assert("green"@.len() == 5 && "orange"@.len() == 6 && "red"@.len() == 3);
}

proof fn early_is_reachable(now: int, periods: Seq<MonitorPeriod>, j: int)
    requires
        placed(periods),
        clock::instant(now),
        clock::instant(now + 86460),
        1 <= j,
    ensures
        reachable(now, periods, j),
    decreases 1442 - j,
{
    if j <= 1441 {
        assert(readable(periods, clock::local_minute(minute_start(now, j))));
        early_is_reachable(now, periods, j + 1);
    }
}

proof fn period_among(periods: Seq<MonitorPeriod>, minute: int)
    ensures
        match period_at(periods, minute) {
            Some(p) => periods.contains(p),
            None => true,
        },
    decreases periods.len(),
{
    if periods.len() > 0 {
        let rest = periods.drop_last();
        period_among(rest, minute);
        match period_at(rest, minute) {
            Some(p) => {
                let i = choose|i: int| 0 <= i < rest.len() && rest[i] == p;
                assert(periods[i] == p);
            },
            None => {
                assert(periods[periods.len() - 1] == periods.last());
            },
        }
    }
}

/// An accepted schedule gives a next check at every time but, perhaps, within the last day and minute
/// that a date can carry.
pub proof fn accepted_schedules_are_followable(now: int, periods: Seq<MonitorPeriod>)
    requires
        config::schedule_complaint(periods) is None,
    ensures
        placed(periods),
        clock::instant(now) && clock::instant(now + 86460) ==> followable(now, periods),
{
    config::accepted_schedule(periods);
    assert forall|minute: int| 0 <= minute < 1440 implies #[trigger] readable(periods, minute) by {
        period_among(periods, minute);
        if let Some(p) = period_at(periods, minute) {
            let i = choose|i: int| 0 <= i < periods.len() && periods[i] == p;
            assert(periods[i].sound());
        }
    }
    if clock::instant(now) && clock::instant(now + 86460) {
        early_is_reachable(now, periods, 1);
    }
}

/// The minute of the local day counts from midnight, eight hours before that of Greenwich.
pub proof fn minutes_count_from_local_midnight(t: int)
    ensures
        0 <= clock::local_minute(t) < 1440,
        60 * clock::local_minute(t) <= (t + 28800) - 86400 * clock::local_day(t) < 60 * (
        clock::local_minute(t) + 1),
{
}

proof fn first_period(periods: Seq<MonitorPeriod>, minute: int, i: int)
    requires
        0 <= i <= periods.len(),
        i < periods.len() ==> periods[i].covers(minute),
        forall|j: int| 0 <= j < i ==> !(#[trigger] periods[j]).covers(minute),
    ensures
        period_at(periods, minute) == if i < periods.len() {
            Some(periods[i])
        } else {
            None
        },
    decreases periods.len(),
{
    if periods.len() > 0 {
        let rest = periods.drop_last();
        assert(forall|j: int| 0 <= j < rest.len() ==> rest[j] == #[trigger] periods[j]);
        if i < periods.len() {
            first_period(rest, minute, i);
        } else {
            assert(!periods[periods.len() - 1].covers(minute));
            first_period(rest, minute, i - 1);
        }
    }
}

/// A minute of the day lies in a period from its start up to, but without, its end, over midnight where
/// the end does not come after the start.
pub open spec fn lies_in(p: MonitorPeriod, minute: int) -> bool {
    if p.end > p.start {
        p.start <= minute && minute < p.end
    } else {
        minute < p.end || p.start <= minute
    }
}

/// Within a period checks are its interval apart, counted from its start, also over midnight. Outside
/// of all periods they come every twenty minutes of the day.
pub proof fn checks_come_at_intervals(periods: Seq<MonitorPeriod>, minute: int, i: int)
    requires
        0 <= minute < 1440,
        0 <= i <= periods.len(),
        i < periods.len() ==> lies_in(periods[i], minute) && periods[i].sound(),
        forall|j: int| 0 <= j < i ==> !lies_in(#[trigger] periods[j], minute),
    ensures
        i == periods.len() ==> (due_at(periods, minute) <==> minute % 20 == 0),
        i < periods.len() && periods[i].start <= minute ==> (due_at(periods, minute) <==> (minute
            - periods[i].start) % (periods[i].interval_minutes as int) == 0),
        i < periods.len() && minute < periods[i].start ==> (due_at(periods, minute) <==> (minute
            + 1440 - periods[i].start) % (periods[i].interval_minutes as int) == 0),
{
    assert(forall|j: int| 0 <= j < i ==> !(#[trigger] periods[j]).covers(minute)) by {
        assert forall|j: int| 0 <= j < i implies !(#[trigger] periods[j]).covers(minute) by {
            assert(!lies_in(periods[j], minute));
        }
    }
    first_period(periods, minute, i);
}

/// A time is the start of a minute at which a check is due.
pub open spec fn due_minute(periods: Seq<MonitorPeriod>, t: int) -> bool {
    t % 60 == 0 && due_at(periods, clock::local_minute(t))
}

proof fn minutes_are_whole(now: int, j: int)
    ensures
        minute_start(now, j) % 60 == 0,
        minute_start(now, j + 1) == minute_start(now, j) + 60,
        j > 1441 ==> minute_start(now, j) >= now + 86400,
{
}

proof fn whole_minutes_are_apart(m: int, t: int)
    requires
        m % 60 == 0,
        t % 60 == 0,
        m < t,
    ensures
        m + 60 <= t,
{
}

#[verifier::spinoff_prover]
proof fn first_due_is_first(now: int, periods: Seq<MonitorPeriod>, j: int, t: int)
    requires
        1 <= j,
        minute_start(now, j) <= t,
        t < now + 86400,
        due_minute(periods, t),
    ensures
        due_minute(periods, first_due(now, periods, j)),
        first_due(now, periods, j) <= t,
    decreases 1442 - j,
{
    let m = minute_start(now, j);
    minutes_are_whole(now, j);
    if j <= 1441 {
        if due_at(periods, clock::local_minute(m)) {
            assert(first_due(now, periods, j) == m);
        } else {
            assert(t != m);
            whole_minutes_are_apart(m, t);
            first_due_is_first(now, periods, j + 1, t);
            assert(first_due(now, periods, j) == first_due(now, periods, j + 1));
        }
    }
}

proof fn next_minute(now: int, t: int)
    requires
        now < t,
        t % 60 == 0,
    ensures
        minute_start(now, 1) <= t,
{
    assert(t == 60 * (t / 60));
    assert(now == 60 * (now / 60) + now % 60);
    assert(t / 60 > now / 60);
}

/// The next check comes at the first minute after a time at which one is due, where one is within a
/// day.
pub proof fn next_checks_are_first(now: int, periods: Seq<MonitorPeriod>, t: int)
    requires
        now < t < now + 86400,
        due_minute(periods, t),
    ensures
        due_minute(periods, next_at(now, periods)),
        now < next_at(now, periods) <= t,
{
    next_minute(now, t);
    first_due_is_first(now, periods, 1, t);
    next_is_soon(now, periods);
}

/// A check without a minute that is due within a day comes a day later.
pub proof fn checks_never_stop(now: int, periods: Seq<MonitorPeriod>)
    requires
        forall|t: int| now < t <= now + 86460 ==> !#[trigger] due_minute(periods, t),
    ensures
        next_at(now, periods) == now + 86400,
{
    none_due(now, periods, 1);
}

proof fn none_due(now: int, periods: Seq<MonitorPeriod>, j: int)
    requires
        1 <= j,
        forall|t: int| now < t <= now + 86460 ==> !#[trigger] due_minute(periods, t),
    ensures
        first_due(now, periods, j) == now + 86400,
    decreases 1442 - j,
{
    if j <= 1441 {
        assert(!due_minute(periods, minute_start(now, j)));
        none_due(now, periods, j + 1);
    }
}

/// A reply is judged by the text of its first choice, unless there is none or it was cut off.
pub proof fn replies_are_judged_by_their_text(v: JsonView, choices: Seq<JsonView>, t: Seq<char>)
    requires
        v.at("choices"@) == JsonView::Array(choices),
        choices.len() > 0,
        choices[0].at("message"@).at("content"@) == JsonView::Text(t),
    ensures
        t.len() == 0 ==> reply_says(v) == Err::<bool, Seq<char>>("检测响应缺少答案"@),
        t.len() > 0 && choices[0].at("finish_reason"@) == JsonView::Text("length"@) ==> reply_says(v)
            == Err::<bool, Seq<char>>("检测答案被截断"@),
        t.len() > 0 && choices[0].at("finish_reason"@) != JsonView::Text("length"@) ==> reply_says(v)
            == Ok::<bool, Seq<char>>(exists|i: int| #[trigger] answers_at(t, i)),
{
}

/// A reply without a choice, or whose first choice has no text, has no answer.
pub proof fn replies_without_text_have_no_answer(v: JsonView)
    ensures
        !(v.at("choices"@) is Array) ==> reply_says(v) is Err,
        v.at("choices"@) is Array && v.at("choices"@)->Array_0.len() == 0 ==> reply_says(v) is Err,
        v.at("choices"@) is Array && v.at("choices"@)->Array_0.len() > 0 && !((
        v.at("choices"@)->Array_0)[0].at("message"@).at("content"@) is Text) ==> reply_says(v) is Err,
{
}

/// What a check leaves: a definite verdict takes effect with its time and holds until five minutes past
/// the next check; another only leaves its reason. The history keeps what came last, in order.
pub proof fn checks_leave_verdicts(
    q: QualityView,
    o: Result<bool, Seq<char>>,
    ms: u64,
    now: i64,
    periods: Seq<MonitorPeriod>,
)
    requires
        now + 86760 <= i64::MAX,
    ensures
        ({
            let t = q.judged(o, ms, now, periods);
            &&& t.checked_at == now
            &&& t.next_at == next_at(now as int, periods)
            &&& o == Ok::<bool, Seq<char>>(true) ==> t.verdict == "healthy"@ && t.last_definite
                == "healthy"@
            &&& o == Ok::<bool, Seq<char>>(false) ==> t.verdict == "degraded"@ && t.last_definite
                == "degraded"@
            &&& o is Ok ==> t.response_ms == Some(ms) && t.error.len() == 0 && t.valid_until
                == next_at(now as int, periods) + 300
            &&& o is Err ==> t.verdict == "unknown"@ && t.last_definite == q.last_definite
                && t.valid_until == q.valid_until && t.response_ms is None && t.error == o->Err_0
            &&& t.history.last().at == now && t.history.last().verdict == t.verdict
            &&& q.history.len() < 72 ==> t.history.drop_last() == q.history
            &&& q.history.len() == 72 ==> t.history.drop_last() == q.history.skip(1)
        }),
{
    next_is_soon(now as int, periods);
    let t = q.judged(o, ms, now, periods);
    assert(t.history.drop_last() =~= state::last_of(q.history, 71));
}

/// Operators are told of a verdict when it changes. That an upstream lost its quality goes to the
/// webhook, unless rounds are reported as a whole.
pub proof fn changed_verdicts_are_told(
    b: board::Board,
    q: QualityView,
    o: Result<bool, Seq<char>>,
    cfg: Config,
    m: Monitor,
    now: i64,
    id: u64,
)
    ensures
        ({
            let t = check_told(b, q, o, cfg, m, now, id);
            let word = match o {
                Ok(true) => "healthy"@,
                Ok(false) => "degraded"@,
                Err(_) => "unknown"@,
            };
            let lost = q.last_definite == "healthy"@ && o == Ok::<bool, Seq<char>>(false)
                && cfg.webhook@.len() > 0 && !cfg.notify_all_monitors;
            &&& q.verdict == word && !lost ==> t == b
            &&& q.verdict != word && !lost ==> t == b.event(
                now,
                "quality"@,
                verdict_line(m.name@, o),
            )
            &&& q.verdict != word && lost ==> t == b.event(
                now,
                "quality"@,
                verdict_line(m.name@, o),
            ).notice(now, id, decline_line(m))
            &&& q.verdict == word && lost ==> t == b.notice(now, id, decline_line(m))
        }),
{
}

/// A monitor stands by the verdict of the present round alone.
pub proof fn standings_are_of_the_round(s: State, done: Seq<String>, id: Seq<char>)
    ensures
        ({
            let now = exists|i: int| 0 <= i < done.len() && #[trigger] done[i]@ == id;
            let word = s.quality@[id].verdict@;
            let known = s.quality@.contains_key(id);
            &&& !now <==> s.standing(done, id) == Standing::Unchecked
            &&& now && known && word == "healthy"@ <==> s.standing(done, id) == Standing::Healthy
            &&& now && known && word == "degraded"@ <==> s.standing(done, id) == Standing::Degraded
            &&& now && (!known || word != "healthy"@ && word != "degraded"@) <==> s.standing(done, id)
                == Standing::Abnormal
        }),
{
    reveal_strlit("healthy");
    reveal_strlit("degraded");
    assert("healthy"@.len() == 7 && "degraded"@.len() == 8);
}

proof fn tally_is_zero(s: State, monitors: Seq<Monitor>, done: Seq<String>, standing: Standing, n: int)
    requires
        0 <= n <= monitors.len(),
    ensures
        s.tally(monitors, done, standing, n) > 0 <==> exists|i: int|
            0 <= i < n && s.standing(done, (#[trigger] monitors[i]).id@) == standing,
    decreases n,
{
    if n > 0 {
        tally_is_zero(s, monitors, done, standing, n - 1);
        if s.standing(done, monitors[n - 1].id@) != standing && exists|i: int|
            0 <= i < n && s.standing(done, (#[trigger] monitors[i]).id@) == standing {
            let i = choose|i: int|
                0 <= i < n && s.standing(done, (#[trigger] monitors[i]).id@) == standing;
            assert(i < n - 1);
        }
    }
}

/// A report is red where some monitor answered wrong, orange where none did but some gave no verdict,
/// and green where all answered right.
pub proof fn colors_tell_the_worst(round: Round, cfg: Config, state: State)
    ensures
        ({
            let color = round.headline(cfg, state).0;
            let wrong = exists|i: int|
                0 <= i < cfg.monitors@.len() && state.standing(
                    round.done@,
                    (#[trigger] cfg.monitors@[i]).id@,
                ) == Standing::Degraded;
            let silent = exists|i: int|
                0 <= i < cfg.monitors@.len() && (state.standing(
                    round.done@,
                    (#[trigger] cfg.monitors@[i]).id@,
                ) == Standing::Unchecked || state.standing(round.done@, cfg.monitors@[i].id@)
                    == Standing::Abnormal);
            &&& wrong ==> color == "red"@
            &&& !wrong && silent ==> color == "orange"@
            &&& !wrong && !silent ==> color == "green"@
        }),
{
    let n = cfg.monitors@.len() as int;
    tally_is_zero(state, cfg.monitors@, round.done@, Standing::Degraded, n);
    tally_is_zero(state, cfg.monitors@, round.done@, Standing::Unchecked, n);
    tally_is_zero(state, cfg.monitors@, round.done@, Standing::Abnormal, n);
    if exists|i: int|
        0 <= i < n && (state.standing(round.done@, (#[trigger] cfg.monitors@[i]).id@)
            == Standing::Unchecked || state.standing(round.done@, cfg.monitors@[i].id@)
            == Standing::Abnormal) {
        let i = choose|i: int|
            0 <= i < n && (state.standing(round.done@, (#[trigger] cfg.monitors@[i]).id@)
                == Standing::Unchecked || state.standing(round.done@, cfg.monitors@[i].id@)
                == Standing::Abnormal);
        assert(state.standing(round.done@, cfg.monitors@[i].id@) == Standing::Unchecked
            || state.standing(round.done@, cfg.monitors@[i].id@) == Standing::Abnormal);
    }
}

/// Pages hold twenty rows each but for the last, and together all rows in order.
pub proof fn pages_hold_all_rows(rows: nat, p: int)
    requires
        0 <= p < pages(rows),
    ensures
        20 * (pages(rows) - 1) < rows <= 20 * pages(rows),
        20 * p < page_end(rows, p) <= 20 * p + 20,
        p + 1 < pages(rows) ==> page_end(rows, p) == 20 * (p + 1),
        p + 1 == pages(rows) ==> page_end(rows, p) == rows,
{
}

/// A round is reported where something was checked, rounds are reported as a whole, and there is a
/// webhook.
pub proof fn rounds_are_reported(cfg: Config, round: Round)
    ensures
        reported(cfg, round) <==> round.done@.len() > 0 && cfg.notify_all_monitors
            && cfg.webhook@.len() > 0,
{
}

/// Each card of a report is a notice of its own, at the end of the queue.
pub proof fn cards_are_queued(
    b: board::Board,
    now: i64,
    ids: Seq<u64>,
    cards: Seq<JsonView>,
    n: int,
    i: int,
)
    requires
        0 <= i < n,
        b.queue.len() + n <= 200,
    ensures
        cards_queued(b, now, ids, cards, n).queue.len() == b.queue.len() + n,
        cards_queued(b, now, ids, cards, n).queue[b.queue.len() + i].card == Some(cards[i]),
        cards_queued(b, now, ids, cards, n).queue[b.queue.len() + i].message
            == "降智监控全量检测报告"@,
        cards_queued(b, now, ids, cards, n).queue.take(b.queue.len() as int) == b.queue,
        cards_queued(b, now, ids, cards, n).log == b.log,
    decreases n,
{
    let before = cards_queued(b, now, ids, cards, n - 1);
    if n > 1 {
        if i < n - 1 {
            cards_are_queued(b, now, ids, cards, n - 1, i);
        } else {
            cards_are_queued(b, now, ids, cards, n - 1, 0);
        }
    }
    let after = cards_queued(b, now, ids, cards, n);
    assert(after.queue.take(b.queue.len() as int) =~= before.queue.take(b.queue.len() as int));
    if n == 1 {
        assert(before.queue.take(b.queue.len() as int) =~= b.queue);
    }
}

/// Chats are asked for under `/v1/chat/completions`.
pub proof fn chats_have_their_path(base: Seq<char>)
    ensures
        text::ends(chat_url_of(base), "/v1/chat/completions"@),
{
    reveal_strlit("/v1");
    reveal_strlit("/chat/completions");
    reveal_strlit("/v1/chat/completions");
    let a = text::trimmed_end(base, '/');
    let b = config::without(a, "/chat/completions"@);
    let c = config::without(b, "/responses"@);
    let root = if text::ends(c, "/v1"@) {
        c
    } else {
        c + "/v1"@
    };
    let u = chat_url_of(base);
    assert(text::ends(root, "/v1"@)) by {
        if !text::ends(c, "/v1"@) {
            assert(root.skip(root.len() - 3) =~= "/v1"@);
        }
    }
    assert("/v1/chat/completions"@ =~= "/v1"@ + "/chat/completions"@);
    assert(u.skip(u.len() - 20) =~= root.skip(root.len() - 3) + "/chat/completions"@);
}

/// Where no schedule is configured, checks come every five minutes from nine to twenty-three o'clock,
/// every hour from four to seven, and every twenty minutes else.
pub proof fn default_checks_follow_the_day(minute: int)
    requires
        0 <= minute < 1440,
    ensures
        540 <= minute < 1380 ==> (due_at(config::default_schedule(), minute) <==> minute % 5 == 0),
        240 <= minute < 420 ==> (due_at(config::default_schedule(), minute) <==> minute % 60 == 0),
        minute < 240 || 420 <= minute < 540 || 1380 <= minute ==> (due_at(
            config::default_schedule(),
            minute,
        ) <==> minute % 20 == 0),
{
    let s = config::default_schedule();
    let i: int = if 540 <= minute < 1380 {
        0
    } else if minute < 240 || 1380 <= minute {
        1
    } else if minute < 420 {
        2
    } else {
        3
    };
    assert(s[0].start == 540 && s[1].start == 1380 && s[2].start == 240 && s[3].start == 420);
    assert(forall|j: int| 0 <= j < i ==> !lies_in(#[trigger] s[j], minute));
    checks_come_at_intervals(s, minute, i);
}

/// An answer is right exactly where 21 stands in it by itself: with no digit before it and none after.
pub proof fn right_answers_stand_alone(a: Seq<char>, b: Seq<char>, s: Seq<char>, t: Seq<char>)
    requires
        s == a + seq!['2', '1'] + b,
    ensures
        (a.len() == 0 || !text::numeric(a.last())) && (b.len() == 0 || !text::numeric(b[0]))
            ==> exists|i: int| #[trigger] answers_at(s, i),
        (exists|i: int| #[trigger] answers_at(t, i)) ==> exists|i: int|
            0 <= i && i + 2 <= t.len() && #[trigger] t.subrange(i, i + 2) == seq!['2', '1'] && (i == 0
                || !text::numeric(t[i - 1])) && (i + 2 == t.len() || !text::numeric(t[i + 2])),
{
    if (a.len() == 0 || !text::numeric(a.last())) && (b.len() == 0 || !text::numeric(b[0])) {
        let n = a.len() as int;
        if n > 0 {
            assert(s[n - 1] == a.last());
        }
        if b.len() > 0 {
            assert(s[n + 2] == b[0]);
        }
        assert(answers_at(s, n));
    }
    if exists|i: int| #[trigger] answers_at(t, i) {
        let i = choose|i: int| #[trigger] answers_at(t, i);
        assert(t.subrange(i, i + 2) =~= seq!['2', '1']);
    }
}

/// Whatever interface the address of an upstream leads to, its chats are asked for under the same root.
pub proof fn chats_share_the_root(r: Seq<char>)
    ensures
        chat_url_of(r + "/v1"@) == r + "/v1"@ + "/chat/completions"@,
        chat_url_of(r + "/v1/chat/completions"@) == r + "/v1"@ + "/chat/completions"@,
        chat_url_of(r + "/v1/responses"@) == r + "/v1"@ + "/chat/completions"@,
        chat_url_of(r + "/"@) == chat_url_of(r),
        r.len() > 0 && r.last() != '/' && !text::ends(r, "/chat/completions"@) && !text::ends(
            r,
            "/responses"@,
        ) && !text::ends(r, "/v1"@) ==> chat_url_of(r) == r + "/v1"@ + "/chat/completions"@,
{
    reveal_strlit("/v1");
    reveal_strlit("/v1/chat/completions");
    reveal_strlit("/v1/responses");
    reveal_strlit("/chat/completions");
    reveal_strlit("/responses");
    reveal_strlit("/");
    let v = "/v1"@;
    let chat = "/chat/completions"@;
    let resp = "/responses"@;
    let a = r + v;
    assert("/v1/chat/completions"@ =~= v + chat);
    assert("/v1/responses"@ =~= v + resp);
    assert(r + "/v1/chat/completions"@ =~= a + chat);
    assert(r + "/v1/responses"@ =~= a + resp);
    assert(v.len() == 3 && chat.len() == 17 && resp.len() == 10);
    assert(v[2] == '1' && chat[16] == 's' && resp[9] == 's');
    assert(a.last() == '1');
    assert(!text::ends(a, chat)) by {
        if text::ends(a, chat) {
            assert(a.skip(a.len() - 17)[16] == a.last());
        }
    }
    assert(!text::ends(a, resp)) by {
        if text::ends(a, resp) {
            assert(a.skip(a.len() - 10)[9] == a.last());
        }
    }
    assert(a.skip(a.len() - 3) =~= v);
    assert((a + chat).last() == 's');
    assert((a + resp).last() == 's');
    text::prefixes_are_cut(chat, a, a + chat);
    text::prefixes_are_cut(resp, a, a + resp);
    assert(!text::ends(a + resp, chat)) by {
        if text::ends(a + resp, chat) {
            let s = a + resp;
            assert(s.skip(s.len() - 17)[15] == s[s.len() - 2]);
            assert(s[s.len() - 2] == resp[8]);
            assert(chat[15] == 'n' && resp[8] == 'e');
        }
    }
    assert((r + "/"@).drop_last() =~= r);
    assert((r + "/"@).last() == '/');
}

/// A check asks a model one question, without a stream, and with little thought.
pub proof fn checks_ask_one_question(model: Seq<char>)
    ensures
        question_document(model).at("model"@) == JsonView::Text(model),
        question_document(model).at("stream"@) == JsonView::Bool(false),
        question_document(model).at("reasoning_effort"@) == JsonView::Text("low"@),
        question_document(model).at("thinking"@).at("type"@) == JsonView::Text("enabled"@),
        question_document(model).at("messages"@) is Array,
        question_document(model).at("messages"@)->Array_0.len() == 1,
        (question_document(model).at("messages"@)->Array_0)[0].at("role"@) == JsonView::Text(
            "user"@,
        ),
        (question_document(model).at("messages"@)->Array_0)[0].at("content"@) == JsonView::Text(
            CANDY@,
        ),
{
    reveal_strlit("model");
    reveal_strlit("messages");
    reveal_strlit("stream");
    reveal_strlit("thinking");
    reveal_strlit("reasoning_effort");
    reveal_strlit("role");
    reveal_strlit("content");
    reveal_strlit("type");
    assert("model"@.len() == 5 && "messages"@.len() == 8 && "messages"@[0] == 'm' && "stream"@.len()
        == 6 && "thinking"@.len() == 8 && "thinking"@[0] == 't' && "reasoning_effort"@.len() == 16);
    assert("role"@.len() == 4 && "content"@.len() == 7);
    let o = question_document(model)->Object_0;
    json::members_are_found(o, 0, "model"@);
    json::members_are_found(o, 1, "messages"@);
    json::members_are_found(o, 2, "stream"@);
    json::members_are_found(o, 3, "thinking"@);
    json::members_are_found(o, 4, "reasoning_effort"@);
    json::members_are_found(o[3].1->Object_0, 0, "type"@);
    let e = (o[1].1->Array_0)[0]->Object_0;
    json::members_are_found(e, 0, "role"@);
    json::members_are_found(e, 1, "content"@);
}

/// How verdicts and standings read.
pub proof fn verdicts_are_worded(name: Seq<char>, e: Seq<char>, m: Monitor)
    ensures
        text::after(verdict_line(name, Ok(true)), "监控 "@ + name + "："@) == Some("满血"@),
        text::after(verdict_line(name, Ok(false)), "监控 "@ + name + "："@) == Some("降智"@),
        text::after(verdict_line(name, Err(e)), "监控 "@ + name + "："@) == Some(
            "检测异常，保留未过期的上次结论"@,
        ),
        text::after(decline_line(m), "降智提醒："@ + m.name@ + "（"@ + m.id@) == Some(
            "）已从满血变为降智，关联渠道暂停使用。"@,
        ),
        Standing::Healthy.shown() == "🟢 满血"@,
        Standing::Degraded.shown() == "🔴 非满血"@,
        Standing::Unchecked.shown() == "⚪ 本轮未检测"@,
        Standing::Abnormal.shown() == "🟠 验证异常"@,
{
    let head = "监控 "@ + name + "："@;
    text::prefixes_are_cut(head, "满血"@, verdict_line(name, Ok(true)));
    text::prefixes_are_cut(head, "降智"@, verdict_line(name, Ok(false)));
    text::prefixes_are_cut(head, "检测异常，保留未过期的上次结论"@, verdict_line(name, Err(e)));
    text::prefixes_are_cut(
        "降智提醒："@ + m.name@ + "（"@ + m.id@,
        "）已从满血变为降智，关联渠道暂停使用。"@,
        decline_line(m),
    );
}

proof fn elements_of(color: Seq<char>, title: Seq<char>, elements: Seq<JsonView>)
    ensures
        card_of(color, title, elements).at("elements"@) == JsonView::Array(elements),
        card_of(color, title, elements).at("header"@).at("template"@) == JsonView::Text(color),
        card_of(color, title, elements).at("header"@).at("title"@).at("content"@) == JsonView::Text(
            title,
        ),
{
    reveal_strlit("config");
    reveal_strlit("header");
    reveal_strlit("elements");
    reveal_strlit("template");
    reveal_strlit("title");
    reveal_strlit("tag");
    reveal_strlit("content");
    assert("config"@.len() == 6 && "config"@[0] == 'c' && "header"@.len() == 6 && "header"@[0] == 'h'
        && "elements"@.len() == 8 && "template"@.len() == 8 && "title"@.len() == 5 && "tag"@.len()
        == 3 && "content"@.len() == 7);
    let o = card_of(color, title, elements)->Object_0;
    json::members_are_found(o, 1, "header"@);
    json::members_are_found(o, 2, "elements"@);
    let h = o[1].1->Object_0;
    json::members_are_found(h, 0, "template"@);
    json::members_are_found(h, 1, "title"@);
    json::members_are_found(h[1].1->Object_0, 1, "content"@);
}

/// Every monitor has its row in a report, in the order of the configuration and twenty to a page, between
/// the totals and the foot. All pages have one color, and say which of how many they are.
pub proof fn reports_show_every_monitor(round: Round, cfg: Config, state: State, now: i64, i: int)
    requires
        0 <= i < cfg.monitors@.len(),
    ensures
        ({
            let all = round.report(cfg, state, now);
            let p = i / 20;
            let page = all[p];
            let elements = page.at("elements"@);
            &&& 0 <= p < all.len()
            &&& all.len() == (cfg.monitors@.len() + 19) / 20
            &&& elements is Array
            &&& elements->Array_0.len() >= 5
            &&& (elements->Array_0)[2 + i % 20] == round.row(cfg, state, i)
            &&& (elements->Array_0)[0] == block_of(round.totals(cfg, state))
            &&& elements->Array_0.last() == note_of(round.foot(cfg, now))
            &&& page.at("header"@).at("template"@) == JsonView::Text(round.headline(cfg, state).0)
            &&& page.at("header"@).at("title"@).at("content"@) == JsonView::Text(
                round.headline(cfg, state).1 + " · "@ + text::decimal((p + 1) as nat) + "/"@
                    + text::decimal(((cfg.monitors@.len() + 19) / 20) as nat),
            )
        }),
{
    let p = i / 20;
    let n = cfg.monitors@.len();
    let rows = round.rows(cfg, state);
    assert(rows.len() == n);
    assert(i == 20 * p + i % 20);
    assert(0 <= p < pages(n));
    pages_hold_all_rows(n, p);
    let shown = rows.subrange(20 * p, page_end(n, p));
    let elements = seq![block_of(round.totals(cfg, state)), rule_of()] + shown + seq![
        rule_of(),
        note_of(round.foot(cfg, now)),
    ];
    let (color, title) = round.headline(cfg, state);
    let full = title + " · "@ + text::decimal((p + 1) as nat) + "/"@ + text::decimal(pages(n));
    elements_of(color, full, elements);
    assert(round.report(cfg, state, now)[p] == round.page(cfg, state, now, p));
    assert(elements[2 + i % 20] == shown[i % 20]);
    assert(shown[i % 20] == rows[i]);
}

/// A row shows a monitor's name in full, its standing, and its response time where the round measured one.
pub proof fn rows_show_name_and_standing(round: Round, cfg: Config, state: State, i: int)
    requires
        0 <= i < cfg.monitors@.len(),
    ensures
        ({
            let m = cfg.monitors@[i];
            let measured = checked(round.done@, m.id@) && state.quality@.contains_key(m.id@)
                && state.quality@[m.id@].response_ms is Some;
            let fields = round.row(cfg, state, i).at("fields"@);
            let shown = state.standing(round.done@, m.id@).shown() + " · 响应 "@;
            &&& fields is Array && fields->Array_0.len() == 2
            &&& (fields->Array_0)[0].at("text"@).at("content"@) == JsonView::Text(m.name@)
            &&& measured ==> (fields->Array_0)[1].at("text"@).at("content"@) == JsonView::Text(
                shown + round.seconds@[i]@,
            )
            &&& !measured ==> (fields->Array_0)[1].at("text"@).at("content"@) == JsonView::Text(
                shown + "—"@,
            )
        }),
{
    reveal_strlit("tag");
    reveal_strlit("fields");
    reveal_strlit("is_short");
    reveal_strlit("text");
    reveal_strlit("content");
    assert("tag"@.len() == 3 && "fields"@.len() == 6 && "is_short"@.len() == 8 && "text"@.len() == 4
        && "content"@.len() == 7);
    let o = round.row(cfg, state, i)->Object_0;
    json::members_are_found(o, 1, "fields"@);
    let fields = o[1].1->Array_0;
    let a = fields[0]->Object_0;
    let b = fields[1]->Object_0;
    json::members_are_found(a, 1, "text"@);
    json::members_are_found(b, 1, "text"@);
    json::members_are_found(a[1].1->Object_0, 1, "content"@);
    json::members_are_found(b[1].1->Object_0, 1, "content"@);
}

/// The totals of a report name each standing with the number of monitors that have it.
pub proof fn totals_count_each_standing(round: Round, cfg: Config, state: State)
    ensures
        ({
            let t = round.totals(cfg, state);
            let read = |i: int| t[i].at("text"@).at("content"@);
            &&& t.len() == 4
            &&& read(0) == JsonView::Text(
                "满血"@ + "\n"@ + text::decimal(round.count(cfg, state, Standing::Healthy)) + " 个"@,
            )
            &&& read(1) == JsonView::Text(
                "非满血"@ + "\n"@ + text::decimal(round.count(cfg, state, Standing::Degraded)) + " 个"@,
            )
            &&& read(2) == JsonView::Text(
                "本轮未检测"@ + "\n"@ + text::decimal(round.count(cfg, state, Standing::Unchecked))
                    + " 个"@,
            )
            &&& read(3) == JsonView::Text(
                "验证异常"@ + "\n"@ + text::decimal(round.count(cfg, state, Standing::Abnormal))
                    + " 个"@,
            )
        }),
{
    reveal_strlit("tag");
    reveal_strlit("is_short");
    reveal_strlit("text");
    reveal_strlit("content");
    assert("tag"@.len() == 3 && "is_short"@.len() == 8 && "text"@.len() == 4 && "content"@.len() == 7);
    let t = round.totals(cfg, state);
    assert forall|i: int| 0 <= i < 4 implies (#[trigger] t[i]).at("text"@).at("content"@)
        == ((t[i]->Object_0)[1].1->Object_0)[1].1 by {
        json::members_are_found(t[i]->Object_0, 1, "text"@);
        json::members_are_found((t[i]->Object_0)[1].1->Object_0, 1, "content"@);
    }
    assert(t[0].at("text"@).at("content"@) == ((t[0]->Object_0)[1].1->Object_0)[1].1);
    assert(t[1].at("text"@).at("content"@) == ((t[1]->Object_0)[1].1->Object_0)[1].1);
    assert(t[2].at("text"@).at("content"@) == ((t[2]->Object_0)[1].1->Object_0)[1].1);
    assert(t[3].at("text"@).at("content"@) == ((t[3]->Object_0)[1].1->Object_0)[1].1);
}

/// A monitor counts for its own standing, once.
pub proof fn monitors_count_once(
    state: State,
    monitors: Seq<Monitor>,
    done: Seq<String>,
    standing: Standing,
    n: int,
)
    requires
        0 <= n < monitors.len(),
    ensures
        state.tally(monitors, done, standing, 0) == 0,
        state.standing(done, monitors[n].id@) == standing ==> state.tally(
            monitors,
            done,
            standing,
            n + 1,
        ) == state.tally(monitors, done, standing, n) + 1,
        state.standing(done, monitors[n].id@) != standing ==> state.tally(
            monitors,
            done,
            standing,
            n + 1,
        ) == state.tally(monitors, done, standing, n),
{
}

/// The foot of a report tells the local time, how many monitors there are, and how many were checked.
pub proof fn feet_tell_how_many(round: Round, cfg: Config, now: i64)
    ensures
        text::after(
            round.foot(cfg, now),
            clock::local_stamp(now) + " · 共 "@ + text::decimal(cfg.monitors@.len())
                + " 个监控 · 本轮检测 "@ + text::decimal(round.done@.len()),
        ) == Some(" 个 · 糖果判据\n详细结果请到降智监控页面查看"@),
{
    text::prefixes_are_cut(
        clock::local_stamp(now) + " · 共 "@ + text::decimal(cfg.monitors@.len())
            + " 个监控 · 本轮检测 "@ + text::decimal(round.done@.len()),
        " 个 · 糖果判据\n详细结果请到降智监控页面查看"@,
        round.foot(cfg, now),
    );
}

/// A check touches its own monitor alone: every other keeps what is known of it, and no key, route or
/// counter changes.
pub proof fn checks_touch_their_monitor(
    before: State,
    after: State,
    cfg: Config,
    m: Monitor,
    o: Result<bool, Seq<char>>,
    response_ms: u64,
    now: i64,
    id: u64,
    other: Seq<char>,
)
    requires
        settled(before, after, cfg, m, o, response_ms, now, id),
        other != m.id@,
    ensures
        after.quality@.contains_key(m.id@),
        after.quality@[m.id@]@.checked_at == now,
        after.quality@[m.id@]@.verdict == verdict_of(o),
        after.quality@.contains_key(other) <==> before.quality@.contains_key(other),
        before.quality@.contains_key(other) ==> after.quality@[other]@ == before.quality@[other]@,
        after.keys == before.keys,
        after.last_used == before.last_used,
        after.sticky_routes == before.sticky_routes,
        after.round_robin == before.round_robin,
        after.telemetry == before.telemetry,
{
    let a = state::quality_views(before.quality@);
    let b = state::quality_views(after.quality@);
    assert(b.contains_key(m.id@));
    assert(after.quality@.contains_key(m.id@));
    assert(b[m.id@] == after.quality@[m.id@]@);
    assert(b.contains_key(other) <==> a.contains_key(other));
    assert(b.contains_key(other) <==> after.quality@.contains_key(other));
    assert(a.contains_key(other) <==> before.quality@.contains_key(other));
    if a.contains_key(other) {
        assert(b[other] == a[other]);
    }
}

} // verus!
