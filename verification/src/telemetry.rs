//! Bounded metadata only: no headers, credentials, upstream URLs or request/answer bodies.
use crate::clock;
use crate::config::{Channel, Key};
use crate::random;
use crate::table::Table;
use crate::text;
use crate::text::{hexadecimal, is_empty, same, take};
use crate::usage::{day, Tokens};
use std::collections::VecDeque;
use vstd::prelude::*;
use vstd::string::*;

verus! {

/// Counters of requests or attempts.
#[derive(Clone, Copy, Debug, PartialEq, Eq, Structural)]
pub struct Counts {
    pub requests: u64,
    pub success: u64,
    pub failed: u64,
    pub cancelled: u64,
    pub unknown: u64,
    pub switches: u64,
    pub key_switches: u64,
    pub provider_switches: u64,
    pub route_switches: u64,
    pub returns: u64,
    pub first_ms_total: u64,
    pub first_samples: u64,
}

impl Counts {
    /// Nothing counted.
    pub open spec fn zero() -> Counts {
        Counts {
            requests: 0,
            success: 0,
            failed: 0,
            cancelled: 0,
            unknown: 0,
            switches: 0,
            key_switches: 0,
            provider_switches: 0,
            route_switches: 0,
            returns: 0,
            first_ms_total: 0,
            first_samples: 0,
        }
    }

    /// The sum of two, of what attempts count.
    pub open spec fn plus(self, other: Counts) -> Counts {
        Counts {
            requests: (self.requests + other.requests) as u64,
            success: (self.success + other.success) as u64,
            failed: (self.failed + other.failed) as u64,
            cancelled: (self.cancelled + other.cancelled) as u64,
            unknown: (self.unknown + other.unknown) as u64,
            switches: (self.switches + other.switches) as u64,
            first_ms_total: (self.first_ms_total + other.first_ms_total) as u64,
            first_samples: (self.first_samples + other.first_samples) as u64,
            ..self
        }
    }

    /// Every sum that [`Counts::add`] forms can be held.
    pub open spec fn plus_fits(self, other: Counts) -> bool {
        &&& self.requests + other.requests <= u64::MAX
        &&& self.success + other.success <= u64::MAX
        &&& self.failed + other.failed <= u64::MAX
        &&& self.cancelled + other.cancelled <= u64::MAX
        &&& self.unknown + other.unknown <= u64::MAX
        &&& self.switches + other.switches <= u64::MAX
        &&& self.first_ms_total + other.first_ms_total <= u64::MAX
        &&& self.first_samples + other.first_samples <= u64::MAX
    }

    /// Adds what other attempts counted.
    pub fn add(&mut self, other: &Self)
        requires
            old(self).plus_fits(*other),
        ensures
            *final(self) == old(self).plus(*other),
    {
        self.requests = self.requests + other.requests;
        self.success = self.success + other.success;
        self.failed = self.failed + other.failed;
        self.cancelled = self.cancelled + other.cancelled;
        self.unknown = self.unknown + other.unknown;
        self.switches = self.switches + other.switches;
        self.first_ms_total = self.first_ms_total + other.first_ms_total;
        self.first_samples = self.first_samples + other.first_samples;
    }

    /// The counters after one more outcome.
    pub open spec fn with_outcome(self, outcome: Seq<char>) -> Counts {
        if outcome == "success"@ {
            Counts { success: (self.success + 1) as u64, ..self }
        } else if outcome == "failed"@ {
            Counts { failed: (self.failed + 1) as u64, ..self }
        } else if outcome == "cancelled"@ {
            Counts { cancelled: (self.cancelled + 1) as u64, ..self }
        } else {
            Counts { unknown: (self.unknown + 1) as u64, ..self }
        }
    }

    /// The counters after one more outcome, with the time to its first output where there was one.
    pub open spec fn with_result(self, outcome: Seq<char>, first: Option<u64>) -> Counts {
        let c = self.with_outcome(outcome);
        match first {
            Some(ms) => Counts {
                first_ms_total: (self.first_ms_total + ms) as u64,
                first_samples: (self.first_samples + 1) as u64,
                ..c
            },
            None => c,
        }
    }

    /// One more outcome can be counted.
    pub open spec fn result_fits(self, outcome: Seq<char>, first: Option<u64>) -> bool {
        &&& outcome == "success"@ ==> self.success < u64::MAX
        &&& outcome == "failed"@ ==> self.failed < u64::MAX
        &&& outcome == "cancelled"@ ==> self.cancelled < u64::MAX
        &&& outcome != "success"@ && outcome != "failed"@ && outcome != "cancelled"@
            ==> self.unknown < u64::MAX
        &&& match first {
            Some(ms) => self.first_ms_total + ms <= u64::MAX && self.first_samples < u64::MAX,
            None => true,
        }
    }

    /// Counts one more outcome, and the time to its first output where there was one.
    pub fn result(&mut self, outcome: &str, first: Option<u64>)
        requires
            old(self).result_fits(outcome@, first),
        ensures
            *final(self) == old(self).with_result(outcome@, first),
    {
        if same(outcome, "success") {
            self.success = self.success + 1;
        } else if same(outcome, "failed") {
            self.failed = self.failed + 1;
        } else if same(outcome, "cancelled") {
            self.cancelled = self.cancelled + 1;
        } else {
            self.unknown = self.unknown + 1;
        }
        match first {
            Some(ms) => {
                self.first_ms_total = self.first_ms_total + ms;
                self.first_samples = self.first_samples + 1;
            },
            None => {},
        }
    }
}

impl Default for Counts {
    fn default() -> (r: Self)
        ensures
            r == Counts::zero(),
    {
        Counts {
            requests: 0,
            success: 0,
            failed: 0,
            cancelled: 0,
            unknown: 0,
            switches: 0,
            key_switches: 0,
            provider_switches: 0,
            route_switches: 0,
            returns: 0,
            first_ms_total: 0,
            first_samples: 0,
        }
    }
}

/// The counters of one channel.
pub struct Provider {
    pub name: String,
    pub counts: Counts,
}

/// The mathematical model of [`Provider`].
pub struct ProviderView {
    pub name: Seq<char>,
    pub counts: Counts,
}

impl View for Provider {
    type V = ProviderView;

    open spec fn view(&self) -> ProviderView {
        ProviderView { name: self.name@, counts: self.counts }
    }
}

impl Provider {
    fn copy(&self) -> (r: Provider)
        ensures
            r@ == self@,
    {
        Provider { name: self.name.clone(), counts: self.counts }
    }
}

/// The models of the channels in a table.
pub open spec fn provider_views(m: Map<Seq<char>, Provider>) -> Map<Seq<char>, ProviderView> {
    m.map_values(|p: Provider| p@)
}

/// The counters of one minute, by channel.
pub struct Bucket {
    pub minute: i64,
    pub channels: Table<Provider>,
}

/// The mathematical model of [`Bucket`].
pub struct BucketView {
    pub minute: i64,
    pub channels: Map<Seq<char>, ProviderView>,
}

impl View for Bucket {
    type V = BucketView;

    open spec fn view(&self) -> BucketView {
        BucketView { minute: self.minute, channels: provider_views(self.channels@) }
    }
}

impl Bucket {
    fn copy(&self) -> (r: Bucket)
        ensures
            r@ == self@,
    {
        let keys = self.channels.keys();
        let mut channels: Table<Provider> = Table::new();
        let mut i: usize = 0;
        while i < keys.len()
            invariant
                i <= keys@.len(),
                forall|k: int| 0 <= k < keys@.len() ==> self.channels@.contains_key(
                    #[trigger] keys@[k]@,
                ),
                forall|k: Seq<char>| #[trigger]
                    channels@.contains_key(k) ==> self.channels@.contains_key(k)
                        && channels@[k]@ == self.channels@[k]@,
                forall|k: int| 0 <= k < i ==> channels@.contains_key(#[trigger] keys@[k]@),
            decreases keys@.len() - i,
        {
            let key = keys[i].as_str();
            match self.channels.get(key) {
                Some(p) => {
                    channels.insert(key.to_owned(), p.copy());
                },
                None => {},
            }
            i = i + 1;
        }
        let r = Bucket { minute: self.minute, channels };
        assert(r@.channels =~= self@.channels) by {
            assert forall|k: Seq<char>| self@.channels.contains_key(k) implies #[trigger]
                r@.channels.contains_key(k) by {
                let i = choose|i: int| 0 <= i < keys@.len() && #[trigger] keys@[i]@ == k;
                assert(channels@.contains_key(keys@[i]@));
            }
        }
        r
    }
}

/// One attempt at an upstream.
pub struct Attempt {
    pub channel_id: String,
    pub channel: String,
    pub key_id: String,
    pub status: Option<u16>,
    pub reason: String,
    pub elapsed_ms: u64,
    pub first_ms: Option<u64>,
    pub outcome: String,
    pub usage: Option<Tokens>,
}

/// The mathematical model of [`Attempt`].
pub struct AttemptView {
    pub channel_id: Seq<char>,
    pub channel: Seq<char>,
    pub key_id: Seq<char>,
    pub status: Option<u16>,
    pub reason: Seq<char>,
    pub elapsed_ms: u64,
    pub first_ms: Option<u64>,
    pub outcome: Seq<char>,
    pub usage: Option<Tokens>,
}

impl View for Attempt {
    type V = AttemptView;

    open spec fn view(&self) -> AttemptView {
        AttemptView {
            channel_id: self.channel_id@,
            channel: self.channel@,
            key_id: self.key_id@,
            status: self.status,
            reason: self.reason@,
            elapsed_ms: self.elapsed_ms,
            first_ms: self.first_ms,
            outcome: self.outcome@,
            usage: self.usage,
        }
    }
}

impl AttemptView {
    /// Nothing known of an attempt.
    pub open spec fn blank() -> AttemptView {
        AttemptView {
            channel_id: Seq::empty(),
            channel: Seq::empty(),
            key_id: Seq::empty(),
            status: None,
            reason: Seq::empty(),
            elapsed_ms: 0,
            first_ms: None,
            outcome: Seq::empty(),
            usage: None,
        }
    }
}

fn empty_text() -> (r: String)
    ensures
        r@ == Seq::<char>::empty(),
{
    let r = String::new();
    assert(r@ =~= Seq::empty());
    r
}

impl Default for Attempt {
    fn default() -> (r: Self)
        ensures
            r@ == AttemptView::blank(),
    {
        Attempt {
            channel_id: empty_text(),
            channel: empty_text(),
            key_id: empty_text(),
            status: None,
            reason: empty_text(),
            elapsed_ms: 0,
            first_ms: None,
            outcome: empty_text(),
            usage: None,
        }
    }
}

impl Attempt {
    fn copy(&self) -> (r: Attempt)
        ensures
            r@ == self@,
    {
        Attempt {
            channel_id: self.channel_id.clone(),
            channel: self.channel.clone(),
            key_id: self.key_id.clone(),
            status: self.status,
            reason: self.reason.clone(),
            elapsed_ms: self.elapsed_ms,
            first_ms: self.first_ms,
            outcome: self.outcome.clone(),
            usage: self.usage,
        }
    }
}

/// The models of several attempts.
pub open spec fn attempt_views(s: Seq<Attempt>) -> Seq<AttemptView> {
    s.map_values(|a: Attempt| a@)
}

/// One request.
pub struct Report {
    pub id: String,
    pub at: i64,
    pub model: String,
    pub status: u16,
    pub outcome: String,
    pub reason: String,
    pub elapsed_ms: u64,
    pub first_ms: Option<u64>,
    pub output_started: bool,
    pub attempts: Vec<Attempt>,
}

/// The mathematical model of [`Report`].
pub struct ReportView {
    pub id: Seq<char>,
    pub at: i64,
    pub model: Seq<char>,
    pub status: u16,
    pub outcome: Seq<char>,
    pub reason: Seq<char>,
    pub elapsed_ms: u64,
    pub first_ms: Option<u64>,
    pub output_started: bool,
    pub attempts: Seq<AttemptView>,
}

impl View for Report {
    type V = ReportView;

    open spec fn view(&self) -> ReportView {
        ReportView {
            id: self.id@,
            at: self.at,
            model: self.model@,
            status: self.status,
            outcome: self.outcome@,
            reason: self.reason@,
            elapsed_ms: self.elapsed_ms,
            first_ms: self.first_ms,
            output_started: self.output_started,
            attempts: attempt_views(self.attempts@),
        }
    }
}

impl ReportView {
    /// Nothing known of a request.
    pub open spec fn blank() -> ReportView {
        ReportView {
            id: Seq::empty(),
            at: 0,
            model: Seq::empty(),
            status: 0,
            outcome: Seq::empty(),
            reason: Seq::empty(),
            elapsed_ms: 0,
            first_ms: None,
            output_started: false,
            attempts: Seq::empty(),
        }
    }
}

impl Default for Report {
    fn default() -> (r: Self)
        ensures
            r@ == ReportView::blank(),
    {
        let r = Report {
            id: empty_text(),
            at: 0,
            model: empty_text(),
            status: 0,
            outcome: empty_text(),
            reason: empty_text(),
            elapsed_ms: 0,
            first_ms: None,
            output_started: false,
            attempts: Vec::new(),
        };
        assert(r@.attempts =~= Seq::empty());
        r
    }
}

impl Report {
    fn copy(&self) -> (r: Report)
        ensures
            r@ == self@,
    {
        let mut attempts: Vec<Attempt> = Vec::new();
        let mut i: usize = 0;
        while i < self.attempts.len()
            invariant
                i <= self.attempts@.len(),
                attempts@.len() == i,
                forall|k: int| 0 <= k < i ==> (#[trigger] attempts@[k])@ == self.attempts@[k]@,
            decreases self.attempts@.len() - i,
        {
            attempts.push(self.attempts[i].copy());
            i = i + 1;
        }
        assert(attempt_views(attempts@) =~= attempt_views(self.attempts@));
        Report {
            id: self.id.clone(),
            at: self.at,
            model: self.model.clone(),
            status: self.status,
            outcome: self.outcome.clone(),
            reason: self.reason.clone(),
            elapsed_ms: self.elapsed_ms,
            first_ms: self.first_ms,
            output_started: self.output_started,
            attempts,
        }
    }
}

/// What was counted of all requests.
pub struct Metrics {
    pub day: i64,
    pub today: Counts,
    pub hours: VecDeque<Bucket>,
    pub failures: VecDeque<Report>,
    pub active: u64,
}

/// The mathematical model of [`Metrics`].
pub struct MetricsView {
    pub day: i64,
    pub today: Counts,
    pub hours: Seq<BucketView>,
    pub failures: Seq<ReportView>,
    pub active: u64,
}

/// The models of several buckets.
pub open spec fn bucket_views(s: Seq<Bucket>) -> Seq<BucketView> {
    s.map_values(|b: Bucket| b@)
}

/// The models of several reports.
pub open spec fn report_views(s: Seq<Report>) -> Seq<ReportView> {
    s.map_values(|r: Report| r@)
}

/// The first elements, as many as fit.
pub open spec fn cut<A>(s: Seq<A>, n: nat) -> Seq<A> {
    if s.len() > n {
        s.take(n as int)
    } else {
        s
    }
}

/// The buckets of the sixty minutes that end with a given one.
pub open spec fn last_hour(s: Seq<BucketView>, minute: int) -> Seq<BucketView>
    decreases s.len(),
{
    if s.len() == 0 {
        Seq::empty()
    } else {
        let rest = last_hour(s.drop_last(), minute);
        if minute - 60 < s.last().minute <= minute {
            rest.push(s.last())
        } else {
            rest
        }
    }
}

/// The minute in which a time falls.
pub open spec fn minute_of(now: int) -> int {
    now / 60
}

fn minute(now: i64) -> (r: i64)
    ensures
        r == minute_of(now as int),
{
    let q = now / 60;
    if now % 60 < 0 {
        q - 1
    } else {
        q
    }
}

impl MetricsView {
    /// Nothing counted yet.
    pub open spec fn blank() -> MetricsView {
        MetricsView {
            day: 0,
            today: Counts::zero(),
            hours: Seq::empty(),
            failures: Seq::empty(),
            active: 0,
        }
    }

    /// What still counts at a time: today's counters and the last hour.
    pub open spec fn rolled(self, now: int) -> MetricsView {
        let today = clock::local_day(now);
        MetricsView {
            day: today as i64,
            today: if self.day == today {
                self.today
            } else {
                Counts::zero()
            },
            hours: cut(last_hour(self.hours, minute_of(now)), 60),
            failures: cut(self.failures, 200),
            ..self
        }
    }
}

impl Default for Metrics {
    fn default() -> (r: Self)
        ensures
            r.model() == MetricsView::blank(),
    {
        let r = Metrics {
            day: 0,
            today: Counts::default(),
            hours: VecDeque::new(),
            failures: VecDeque::new(),
            active: 0,
        };
        assert(r.model().hours =~= Seq::empty());
        assert(r.model().failures =~= Seq::empty());
        r
    }
}

impl Metrics {
    /// The mathematical model.
    pub open spec fn model(&self) -> MetricsView {
        MetricsView {
            day: self.day,
            today: self.today,
            hours: bucket_views(self.hours@),
            failures: report_views(self.failures@),
            active: self.active,
        }
    }

    fn keep_hour(&mut self, minute: i64)
        requires
            i64::MIN + 60 <= minute,
        ensures
            final(self).model() == (MetricsView {
                hours: last_hour(old(self).model().hours, minute as int),
                ..old(self).model()
            }),
    {
        let mut left: VecDeque<Bucket> = VecDeque::new();
        std::mem::swap(&mut left, &mut self.hours);
        let ghost all = bucket_views(left@);
        let total = left.len();
        let mut kept: VecDeque<Bucket> = VecDeque::new();
        let mut i: usize = 0;
        assert(all.take(0) =~= Seq::empty());
        assert(bucket_views(kept@) =~= Seq::empty());
        assert(all.skip(0) =~= all);
        while i < total
            invariant
                i <= total,
                total == all.len(),
                i64::MIN + 60 <= minute,
                bucket_views(left@) == all.skip(i as int),
                bucket_views(kept@) == last_hour(all.take(i as int), minute as int),
            decreases total - i,
        {
            assert(all.take(i + 1).drop_last() =~= all.take(i as int));
            assert(all.skip(i as int)[0] == all[i as int]);
            assert(bucket_views(left@).len() == left@.len());
            let ghost before_left = left@;
            let ghost before = kept@;
            match left.pop_front() {
                Some(b) => {
                    assert(bucket_views(before_left)[0] == before_left[0]@);
                    assert(bucket_views(left@) =~= bucket_views(before_left).skip(1));
                    assert(all.skip(i as int).skip(1) =~= all.skip(i + 1));
                    if b.minute > minute - 60 && b.minute <= minute {
                        kept.push_back(b);
                        assert(bucket_views(kept@) =~= bucket_views(before).push(b@));
                    }
                },
                None => {},
            }
            i = i + 1;
        }
        assert(all.take(total as int) =~= all);
        self.hours = kept;
    }

    /// Drops what no longer counts at a time.
    pub fn roll(&mut self, now: i64)
        requires
            now + 28800 <= i64::MAX,
        ensures
            final(self).model() == old(self).model().rolled(now as int),
    {
        let day = day(now);
        if self.day != day {
            self.day = day;
            self.today = Counts::default();
        }
        let minute = minute(now);
        self.keep_hour(minute);
        let ghost hours = self.hours@;
        self.hours.truncate(60);
        assert(self.model().hours =~= cut(bucket_views(hours), 60));
        self.failures.truncate(200);
        assert(self.model().failures =~= cut(old(self).model().failures, 200));
    }

    /// The counters after a change of route.
    pub open spec fn switched(m: MetricsView, now: int, returning: bool) -> MetricsView {
        let r = m.rolled(now);
        MetricsView {
            today: Counts {
                route_switches: (r.today.route_switches + 1) as u64,
                returns: if returning {
                    (r.today.returns + 1) as u64
                } else {
                    r.today.returns
                },
                ..r.today
            },
            ..r
        }
    }

    /// Counts a change of route as of a time.
    pub fn route_switch_at(&mut self, now: i64, returning: bool)
        requires
            now + 28800 <= i64::MAX,
            old(self).today.route_switches < u64::MAX,
            returning ==> old(self).today.returns < u64::MAX,
        ensures
            final(self).model() == Self::switched(old(self).model(), now as int, returning),
    {
        self.roll(now);
        self.today.route_switches = self.today.route_switches + 1;
        if returning {
            self.today.returns = self.today.returns + 1;
        }
    }

    /// Counts a change of route.
    pub fn route_switch(&mut self, returning: bool)
        requires
            old(self).today.route_switches < u64::MAX,
            returning ==> old(self).today.returns < u64::MAX,
        ensures
            exists|now: i64|
                clock::reading(now as int) && final(self).model() == #[trigger] Self::switched(
                    old(self).model(),
                    now as int,
                    returning,
                ),
    {
        let now = clock::now();
        self.route_switch_at(now, returning);
    }

    /// A copy of what was counted.
    pub fn copy(&self) -> (r: Metrics)
        ensures
            r.model() == self.model(),
    {
        let mut hours: VecDeque<Bucket> = VecDeque::new();
        let mut i: usize = 0;
        while i < self.hours.len()
            invariant
                i <= self.hours@.len(),
                hours@.len() == i,
                forall|k: int| 0 <= k < i ==> (#[trigger] hours@[k])@ == self.hours@[k]@,
            decreases self.hours@.len() - i,
        {
            hours.push_back(self.hours[i].copy());
            i = i + 1;
        }
        let mut failures: VecDeque<Report> = VecDeque::new();
        i = 0;
        while i < self.failures.len()
            invariant
                i <= self.failures@.len(),
                failures@.len() == i,
                forall|k: int| 0 <= k < i ==> (#[trigger] failures@[k])@ == self.failures@[k]@,
            decreases self.failures@.len() - i,
        {
            failures.push_back(self.failures[i].copy());
            i = i + 1;
        }
        let r = Metrics { day: self.day, today: self.today, hours, failures, active: self.active };
        assert(r.model().hours =~= self.model().hours);
        assert(r.model().failures =~= self.model().failures);
        r
    }

    /// What counts now.
    pub fn snapshot(&mut self) -> (r: Self)
        ensures
            r.model() == final(self).model(),
            exists|now: i64|
                clock::reading(now as int) && final(self).model() == #[trigger] old(
                    self,
                ).model().rolled(now as int),
    {
        let now = clock::now();
        self.roll(now);
        self.copy()
    }
}

/// A channel's counters over several minutes, under the last name that it had.
pub open spec fn total(s: Seq<BucketView>, id: Seq<char>) -> ProviderView
    decreases s.len(),
{
    if s.len() == 0 {
        ProviderView { name: Seq::empty(), counts: Counts::zero() }
    } else {
        let rest = total(s.drop_last(), id);
        if s.last().channels.contains_key(id) {
            let p = s.last().channels[id];
            ProviderView { name: p.name, counts: rest.counts.plus(p.counts) }
        } else {
            rest
        }
    }
}

/// A channel's counters over several minutes can be added up.
pub open spec fn total_fits(s: Seq<BucketView>, id: Seq<char>) -> bool
    decreases s.len(),
{
    s.len() > 0 ==> {
        &&& total_fits(s.drop_last(), id)
        &&& s.last().channels.contains_key(id) ==> total(s.drop_last(), id).counts.plus_fits(
            s.last().channels[id].counts,
        )
    }
}

/// Some minute counted something of a channel.
pub open spec fn present(s: Seq<BucketView>, id: Seq<char>) -> bool {
    exists|i: int| 0 <= i < s.len() && #[trigger] s[i].channels.contains_key(id)
}

/// All channels of several minutes, added up.
pub open spec fn totals(s: Seq<BucketView>) -> Map<Seq<char>, ProviderView> {
    Map::new(|id: Seq<char>| present(s, id), |id: Seq<char>| total(s, id))
}

/// All channels of several minutes can be added up.
pub open spec fn totals_fit(s: Seq<BucketView>) -> bool {
    forall|id: Seq<char>| present(s, id) ==> #[trigger] total_fits(s, id)
}

/// What an administrator sees of traffic.
pub struct Traffic {
    pub active: u64,
    pub today: Counts,
    pub providers: Table<Provider>,
    pub failures: VecDeque<Report>,
}

proof fn fits_before(s: Seq<BucketView>, n: int, id: Seq<char>)
    requires
        0 <= n <= s.len(),
        total_fits(s, id),
    ensures
        total_fits(s.take(n), id),
    decreases s.len(),
{
    if n == s.len() {
        assert(s.take(n) =~= s);
    } else {
        assert(s.drop_last().take(n) =~= s.take(n));
        fits_before(s.drop_last(), n, id);
    }
}

proof fn present_next(s: Seq<BucketView>, i: int, id: Seq<char>)
    requires
        0 <= i < s.len(),
    ensures
        present(s.take(i + 1), id) == (present(s.take(i), id) || s[i].channels.contains_key(id)),
        present(s.take(i + 1), id) ==> present(s, id),
        total(s.take(i + 1), id) == (if s[i].channels.contains_key(id) {
            ProviderView {
                name: s[i].channels[id].name,
                counts: total(s.take(i), id).counts.plus(s[i].channels[id].counts),
            }
        } else {
            total(s.take(i), id)
        }),
{
    let a = s.take(i + 1);
    let b = s.take(i);
    assert(a.drop_last() =~= b);
    if present(a, id) {
        let k = choose|k: int| 0 <= k < a.len() && #[trigger] a[k].channels.contains_key(id);
        assert(s[k].channels.contains_key(id));
        if k < i {
            assert(b[k].channels.contains_key(id));
        }
    }
    if present(b, id) {
        let k = choose|k: int| 0 <= k < b.len() && #[trigger] b[k].channels.contains_key(id);
        assert(a[k].channels.contains_key(id));
    }
    if s[i].channels.contains_key(id) {
        assert(a[i].channels.contains_key(id));
    }
}

proof fn nothing_before(s: Seq<BucketView>, id: Seq<char>)
    requires
        !present(s, id),
    ensures
        total(s, id) == (ProviderView { name: Seq::empty(), counts: Counts::zero() }),
    decreases s.len(),
{
    if s.len() > 0 {
        assert(!s[s.len() - 1].channels.contains_key(id));
        if present(s.drop_last(), id) {
            let k = choose|k: int|
                0 <= k < s.drop_last().len() && #[trigger] s.drop_last()[k].channels.contains_key(
                    id,
                );
            assert(s[k].channels.contains_key(id));
        }
        nothing_before(s.drop_last(), id);
    }
}

/// Adds one minute to the sums of the minutes before it.
fn add_bucket(
    providers: &mut Table<Provider>,
    bucket: &Bucket,
    Ghost(s): Ghost<Seq<BucketView>>,
    Ghost(i): Ghost<int>,
)
    requires
        0 <= i < s.len(),
        s[i] == bucket@,
        totals_fit(s),
        provider_views(old(providers)@) == totals(s.take(i)),
    ensures
        provider_views(final(providers)@) == totals(s.take(i + 1)),
{
    let ghost before = totals(s.take(i));
    let keys = bucket.channels.keys();
    let mut n: usize = 0;
    while n < keys.len()
        invariant
            n <= keys@.len(),
            0 <= i < s.len(),
            s[i] == bucket@,
            totals_fit(s),
            before == totals(s.take(i)),
            forall|a: int, b: int|
                0 <= a < b < keys@.len() ==> (#[trigger] keys@[a])@ != (#[trigger] keys@[b])@,
            forall|k: int| 0 <= k < keys@.len() ==> bucket.channels@.contains_key(
                #[trigger] keys@[k]@,
            ),
            forall|id: Seq<char>| #[trigger]
                providers@.contains_key(id) ==> before.contains_key(id) || exists|k: int|
                    0 <= k < n && #[trigger] keys@[k]@ == id,
            forall|id: Seq<char>| #[trigger]
                before.contains_key(id) ==> providers@.contains_key(id),
            forall|id: Seq<char>|
                providers@.contains_key(id) && (forall|k: int|
                    0 <= k < n ==> #[trigger] keys@[k]@ != id) ==> #[trigger] providers@[id]@
                    == before[id],
            forall|k: int|
                0 <= k < n ==> providers@.contains_key(#[trigger] keys@[k]@)
                    && providers@[keys@[k]@]@ == total(s.take(i + 1), keys@[k]@),
        decreases keys@.len() - n,
    {
        let key = keys[n].as_str();
        let ghost id = key@;
        proof {
            present_next(s, i, id);
            assert(s[i].channels.contains_key(id));
            assert(total_fits(s, id));
            fits_before(s, i + 1, id);
            assert(s.take(i + 1).drop_last() =~= s.take(i));
            if !present(s.take(i), id) {
                nothing_before(s.take(i), id);
            }
        }
        assert(before.contains_key(id) == present(s.take(i), id));
        assert(before.contains_key(id) ==> before[id] == total(s.take(i), id));
        let mut counts = match providers.get(key) {
            Some(p) => {
                assert(before.contains_key(id));
                assert(p@ == before[id]);
                p.counts
            },
            None => Counts::default(),
        };
        assert(counts == total(s.take(i), id).counts);
        match bucket.channels.get(key) {
            Some(p) => {
                counts.add(&p.counts);
                providers.insert(key.to_owned(), Provider { name: p.name.clone(), counts });
            },
            None => {},
        }
        n = n + 1;
    }
    proof {
        let now = provider_views(providers@);
        let goal = totals(s.take(i + 1));
        assert forall|id: Seq<char>|
            #![trigger now.contains_key(id)]
            #![trigger goal.contains_key(id)]
            now.contains_key(id) == goal.contains_key(id) && (now.contains_key(id) ==> now[id]
                == goal[id]) by {
            present_next(s, i, id);
            if bucket.channels@.contains_key(id) {
                let k = choose|k: int| 0 <= k < keys@.len() && #[trigger] keys@[k]@ == id;
                assert(providers@.contains_key(keys@[k]@));
                assert(s[i].channels.contains_key(id));
            } else {
                assert(forall|k: int| 0 <= k < n ==> #[trigger] keys@[k]@ != id);
                assert(!s[i].channels.contains_key(id));
                if before.contains_key(id) {
                    assert(providers@.contains_key(id));
                    assert(providers@[id]@ == before[id]);
                }
            }
        }
        assert(now =~= goal);
    }
}

impl Metrics {
    /// What an administrator sees, of counters that still count.
    pub fn traffic(&self) -> (r: Traffic)
        requires
            totals_fit(self.model().hours),
        ensures
            r.active == self.active,
            r.today == self.today,
            provider_views(r.providers@) == totals(self.model().hours),
            report_views(r.failures@) == self.model().failures,
    {
        let ghost s = self.model().hours;
        let mut providers: Table<Provider> = Table::new();
        let mut i: usize = 0;
        assert(provider_views(providers@) =~= totals(s.take(0)));
        while i < self.hours.len()
            invariant
                i <= self.hours@.len(),
                s == self.model().hours,
                totals_fit(s),
                provider_views(providers@) == totals(s.take(i as int)),
            decreases self.hours@.len() - i,
        {
            assert(s[i as int] == self.hours@[i as int]@);
            add_bucket(&mut providers, &self.hours[i], Ghost(s), Ghost(i as int));
            i = i + 1;
        }
        assert(s.take(s.len() as int) =~= s);
        let failures = self.copy().failures;
        Traffic { active: self.active, today: self.today, providers, failures }
    }

    /// What an administrator sees now.
    pub fn view(&mut self) -> (r: Traffic)
        requires
            forall|now: i64|
                clock::reading(now as int) ==> totals_fit(
                    (#[trigger] old(self).model().rolled(now as int)).hours,
                ),
        ensures
            exists|now: i64|
                clock::reading(now as int) && final(self).model() == #[trigger] old(
                    self,
                ).model().rolled(now as int),
            r.active == final(self).active,
            r.today == final(self).today,
            provider_views(r.providers@) == totals(final(self).model().hours),
            report_views(r.failures@) == final(self).model().failures,
    {
        let snapshot = self.snapshot();
        snapshot.traffic()
    }
}

/// A request under way.
pub struct Trace {
    pub report: Report,
    pub start: std::time::Instant,
    pub attempt_start: std::time::Instant,
    pub counted: bool,
}

/// Whether a request was filed among the finished ones.
pub struct Guard {
    pub finished: bool,
}

/// Attempts, the last of which ended; what ended before stays as it was.
pub open spec fn with_end(
    s: Seq<AttemptView>,
    outcome: Seq<char>,
    reason: Seq<char>,
    elapsed_ms: u64,
) -> Seq<AttemptView> {
    if s.len() > 0 && s.last().outcome.len() == 0 {
        s.drop_last().push(AttemptView { outcome, reason, elapsed_ms, ..s.last() })
    } else {
        s
    }
}

impl ReportView {
    /// The request after a result of its present attempt.
    pub open spec fn with_result(
        self,
        outcome: Seq<char>,
        reason: Seq<char>,
        elapsed_ms: u64,
    ) -> ReportView {
        ReportView {
            outcome,
            reason,
            attempts: with_end(self.attempts, outcome, reason, elapsed_ms),
            ..self
        }
    }

    /// The request after an attempt failed and another may follow.
    pub open spec fn with_retry(self, reason: Seq<char>, elapsed_ms: u64) -> ReportView {
        ReportView {
            outcome: Seq::empty(),
            reason: Seq::empty(),
            first_ms: None,
            ..self.with_result("failed"@, reason, elapsed_ms)
        }
    }

    /// The request after its response was decided.
    pub open spec fn with_response(
        self,
        status: u16,
        reason: Option<Seq<char>>,
        elapsed_ms: u64,
    ) -> ReportView {
        let r = ReportView { status, ..self };
        if status >= 400 {
            r.with_result(
                "failed"@,
                match reason {
                    Some(t) => t,
                    None => "upstream_input_error"@,
                },
                elapsed_ms,
            )
        } else {
            r
        }
    }

    /// The request after its first output, where that was not noted before.
    pub open spec fn with_first(self, ms: u64, attempt_ms: u64) -> ReportView {
        ReportView {
            first_ms: match self.first_ms {
                Some(n) => Some(n),
                None => Some(ms),
            },
            attempts: if self.attempts.len() > 0 && self.attempts.last().first_ms is None {
                self.attempts.drop_last().push(
                    AttemptView { first_ms: Some(attempt_ms), ..self.attempts.last() },
                )
            } else {
                self.attempts
            },
            ..self
        }
    }

    /// The request at its end. One without an outcome ends as cancelled or unknown.
    pub open spec fn closed(self, cancelled: bool, attempt_ms: u64, elapsed_ms: u64) -> ReportView {
        let r = if cancelled {
            self.with_result("cancelled"@, "client_cancelled"@, attempt_ms)
        } else if self.outcome.len() == 0 {
            self.with_result("unknown"@, "unrecognized_terminal"@, attempt_ms)
        } else {
            self
        };
        ReportView { elapsed_ms, ..r }
    }
}

/// How often an attempt follows one at the same channel.
pub open spec fn same_channel(s: Seq<AttemptView>) -> nat
    decreases s.len(),
{
    if s.len() < 2 {
        0
    } else {
        same_channel(s.drop_last()) + if s[s.len() - 2].channel_id == s.last().channel_id {
            1nat
        } else {
            0nat
        }
    }
}

/// How often an attempt follows another.
pub open spec fn changes(s: Seq<AttemptView>) -> nat {
    if s.len() == 0 {
        0
    } else {
        (s.len() - 1) as nat
    }
}

impl Counts {
    /// The counters after a request that started on their day.
    pub open spec fn with_request(self, r: ReportView) -> Counts {
        let c = self.with_result(r.outcome, r.first_ms);
        Counts {
            switches: (c.switches + changes(r.attempts)) as u64,
            key_switches: (c.key_switches + same_channel(r.attempts)) as u64,
            provider_switches: (c.provider_switches + changes(r.attempts) - same_channel(
                r.attempts,
            )) as u64,
            ..c
        }
    }

    /// A request can be counted.
    pub open spec fn request_fits(self, r: ReportView) -> bool {
        &&& self.result_fits(r.outcome, r.first_ms)
        &&& self.switches + changes(r.attempts) <= u64::MAX
        &&& self.key_switches + same_channel(r.attempts) <= u64::MAX
        &&& self.provider_switches + changes(r.attempts) - same_channel(r.attempts) <= u64::MAX
    }
}

/// What was counted of a channel.
pub open spec fn counts_of(m: Map<Seq<char>, ProviderView>, id: Seq<char>) -> Counts {
    if m.contains_key(id) {
        m[id].counts
    } else {
        Counts::zero()
    }
}

/// No further channel finds room.
pub open spec fn full(m: Map<Seq<char>, ProviderView>, id: Seq<char>) -> bool {
    m.dom().len() >= 256 && !m.contains_key(id)
}

/// The channels of a minute after several attempts.
pub open spec fn with_attempts(m: Map<Seq<char>, ProviderView>, s: Seq<AttemptView>) -> Map<
    Seq<char>,
    ProviderView,
>
    decreases s.len(),
{
    if s.len() == 0 {
        m
    } else {
        let rest = with_attempts(m, s.drop_last());
        let a = s.last();
        if full(rest, a.channel_id) {
            rest
        } else {
            let c = counts_of(rest, a.channel_id);
            rest.insert(
                a.channel_id,
                ProviderView {
                    name: a.channel,
                    counts: (Counts { requests: (c.requests + 1) as u64, ..c }).with_result(
                        a.outcome,
                        a.first_ms,
                    ),
                },
            )
        }
    }
}

/// Several attempts can be counted among the channels of a minute.
pub open spec fn attempts_fit(m: Map<Seq<char>, ProviderView>, s: Seq<AttemptView>) -> bool
    decreases s.len(),
{
    s.len() > 0 ==> {
        let rest = with_attempts(m, s.drop_last());
        let a = s.last();
        let c = counts_of(rest, a.channel_id);
        &&& attempts_fit(m, s.drop_last())
        &&& !full(rest, a.channel_id) ==> c.requests < u64::MAX && c.result_fits(
            a.outcome,
            a.first_ms,
        )
    }
}

impl MetricsView {
    /// The channels counted so far in the minute of a time.
    pub open spec fn present_channels(self, now: int) -> Map<Seq<char>, ProviderView> {
        if self.hours.len() > 0 && self.hours.last().minute == minute_of(now) {
            self.hours.last().channels
        } else {
            Map::empty()
        }
    }

    /// What was counted, after the start of a request.
    pub open spec fn begun(self, now: int) -> MetricsView {
        let m = self.rolled(now);
        MetricsView {
            active: (m.active + 1) as u64,
            today: Counts { requests: (m.today.requests + 1) as u64, ..m.today },
            ..m
        }
    }

    /// What was counted, after the end of a request. The day's outcomes belong to the day on which
    /// the request started, so that yesterday's long streams do not skew today's rate.
    pub open spec fn filed(self, now: int, r: ReportView) -> MetricsView {
        let m = self.rolled(now);
        let earlier = if m.hours.len() > 0 && m.hours.last().minute == minute_of(now) {
            m.hours.drop_last()
        } else {
            m.hours
        };
        MetricsView {
            active: if m.active == 0 {
                0
            } else {
                (m.active - 1) as u64
            },
            today: if clock::local_day(r.at as int) == m.day {
                m.today.with_request(r)
            } else {
                m.today
            },
            hours: earlier.push(
                BucketView {
                    minute: minute_of(now) as i64,
                    channels: with_attempts(m.present_channels(now), r.attempts),
                },
            ),
            failures: if r.outcome == "success"@ {
                m.failures
            } else {
                cut(seq![r] + m.failures, 200)
            },
            ..m
        }
    }

    /// The end of a request can be counted.
    pub open spec fn filing_fits(self, now: int, r: ReportView) -> bool {
        let m = self.rolled(now);
        &&& clock::local_day(r.at as int) == m.day ==> m.today.request_fits(r)
        &&& attempts_fit(m.present_channels(now), r.attempts)
    }
}

impl Report {
    fn end_attempt(&mut self, outcome: &str, reason: &str, elapsed_ms: u64)
        ensures
            final(self)@ == (ReportView {
                attempts: with_end(old(self)@.attempts, outcome@, reason@, elapsed_ms),
                ..old(self)@
            }),
    {
        let ghost before = self.attempts@;
        match self.attempts.pop() {
            Some(mut a) => {
                let ghost last = a@;
                assert(before.last()@ == last);
                if is_empty(a.outcome.as_str()) {
                    a.outcome = outcome.to_owned();
                    a.reason = reason.to_owned();
                    a.elapsed_ms = elapsed_ms;
                }
                self.attempts.push(a);
                assert(self@.attempts =~= with_end(
                    attempt_views(before),
                    outcome@,
                    reason@,
                    elapsed_ms,
                ));
            },
            None => {
                assert(self.attempts@ =~= before);
            },
        }
    }

    /// Notes a result of the present attempt.
    pub fn end(&mut self, outcome: &str, reason: &str, elapsed_ms: u64)
        ensures
            final(self)@ == old(self)@.with_result(outcome@, reason@, elapsed_ms),
    {
        self.outcome = outcome.to_owned();
        self.reason = reason.to_owned();
        self.end_attempt(outcome, reason, elapsed_ms);
    }

    /// Notes the failure of an attempt that another may follow.
    pub fn retry_after(&mut self, reason: &str, elapsed_ms: u64)
        ensures
            final(self)@ == old(self)@.with_retry(reason@, elapsed_ms),
    {
        self.end("failed", reason, elapsed_ms);
        self.outcome = empty_text();
        self.reason = empty_text();
        self.first_ms = None;
    }

    /// Notes the response.
    pub fn respond(&mut self, status: u16, reason: Option<&str>, elapsed_ms: u64)
        ensures
            final(self)@ == old(self)@.with_response(
                status,
                text::str_view(reason),
                elapsed_ms,
            ),
    {
        self.status = status;
        if status >= 400 {
            let reason = match reason {
                Some(t) => t,
                None => "upstream_input_error",
            };
            self.end("failed", reason, elapsed_ms);
        }
    }

    /// Notes the first output.
    pub fn first_after(&mut self, ms: u64, attempt_ms: u64)
        ensures
            final(self)@ == old(self)@.with_first(ms, attempt_ms),
    {
        if self.first_ms.is_none() {
            self.first_ms = Some(ms);
        }
        let ghost before = self.attempts@;
        match self.attempts.pop() {
            Some(mut a) => {
                assert(before.last()@ == a@);
                if a.first_ms.is_none() {
                    a.first_ms = Some(attempt_ms);
                }
                self.attempts.push(a);
                assert(self@.attempts =~= old(self)@.with_first(ms, attempt_ms).attempts);
            },
            None => {
                assert(self.attempts@ =~= before);
            },
        }
    }

    /// Ends a request.
    pub fn close(&mut self, cancelled: bool, attempt_ms: u64, elapsed_ms: u64)
        ensures
            final(self)@ == old(self)@.closed(cancelled, attempt_ms, elapsed_ms),
    {
        if cancelled {
            self.end("cancelled", "client_cancelled", attempt_ms);
        } else if is_empty(self.outcome.as_str()) {
            self.end("unknown", "unrecognized_terminal", attempt_ms);
        }
        self.elapsed_ms = elapsed_ms;
    }
}

proof fn same_channel_bound(s: Seq<AttemptView>)
    ensures
        same_channel(s) <= changes(s),
    decreases s.len(),
{
    if s.len() >= 2 {
        same_channel_bound(s.drop_last());
    }
}

proof fn same_channel_before(s: Seq<AttemptView>, n: int)
    requires
        0 <= n <= s.len(),
    ensures
        same_channel(s.take(n)) <= same_channel(s),
        changes(s.take(n)) - same_channel(s.take(n)) <= changes(s) - same_channel(s),
    decreases s.len(),
{
    if n == s.len() {
        assert(s.take(n) =~= s);
    } else {
        assert(s.drop_last().take(n) =~= s.take(n));
        same_channel_before(s.drop_last(), n);
    }
}

fn count_request(c: Counts, r: &Report) -> (t: Counts)
    requires
        c.request_fits(r@),
    ensures
        t == c.with_request(r@),
{
    let ghost s = r@.attempts;
    let mut t = c;
    t.result(r.outcome.as_str(), r.first_ms);
    let n = r.attempts.len();
    if n > 0 {
        t.switches = t.switches + (n - 1) as u64;
    }
    let ghost start = t;
    let mut i: usize = 1;
    proof {
        same_channel_bound(s);
    }
    assert(n > 0 ==> same_channel(s.take(1)) == 0);
    while i < n
        invariant
            1 <= i,
            n > 0 ==> i <= n,
            n == s.len(),
            s == r@.attempts,
            n == r.attempts@.len(),
            start.key_switches + same_channel(s) <= u64::MAX,
            start.provider_switches + changes(s) - same_channel(s) <= u64::MAX,
            n > 0 ==> t == (Counts {
                key_switches: (start.key_switches + same_channel(s.take(i as int))) as u64,
                provider_switches: (start.provider_switches + changes(s.take(i as int))
                    - same_channel(s.take(i as int))) as u64,
                ..start
            }),
            n == 0 ==> t == start,
        decreases n - i,
    {
        proof {
            same_channel_before(s, i + 1);
            same_channel_bound(s.take(i as int));
            same_channel_bound(s.take(i + 1));
            assert(s.take(i + 1).drop_last() =~= s.take(i as int));
        }
        assert(r.attempts@[i - 1].channel_id@ == s[i - 1].channel_id);
        assert(r.attempts@[i as int].channel_id@ == s[i as int].channel_id);
        if same(r.attempts[i - 1].channel_id.as_str(), r.attempts[i].channel_id.as_str()) {
            t.key_switches = t.key_switches + 1;
        } else {
            t.provider_switches = t.provider_switches + 1;
        }
        i = i + 1;
    }
    assert(s.take(n as int) =~= s);
    t
}

proof fn attempts_fit_before(m: Map<Seq<char>, ProviderView>, s: Seq<AttemptView>, n: int)
    requires
        0 <= n <= s.len(),
        attempts_fit(m, s),
    ensures
        attempts_fit(m, s.take(n)),
    decreases s.len(),
{
    if n == s.len() {
        assert(s.take(n) =~= s);
    } else {
        assert(s.drop_last().take(n) =~= s.take(n));
        attempts_fit_before(m, s.drop_last(), n);
    }
}

fn count_attempts(channels: &mut Table<Provider>, r: &Report)
    requires
        attempts_fit(provider_views(old(channels)@), r@.attempts),
    ensures
        provider_views(final(channels)@) == with_attempts(
            provider_views(old(channels)@),
            r@.attempts,
        ),
{
    let ghost m = provider_views(channels@);
    let ghost s = r@.attempts;
    let mut i: usize = 0;
    assert(s.take(0) =~= Seq::empty());
    while i < r.attempts.len()
        invariant
            i <= r.attempts@.len(),
            s == r@.attempts,
            attempts_fit(m, s),
            provider_views(channels@) == with_attempts(m, s.take(i as int)),
        decreases r.attempts@.len() - i,
    {
        let a = &r.attempts[i];
        let ghost before = provider_views(channels@);
        proof {
            attempts_fit_before(m, s, i + 1);
            assert(s.take(i + 1).drop_last() =~= s.take(i as int));
            assert(s.take(i + 1).last() == a@);
        }
        let size = channels.len();
        assert(before.dom() =~= channels@.dom());
        let room = size < 256 || channels.contains(a.channel_id.as_str());
        assert(room == !full(before, a@.channel_id));
        if room {
            let mut counts = match channels.get(a.channel_id.as_str()) {
                Some(p) => p.counts,
                None => Counts::default(),
            };
            assert(counts == counts_of(before, a@.channel_id));
            counts.requests = counts.requests + 1;
            counts.result(a.outcome.as_str(), a.first_ms);
            let p = Provider { name: a.channel.clone(), counts };
            let ghost pv = p@;
            channels.insert(a.channel_id.clone(), p);
            assert(provider_views(channels@) =~= before.insert(a@.channel_id, pv));
        }
        i = i + 1;
    }
    assert(s.take(s.len() as int) =~= s);
}

impl Metrics {
    /// Counts the start of a request as of a time.
    pub fn begin_at(&mut self, now: i64)
        requires
            now + 28800 <= i64::MAX,
            old(self).active < u64::MAX,
            old(self).today.requests < u64::MAX,
        ensures
            final(self).model() == old(self).model().begun(now as int),
    {
        self.roll(now);
        self.active = self.active + 1;
        self.today.requests = self.today.requests + 1;
    }

    /// Counts the end of a request as of a time.
    pub fn file_at(&mut self, now: i64, r: &Report)
        requires
            now + 28800 <= i64::MAX,
            r.at + 28800 <= i64::MAX,
            old(self).model().filing_fits(now as int, r@),
        ensures
            final(self).model() == old(self).model().filed(now as int, r@),
    {
        self.roll(now);
        let ghost m = self.model();
        self.active = self.active.saturating_sub(1);
        if day(r.at) == self.day {
            self.today = count_request(self.today, r);
        }
        let minute = minute(now);
        let ghost hours = self.hours@;
        let mut channels: Table<Provider> = Table::new();
        assert(provider_views(channels@) =~= Map::empty());
        assert(bucket_views(hours) == m.hours);
        let n = self.hours.len();
        if n > 0 && self.hours[n - 1].minute == minute {
            assert(m.hours.last() == hours.last()@);
            match self.hours.pop_back() {
                Some(b) => {
                    channels = b.channels;
                },
                None => {},
            }
            assert(bucket_views(self.hours@) =~= m.hours.drop_last());
            assert(provider_views(channels@) == m.present_channels(now as int));
        } else {
            assert(n > 0 ==> m.hours.last() == hours.last()@);
            assert(provider_views(channels@) == m.present_channels(now as int));
        }
        count_attempts(&mut channels, r);
        let ghost earlier = self.hours@;
        let bucket = Bucket { minute, channels };
        let ghost bv = bucket@;
        self.hours.push_back(bucket);
        assert(bucket_views(self.hours@) =~= bucket_views(earlier).push(bv));
        if !same(r.outcome.as_str(), "success") {
            let ghost failures = self.failures@;
            self.failures.push_front(r.copy());
            assert(report_views(self.failures@) =~= seq![r@] + report_views(failures));
            let ghost longer = self.failures@;
            self.failures.truncate(200);
            assert(report_views(self.failures@) =~= cut(report_views(longer), 200));
        }
    }
}

impl Trace {
    /// A request that starts now, under an identifier of its own.
    pub fn new() -> (r: (Self, Guard))
        ensures
            exists|n: u128|
                r.0.report@ == (ReportView {
                    id: "fr_"@ + #[trigger] text::hex(n as nat, 32),
                    at: r.0.report.at,
                    ..ReportView::blank()
                }),
            clock::reading(r.0.report.at as int),
            !r.0.counted,
            !r.1.finished,
    {
        let start = clock::start();
        let n = random::random_u128();
        let mut report = Report::default();
        let id = "fr_".to_owned().concat(hexadecimal(n, 32).as_str());
        assert(id@ == "fr_"@ + text::hex(n as nat, 32));
        report.id = id;
        report.at = clock::now();
        (Trace { report, start, attempt_start: start, counted: false }, Guard { finished: false })
    }

    /// The request's identifier.
    pub fn id(&self) -> (r: String)
        ensures
            r@ == self.report.id@,
    {
        self.report.id.clone()
    }

    /// Counts the request as one under way.
    pub fn begin(&mut self, metrics: &mut Metrics)
        requires
            old(metrics).active < u64::MAX,
            old(metrics).today.requests < u64::MAX,
        ensures
            *final(self) == (Trace { counted: true, ..*old(self) }),
            exists|now: i64|
                clock::reading(now as int) && final(metrics).model() == #[trigger] old(
                    metrics,
                ).model().begun(now as int),
    {
        self.counted = true;
        let now = clock::now();
        metrics.begin_at(now);
    }

    /// Notes the model that was asked for.
    pub fn model(&mut self, model: &str)
        ensures
            *final(self) == (Trace {
                report: Report { model: final(self).report.model, ..old(self).report },
                ..*old(self)
            }),
            final(self).report.model@ == text::first(model@, 256),
    {
        self.report.model = take(model, 256);
    }

    /// Notes the start of an attempt.
    pub fn attempt(&mut self, channel: &Channel, key: &Key)
        ensures
            final(self).report@ == (ReportView {
                attempts: old(self).report@.attempts.push(
                    AttemptView {
                        channel_id: channel.id@,
                        channel: channel.name@,
                        key_id: key.id@,
                        ..AttemptView::blank()
                    },
                ),
                ..old(self).report@
            }),
            final(self).start == old(self).start,
            final(self).counted == old(self).counted,
    {
        self.attempt_start = clock::start();
        let mut a = Attempt::default();
        a.channel_id = channel.id.clone();
        a.channel = channel.name.clone();
        a.key_id = key.id.clone();
        let ghost av = a@;
        self.report.attempts.push(a);
        assert(self.report@.attempts =~= old(self).report@.attempts.push(av));
    }

    /// Notes the status of the present attempt.
    pub fn status(&mut self, status: u16)
        ensures
            final(self).report@ == (ReportView {
                attempts: if old(self).report@.attempts.len() == 0 {
                    old(self).report@.attempts
                } else {
                    old(self).report@.attempts.drop_last().push(
                        AttemptView { status: Some(status), ..old(self).report@.attempts.last() },
                    )
                },
                ..old(self).report@
            }),
            *final(self) == (Trace { report: final(self).report, ..*old(self) }),
    {
        let ghost before = self.report.attempts@;
        match self.report.attempts.pop() {
            Some(mut a) => {
                assert(before.last()@ == a@);
                a.status = Some(status);
                let ghost av = a@;
                self.report.attempts.push(a);
                assert(self.report@.attempts =~= attempt_views(before).drop_last().push(av));
            },
            None => {
                assert(self.report.attempts@ =~= before);
            },
        }
    }

    /// Notes the tokens that the present attempt used.
    pub fn usage(&mut self, usage: Tokens)
        ensures
            final(self).report@ == (ReportView {
                attempts: if old(self).report@.attempts.len() == 0 {
                    old(self).report@.attempts
                } else {
                    old(self).report@.attempts.drop_last().push(
                        AttemptView { usage: Some(usage), ..old(self).report@.attempts.last() },
                    )
                },
                ..old(self).report@
            }),
            *final(self) == (Trace { report: final(self).report, ..*old(self) }),
    {
        let ghost before = self.report.attempts@;
        match self.report.attempts.pop() {
            Some(mut a) => {
                assert(before.last()@ == a@);
                a.usage = Some(usage);
                let ghost av = a@;
                self.report.attempts.push(a);
                assert(self.report@.attempts =~= attempt_views(before).drop_last().push(av));
            },
            None => {
                assert(self.report.attempts@ =~= before);
            },
        }
    }

    /// Notes the first output.
    pub fn first(&mut self)
        ensures
            exists|ms: u64, attempt_ms: u64|
                final(self).report@ == #[trigger] old(self).report@.with_first(ms, attempt_ms),
            *final(self) == (Trace { report: final(self).report, ..*old(self) }),
    {
        let ms = clock::elapsed_ms(&self.start);
        let attempt_ms = clock::elapsed_ms(&self.attempt_start);
        self.report.first_after(ms, attempt_ms);
    }

    /// Notes a result of the present attempt.
    pub fn result(&mut self, outcome: &str, reason: &str)
        ensures
            exists|ms: u64|
                final(self).report@ == #[trigger] old(self).report@.with_result(
                    outcome@,
                    reason@,
                    ms,
                ),
            *final(self) == (Trace { report: final(self).report, ..*old(self) }),
    {
        let ms = clock::elapsed_ms(&self.attempt_start);
        self.report.end(outcome, reason, ms);
    }

    /// Notes the failure of an attempt that another may follow.
    pub fn retry(&mut self, reason: &str)
        ensures
            exists|ms: u64|
                final(self).report@ == #[trigger] old(self).report@.with_retry(reason@, ms),
            *final(self) == (Trace { report: final(self).report, ..*old(self) }),
    {
        let ms = clock::elapsed_ms(&self.attempt_start);
        self.report.retry_after(reason, ms);
    }

    /// Notes the response.
    pub fn response(&mut self, status: u16, reason: Option<&str>)
        ensures
            exists|ms: u64|
                final(self).report@ == #[trigger] old(self).report@.with_response(
                    status,
                    text::str_view(reason),
                    ms,
                ),
            *final(self) == (Trace { report: final(self).report, ..*old(self) }),
    {
        let ms = clock::elapsed_ms(&self.attempt_start);
        self.report.respond(status, reason, ms);
    }

    /// Notes that output went to the client.
    pub fn output(&mut self)
        ensures
            *final(self) == (Trace {
                report: Report { output_started: true, ..old(self).report },
                ..*old(self)
            }),
    {
        self.report.output_started = true;
    }
}

impl Guard {
    /// Files a request that ended, once: later calls change nothing.
    pub fn finish(&mut self, trace: &mut Trace, metrics: &mut Metrics, cancelled: bool)
        requires
            !old(self).finished && old(trace).counted ==> old(trace).report.at + 28800 <= i64::MAX,
            !old(self).finished && old(trace).counted ==> forall|
                now: i64,
                attempt_ms: u64,
                ms: u64,
            |
                clock::reading(now as int) ==> #[trigger] old(metrics).model().filing_fits(
                    now as int,
                    old(trace).report@.closed(cancelled, attempt_ms, ms),
                ),
        ensures
            final(self).finished,
            old(self).finished || !old(trace).counted ==> *final(trace) == *old(trace)
                && *final(metrics) == *old(metrics),
            !old(self).finished && old(trace).counted ==> {
                &&& exists|attempt_ms: u64, ms: u64|
                    final(trace).report@ == #[trigger] old(trace).report@.closed(
                        cancelled,
                        attempt_ms,
                        ms,
                    )
                &&& *final(trace) == (Trace { report: final(trace).report, ..*old(trace) })
                &&& exists|now: i64|
                    clock::reading(now as int) && final(metrics).model() == #[trigger] old(
                        metrics,
                    ).model().filed(now as int, final(trace).report@)
            },
    {
        if self.finished {
            return;
        }
        self.finished = true;
        if !trace.counted {
            return;
        }
        let attempt_ms = clock::elapsed_ms(&trace.attempt_start);
        let ms = clock::elapsed_ms(&trace.start);
        trace.report.close(cancelled, attempt_ms, ms);
        let now = clock::now();
        assert(metrics.model().filing_fits(
            now as int,
            old(trace).report@.closed(cancelled, attempt_ms, ms),
        ));
        metrics.file_at(now, &trace.report);
    }
}

/// The reason that a classified status stands for.
pub open spec fn reason_of(status: u16) -> Seq<char> {
    if status == 401 {
        "credential_failed"@
    } else if status == 402 {
        "quota_exhausted"@
    } else if status == 429 {
        "rate_limited"@
    } else if status == 0 {
        "connection_or_timeout"@
    } else {
        "upstream_error"@
    }
}

/// The reason that a classified status stands for.
pub fn failure_reason(status: u16) -> (r: &'static str)
    ensures
        r@ == reason_of(status),
{
    match status {
        401 => "credential_failed",
        402 => "quota_exhausted",
        429 => "rate_limited",
        0 => "connection_or_timeout",
        _ => "upstream_error",
    }
}

/// A request counts once in each of the day's numbers: one more outcome, and every change of
/// attempt is one of key or of provider.
pub proof fn request_counts_once(c: Counts, r: ReportView)
    requires
        c.request_fits(r),
    ensures
        ({
            let d = c.with_request(r);
            &&& d.success + d.failed + d.cancelled + d.unknown == c.success + c.failed + c.cancelled
                + c.unknown + 1
            &&& d.requests == c.requests
            &&& d.switches - c.switches == changes(r.attempts)
            &&& (d.key_switches - c.key_switches) + (d.provider_switches - c.provider_switches)
                == d.switches - c.switches
        }),
{
    same_channel_bound(r.attempts);
}

/// A request that was begun and filed is no longer under way.
pub proof fn filed_requests_are_not_active(m: MetricsView, begun: int, now: int, r: ReportView)
    requires
        m.active < u64::MAX,
    ensures
        m.begun(begun).active == m.active + 1,
        m.begun(begun).filed(now, r).active == m.active,
{
}

proof fn last_hour_bound(s: Seq<BucketView>, minute: int)
    ensures
        last_hour(s, minute).len() <= s.len(),
        forall|i: int|
            0 <= i < last_hour(s, minute).len() ==> minute - 60 < (#[trigger] last_hour(
                s,
                minute,
            )[i]).minute <= minute,
    decreases s.len(),
{
    if s.len() > 0 {
        last_hour_bound(s.drop_last(), minute);
    }
}

/// What is kept is bounded: failed requests by their number, minutes by an hour.
pub proof fn counters_are_bounded(m: MetricsView, now: int, r: ReportView)
    requires
        i64::MIN <= now,
        now + 28800 <= i64::MAX,
    ensures
        m.filed(now, r).failures.len() <= 200,
        m.filed(now, r).hours.len() <= 61,
        forall|i: int|
            0 <= i < m.filed(now, r).hours.len() ==> minute_of(now) - 60 < (#[trigger] m.filed(
                now,
                r,
            ).hours[i]).minute <= minute_of(now),
{
    last_hour_bound(m.hours, minute_of(now));
}

proof fn last_hour_settles(s: Seq<BucketView>, minute: int)
    requires
        forall|i: int| 0 <= i < s.len() ==> minute - 60 < (#[trigger] s[i]).minute <= minute,
    ensures
        last_hour(s, minute) == s,
    decreases s.len(),
{
    if s.len() > 0 {
        last_hour_settles(s.drop_last(), minute);
        assert(s.drop_last().push(s.last()) =~= s);
    }
}

/// Rolling twice at one time is rolling once.
pub proof fn rolling_settles(m: MetricsView, now: int)
    requires
        i64::MIN <= now,
        now + 28800 <= i64::MAX,
    ensures
        m.rolled(now).rolled(now) == m.rolled(now),
{
    let h = m.rolled(now).hours;
    last_hour_bound(m.hours, minute_of(now));
    last_hour_settles(h, minute_of(now));
    assert(m.rolled(now).failures.len() <= 200);
}

/// The counters of a day do not reach another.
pub proof fn new_day_starts_at_zero(m: MetricsView, now: int)
    requires
        m.day != clock::local_day(now),
    ensures
        m.rolled(now).today == Counts::zero(),
{
}

/// The failure of an attempt keeps its own cause, whatever comes after it.
pub proof fn causes_are_kept(
    r: ReportView,
    outcome: Seq<char>,
    reason: Seq<char>,
    ms: u64,
    i: int,
)
    requires
        0 <= i < r.attempts.len(),
        r.attempts[i].outcome.len() > 0,
    ensures
        r.with_result(outcome, reason, ms).attempts[i] == r.attempts[i],
        r.with_result(outcome, reason, ms).attempts.len() == r.attempts.len(),
        r.with_retry(reason, ms).attempts[i] == r.attempts[i],
        r.closed(true, ms, ms).attempts[i] == r.attempts[i],
{
}

/// A request that ends on the day on which it started counts once, in counters that are up to date: it
/// is under way no longer, one outcome grows by one, every change of attempt is one of key or of
/// provider, and it heads the failures exactly where it did not succeed.
pub proof fn finished_requests_count_once(m: MetricsView, now: int, r: ReportView)
    requires
        m.rolled(now) == m,
        clock::local_day(r.at as int) == clock::local_day(now),
        m.filing_fits(now, r),
    ensures
        ({
            let f = m.filed(now, r);
            let grown = (f.today.success - m.today.success) + (f.today.failed - m.today.failed) + (
            f.today.cancelled - m.today.cancelled) + (f.today.unknown - m.today.unknown);
            &&& f.active == if m.active == 0 {
                0
            } else {
                m.active - 1
            }
            &&& grown == 1
            &&& f.today.success >= m.today.success
            &&& f.today.failed >= m.today.failed
            &&& f.today.cancelled >= m.today.cancelled
            &&& f.today.unknown >= m.today.unknown
            &&& f.today.requests == m.today.requests
            &&& f.today.switches - m.today.switches == changes(r.attempts)
            &&& (f.today.key_switches - m.today.key_switches) + (f.today.provider_switches
                - m.today.provider_switches) == changes(r.attempts)
            &&& r.outcome != "success"@ ==> f.failures.len() > 0 && f.failures[0] == r
                && f.failures == cut(seq![r] + m.failures, 200)
            &&& r.outcome == "success"@ ==> f.failures == m.failures
            &&& f.failures.len() <= 200
        }),
{
    assert(m.day == m.rolled(now).day);
    assert(m.rolled(now).day == clock::local_day(now) as i64);
    same_channel_bound(r.attempts);
}

/// Each outcome grows its own counter by one and no other; every one that is not known counts as
/// unknown. The time to the first output adds to the total where there was one.
pub proof fn outcomes_are_counted(c: Counts, outcome: Seq<char>, first: Option<u64>)
    requires
        c.result_fits(outcome, first),
    ensures
        ({
            let d = c.with_result(outcome, first);
            let known = outcome == "success"@ || outcome == "failed"@ || outcome == "cancelled"@;
            &&& outcome == "success"@ ==> d.success == c.success + 1
            &&& outcome != "success"@ ==> d.success == c.success
            &&& outcome == "failed"@ ==> d.failed == c.failed + 1
            &&& outcome != "failed"@ ==> d.failed == c.failed
            &&& outcome == "cancelled"@ ==> d.cancelled == c.cancelled + 1
            &&& outcome != "cancelled"@ ==> d.cancelled == c.cancelled
            &&& !known ==> d.unknown == c.unknown + 1
            &&& known ==> d.unknown == c.unknown
            &&& first is Some ==> d.first_ms_total == c.first_ms_total + first->0 && d.first_samples
                == c.first_samples + 1
            &&& first is None ==> d.first_ms_total == c.first_ms_total && d.first_samples
                == c.first_samples
            &&& d.requests == c.requests && d.switches == c.switches && d.key_switches
                == c.key_switches && d.provider_switches == c.provider_switches && d.route_switches
                == c.route_switches && d.returns == c.returns
        }),
{
    reveal_strlit("success");
    reveal_strlit("failed");
    reveal_strlit("cancelled");
    assert("success"@.len() == 7 && "failed"@.len() == 6 && "cancelled"@.len() == 9);
}

/// What attempts count is added number by number.
pub proof fn counters_add_up(a: Counts, b: Counts)
    requires
        a.plus_fits(b),
    ensures
        ({
            let c = a.plus(b);
            &&& c.requests == a.requests + b.requests
            &&& c.success == a.success + b.success
            &&& c.failed == a.failed + b.failed
            &&& c.cancelled == a.cancelled + b.cancelled
            &&& c.unknown == a.unknown + b.unknown
            &&& c.switches == a.switches + b.switches
            &&& c.first_ms_total == a.first_ms_total + b.first_ms_total
            &&& c.first_samples == a.first_samples + b.first_samples
        }),
{
}

/// The last sixty minutes are kept, each as it was and in order; others are not.
pub proof fn last_hours_are_kept(s: Seq<BucketView>, minute: int, b: BucketView)
    ensures
        last_hour(s, minute).contains(b) <==> s.contains(b) && minute - 60 < b.minute <= minute,
        minute - 60 < b.minute <= minute ==> last_hour(s.push(b), minute) == last_hour(
            s,
            minute,
        ).push(b),
        !(minute - 60 < b.minute <= minute) ==> last_hour(s.push(b), minute) == last_hour(s, minute),
    decreases s.len(),
{
    assert(s.push(b).drop_last() =~= s);
    if s.len() > 0 {
        let rest = s.drop_last();
        last_hours_are_kept(rest, minute, b);
        let all = last_hour(s, minute);
        let early = last_hour(rest, minute);
        if s.contains(b) {
            let i = choose|i: int| 0 <= i < s.len() && s[i] == b;
            if i < rest.len() {
                assert(rest[i] == b);
            }
        }
        if rest.contains(b) {
            let i = choose|i: int| 0 <= i < rest.len() && rest[i] == b;
            assert(s[i] == b);
        }
        if early.contains(b) {
            let i = choose|i: int| 0 <= i < early.len() && early[i] == b;
            assert(all[i] == b);
        }
        if all.contains(b) {
            let i = choose|i: int| 0 <= i < all.len() && all[i] == b;
            if i < early.len() {
                assert(early[i] == b);
            } else {
                assert(s[s.len() - 1] == b);
            }
        }
        if s.last() == b && minute - 60 < b.minute <= minute {
            assert(all[all.len() - 1] == b);
        }
    }
}

/// Within a day nothing that was counted is lost; over midnight the day's counters start anew, while
/// requests under way and the newest failures stay.
pub proof fn days_roll_over(m: MetricsView, now: int)
    requires
        i64::MIN <= clock::local_day(now) <= i64::MAX,
    ensures
        m.rolled(now).day == clock::local_day(now),
        m.day == clock::local_day(now) ==> m.rolled(now).today == m.today,
        m.day != clock::local_day(now) ==> m.rolled(now).today == Counts::zero(),
        m.rolled(now).active == m.active,
        m.failures.len() <= 200 ==> m.rolled(now).failures == m.failures,
        m.failures.len() > 200 ==> m.rolled(now).failures == m.failures.take(200),
{
}

/// The start of a request makes it one of the day's and one under way.
pub proof fn requests_begin(m: MetricsView, now: int)
    requires
        m.active < u64::MAX,
        m.rolled(now).today.requests < u64::MAX,
    ensures
        m.begun(now).active == m.active + 1,
        m.begun(now).today.requests == m.rolled(now).today.requests + 1,
        m.begun(now).today == (Counts {
            requests: m.begun(now).today.requests,
            ..m.rolled(now).today
        }),
        m.begun(now).hours == m.rolled(now).hours,
        m.begun(now).failures == m.rolled(now).failures,
{
}

/// A request that started on another day changes nothing of this day's counters when it ends, but is
/// under way no longer, counts for its channels, and heads the failures where it did not succeed.
pub proof fn outcomes_belong_to_the_day_of_the_start(m: MetricsView, now: int, r: ReportView)
    requires
        i64::MIN <= clock::local_day(now) <= i64::MAX,
        clock::local_day(r.at as int) != clock::local_day(now),
    ensures
        m.filed(now, r).today == m.rolled(now).today,
        m.active > 0 ==> m.filed(now, r).active == m.active - 1,
        m.active == 0 ==> m.filed(now, r).active == 0,
        m.filed(now, r).hours.last().minute as int == minute_of(now) as i64,
        m.filed(now, r).hours.last().channels == with_attempts(
            m.rolled(now).present_channels(now),
            r.attempts,
        ),
        r.outcome != "success"@ ==> m.filed(now, r).failures.len() > 0 && m.filed(now, r).failures[0]
            == r,
        r.outcome == "success"@ ==> m.filed(now, r).failures == m.rolled(now).failures,
{
}

/// An attempt counts for its channel, under the channel's present name, and for no other. Where 256
/// channels are counted in a minute, further ones are not.
pub proof fn attempts_count_for_their_channel(
    m: Map<Seq<char>, ProviderView>,
    s: Seq<AttemptView>,
    a: AttemptView,
    id: Seq<char>,
)
    requires
        attempts_fit(m, s.push(a)),
    ensures
        with_attempts(m, Seq::empty()) == m,
        ({
            let before = with_attempts(m, s);
            let after = with_attempts(m, s.push(a));
            let own = a.channel_id;
            let room = before.contains_key(own) || before.dom().len() < 256;
            let c = if before.contains_key(own) {
                before[own].counts
            } else {
                Counts::zero()
            };
            &&& !room ==> after == before
            &&& room ==> after.contains_key(own) && after[own].name == a.channel
                && after[own].counts.requests == c.requests + 1
            &&& room && a.outcome == "success"@ ==> after[own].counts.success == c.success + 1
                && after[own].counts.failed == c.failed
            &&& room && a.outcome == "failed"@ ==> after[own].counts.failed == c.failed + 1
                && after[own].counts.success == c.success
            &&& room && a.first_ms is Some ==> after[own].counts.first_ms_total == c.first_ms_total
                + a.first_ms->0
            &&& id != own ==> after.contains_key(id) == before.contains_key(id) && (
            before.contains_key(id) ==> after[id] == before[id])
        }),
{
    let t = s.push(a);
    assert(t.drop_last() =~= s);
    let before = with_attempts(m, s);
    let c = counts_of(before, a.channel_id);
    if !full(before, a.channel_id) {
        outcomes_are_counted(
            Counts { requests: (c.requests + 1) as u64, ..c },
            a.outcome,
            a.first_ms,
        );
    }
}

/// A change of attempt within a channel is one of key, every other one of provider.
pub proof fn changes_are_told_apart(s: Seq<AttemptView>, a: AttemptView)
    ensures
        s.len() > 0 && s.last().channel_id == a.channel_id ==> same_channel(s.push(a))
            == same_channel(s) + 1,
        s.len() > 0 && s.last().channel_id != a.channel_id ==> same_channel(s.push(a))
            == same_channel(s),
        s.len() > 0 ==> changes(s.push(a)) == changes(s) + 1,
        s.len() == 0 ==> changes(s.push(a)) == 0 && same_channel(s.push(a)) == 0,
{
    assert(s.push(a).drop_last() =~= s);
}

/// A result goes to the request, and to its last attempt where that has none yet.
pub proof fn results_go_to_the_last_attempt(
    r: ReportView,
    outcome: Seq<char>,
    reason: Seq<char>,
    ms: u64,
)
    ensures
        ({
            let t = r.with_result(outcome, reason, ms);
            &&& t.outcome == outcome && t.reason == reason
            &&& t.attempts.len() == r.attempts.len()
            &&& r.attempts.len() > 0 && r.attempts.last().outcome.len() == 0 ==> {
                &&& t.attempts.last().outcome == outcome
                &&& t.attempts.last().reason == reason
                &&& t.attempts.last().elapsed_ms == ms
                &&& t.attempts.last().channel_id == r.attempts.last().channel_id
                &&& t.attempts.last().key_id == r.attempts.last().key_id
                &&& t.attempts.last().status == r.attempts.last().status
                &&& t.attempts.last().first_ms == r.attempts.last().first_ms
                &&& t.attempts.drop_last() == r.attempts.drop_last()
            }
            &&& r.attempts.len() == 0 || r.attempts.last().outcome.len() > 0 ==> t.attempts
                == r.attempts
            &&& t.first_ms == r.first_ms && t.status == r.status && t.model == r.model && t.at
                == r.at && t.id == r.id
        }),
{
    let t = r.with_result(outcome, reason, ms);
    if r.attempts.len() > 0 && r.attempts.last().outcome.len() == 0 {
        assert(t.attempts.drop_last() =~= r.attempts.drop_last());
    }
}

/// A failed attempt after which another may follow leaves the request open: without outcome, reason or
/// first output of its own.
pub proof fn retries_leave_requests_open(r: ReportView, reason: Seq<char>, ms: u64)
    ensures
        ({
            let t = r.with_retry(reason, ms);
            &&& t.outcome.len() == 0 && t.reason.len() == 0 && t.first_ms is None
            &&& t.attempts == r.with_result("failed"@, reason, ms).attempts
            &&& t.status == r.status && t.at == r.at && t.id == r.id && t.model == r.model
        }),
{
}

/// A response of 400 or more fails the request, for the reason that is given or as an error of the
/// input; another only notes its status.
pub proof fn responses_from_400_are_failures(
    r: ReportView,
    status: u16,
    reason: Option<Seq<char>>,
    ms: u64,
)
    ensures
        r.with_response(status, reason, ms).status == status,
        status < 400 ==> r.with_response(status, reason, ms) == (ReportView { status, ..r }),
        status >= 400 ==> r.with_response(status, reason, ms).outcome == "failed"@,
        status >= 400 && reason is Some ==> r.with_response(status, reason, ms).reason == reason->0,
        status >= 400 && reason is None ==> r.with_response(status, reason, ms).reason
            == "upstream_input_error"@,
{
}

/// The first output of a request and of its present attempt is noted once.
pub proof fn first_outputs_stay(r: ReportView, ms: u64, attempt_ms: u64)
    ensures
        ({
            let t = r.with_first(ms, attempt_ms);
            &&& r.first_ms is None ==> t.first_ms == Some(ms)
            &&& r.first_ms is Some ==> t.first_ms == r.first_ms
            &&& t.attempts.len() == r.attempts.len()
            &&& r.attempts.len() > 0 && r.attempts.last().first_ms is None ==> t.attempts.last().first_ms
                == Some(attempt_ms)
            &&& r.attempts.len() == 0 || r.attempts.last().first_ms is Some ==> t.attempts
                == r.attempts
            &&& t.outcome == r.outcome && t.reason == r.reason
        }),
{
}

/// A request that a client gave up ends as cancelled, whatever came before; one without an outcome ends
/// as unknown, and another as it was. Its time is noted.
pub proof fn requests_end(r: ReportView, cancelled: bool, attempt_ms: u64, ms: u64)
    ensures
        ({
            let t = r.closed(cancelled, attempt_ms, ms);
            &&& t.elapsed_ms == ms
            &&& cancelled ==> t.outcome == "cancelled"@ && t.reason == "client_cancelled"@
            &&& !cancelled && r.outcome.len() == 0 ==> t.outcome == "unknown"@ && t.reason
                == "unrecognized_terminal"@
            &&& !cancelled && r.outcome.len() > 0 ==> t == (ReportView { elapsed_ms: ms, ..r })
            &&& t.first_ms == r.first_ms && t.status == r.status
        }),
{
}

/// Why an attempt failed, by its class.
pub proof fn reasons_tell_the_class(status: u16)
    ensures
        status == 401 ==> reason_of(status) == "credential_failed"@,
        status == 402 ==> reason_of(status) == "quota_exhausted"@,
        status == 429 ==> reason_of(status) == "rate_limited"@,
        status == 0 ==> reason_of(status) == "connection_or_timeout"@,
        status != 401 && status != 402 && status != 429 && status != 0 ==> reason_of(status)
            == "upstream_error"@,
{
}

/// A change of route counts once, and once more as a return where it is one.
pub proof fn route_changes_are_counted(m: MetricsView, now: int, back: bool)
    requires
        m.rolled(now).today.route_switches < u64::MAX,
        m.rolled(now).today.returns < u64::MAX,
    ensures
        ({
            let t = Metrics::switched(m, now, back);
            let c = m.rolled(now).today;
            &&& t.today.route_switches == c.route_switches + 1
            &&& back ==> t.today.returns == c.returns + 1
            &&& !back ==> t.today.returns == c.returns
            &&& t.today == (Counts {
                route_switches: t.today.route_switches,
                returns: t.today.returns,
                ..c
            })
            &&& t.active == m.active
        }),
{
}

/// A channel's counters over an hour are those of its minutes together, under its last name.
pub proof fn minutes_add_up(s: Seq<BucketView>, b: BucketView, id: Seq<char>)
    ensures
        b.channels.contains_key(id) ==> total(s.push(b), id).counts == total(s, id).counts.plus(
            b.channels[id].counts,
        ) && total(s.push(b), id).name == b.channels[id].name,
        !b.channels.contains_key(id) ==> total(s.push(b), id) == total(s, id),
        total(Seq::empty(), id).counts == Counts::zero(),
        totals(s).contains_key(id) <==> exists|i: int|
            0 <= i < s.len() && #[trigger] s[i].channels.contains_key(id),
        totals(s).contains_key(id) ==> totals(s)[id] == total(s, id),
{
    assert(s.push(b).drop_last() =~= s);
}

/// Where nothing was counted every number is zero.
pub proof fn nothing_counted_is_zero()
    ensures
        ({
            let c = Counts::zero();
            &&& c.requests == 0 && c.success == 0 && c.failed == 0 && c.cancelled == 0 && c.unknown == 0
            &&& c.switches == 0 && c.key_switches == 0 && c.provider_switches == 0
            &&& c.route_switches == 0 && c.returns == 0
            &&& c.first_ms_total == 0 && c.first_samples == 0
        }),
{
}

/// A request counts for its day by its own outcome, with the time to its own first output.
pub proof fn requests_count_by_their_outcome(c: Counts, r: ReportView)
    requires
        c.request_fits(r),
    ensures
        ({
            let d = c.with_request(r);
            &&& r.outcome == "success"@ ==> d.success == c.success + 1
            &&& r.outcome == "failed"@ ==> d.failed == c.failed + 1
            &&& r.outcome == "cancelled"@ ==> d.cancelled == c.cancelled + 1
            &&& r.first_ms is Some ==> d.first_ms_total == c.first_ms_total + r.first_ms->0
                && d.first_samples == c.first_samples + 1
            &&& r.first_ms is None ==> d.first_ms_total == c.first_ms_total && d.first_samples
                == c.first_samples
            &&& d.route_switches == c.route_switches && d.returns == c.returns
        }),
{
    outcomes_are_counted(c, r.outcome, r.first_ms);
}

/// Earlier minutes of the hour stay as they were when a request ends, and so do the failures before it,
/// up to two hundred.
pub proof fn earlier_minutes_stay(m: MetricsView, now: int, r: ReportView)
    ensures
        ({
            let was = m.rolled(now);
            let is = m.filed(now, r);
            let begun = was.hours.len() > 0 && was.hours.last().minute == minute_of(now);
            &&& begun ==> is.hours.drop_last() == was.hours.drop_last()
            &&& !begun ==> is.hours.drop_last() == was.hours
            &&& r.outcome != "success"@ && was.failures.len() < 200 ==> is.failures == seq![r]
                + was.failures
            &&& r.outcome != "success"@ && was.failures.len() >= 200 ==> is.failures == seq![r]
                + was.failures.take(199)
        }),
{
    let was = m.rolled(now);
    if r.outcome != "success"@ && was.failures.len() >= 200 {
        assert((seq![r] + was.failures).take(200) =~= seq![r] + was.failures.take(199));
    }
}

/// A minute counts what came before in it, and nothing of an earlier one.
pub proof fn minutes_are_counted_apart(m: MetricsView, now: int)
    ensures
        m.hours.len() > 0 && m.hours.last().minute == now / 60 ==> m.present_channels(now)
            == m.hours.last().channels,
        m.hours.len() == 0 || m.hours.last().minute != now / 60 ==> m.present_channels(now)
            == Map::<Seq<char>, ProviderView>::empty(),
{
}

/// The attempt under way ends with its request: cancelled where the client gave up, unknown where nothing
/// said how it ended.
pub proof fn attempts_end_with_their_request(r: ReportView, cancelled: bool, attempt_ms: u64, ms: u64)
    requires
        r.attempts.len() > 0,
        r.attempts.last().outcome.len() == 0,
    ensures
        ({
            let t = r.closed(cancelled, attempt_ms, ms).attempts;
            &&& t.len() == r.attempts.len()
            &&& t.drop_last() == r.attempts.drop_last()
            &&& cancelled ==> t.last() == (AttemptView {
                outcome: "cancelled"@,
                reason: "client_cancelled"@,
                elapsed_ms: attempt_ms,
                ..r.attempts.last()
            })
            &&& !cancelled && r.outcome.len() == 0 ==> t.last() == (AttemptView {
                outcome: "unknown"@,
                reason: "unrecognized_terminal"@,
                elapsed_ms: attempt_ms,
                ..r.attempts.last()
            })
        }),
{
}

/// What is cut keeps its first elements, as many as fit.
pub proof fn first_elements_are_kept(s: Seq<ReportView>, n: nat, i: int)
    ensures
        s.len() <= n ==> cut(s, n) == s,
        s.len() > n ==> cut(s, n).len() == n,
        0 <= i < cut(s, n).len() ==> cut(s, n)[i] == s[i],
{
}

} // verus!
