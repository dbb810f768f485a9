//! The router's configuration and its rules.
use crate::balance::Adapter;
use crate::checks;
use crate::json;
use crate::json::{array, member, object, Json, JsonView};
use crate::secret;
use crate::text;
use crate::text::{among, same, size};
use crate::url;
use vstd::prelude::*;
use vstd::string::*;
use vstd::utf8::{encode_utf8, encode_utf8_decode_utf8};

verus! {

/// What the router was set up to do.
pub struct Config {
    pub listen: String,
    pub api_key: String,
    pub admin_password_hash: String,
    pub webhook: String,
    pub use_system_proxy: bool,
    pub notify_all_monitors: bool,
    /// Keys of employees, carried as they were written.
    pub employee_keys: Json,
    pub models: Vec<Model>,
    pub monitors: Vec<Monitor>,
    pub monitor_schedule: Vec<MonitorPeriod>,
}

/// A daily period, in minutes of the local day, with the distance of checks in it. A period
/// that does not end after its start runs over midnight.
#[derive(Clone, Copy, Debug, PartialEq, Eq, Structural)]
pub struct MonitorPeriod {
    pub start: u16,
    pub end: u16,
    pub interval_minutes: u16,
}

/// A model that clients may ask for, with its channels in order of preference.
pub struct Model {
    pub id: String,
    pub channels: Vec<Channel>,
}

/// One way to reach a model.
pub struct Channel {
    pub id: String,
    pub name: String,
    pub base_url: String,
    pub upstream_model: String,
    pub adapter: Adapter,
    pub enabled: bool,
    pub monitor_id: Option<String>,
    pub keys: Vec<Key>,
}

/// A credential of a channel.
pub struct Key {
    pub enabled: bool,
    pub id: String,
    pub label: String,
    pub secret: String,
}

/// A quality check of one upstream.
pub struct Monitor {
    pub id: String,
    pub name: String,
    pub base_url: String,
    pub key: String,
    pub model: String,
}

/// Keys are in use unless configuration says otherwise.
pub fn enabled_by_default() -> (r: bool)
    ensures
        r,
{
    true
}

/// The schedule in force where none is configured.
pub open spec fn default_schedule() -> Seq<MonitorPeriod> {
    seq![
        MonitorPeriod { start: 540, end: 1380, interval_minutes: 5 },
        MonitorPeriod { start: 1380, end: 240, interval_minutes: 20 },
        MonitorPeriod { start: 240, end: 420, interval_minutes: 60 },
        MonitorPeriod { start: 420, end: 540, interval_minutes: 20 },
    ]
}

/// The schedule in force where none is configured.
pub fn default_monitor_schedule() -> (r: Vec<MonitorPeriod>)
    ensures
        r@ == default_schedule(),
{
    let r = vec![
        MonitorPeriod { start: 540, end: 1380, interval_minutes: 5 },
        MonitorPeriod { start: 1380, end: 240, interval_minutes: 20 },
        MonitorPeriod { start: 240, end: 420, interval_minutes: 60 },
        MonitorPeriod { start: 420, end: 540, interval_minutes: 20 },
    ];
    assert(r@ =~= default_schedule());
    r
}

impl MonitorPeriod {
    /// A minute of the day lies in the period.
    pub open spec fn covers(self, minute: int) -> bool {
        if self.start < self.end {
            self.start <= minute < self.end
        } else {
            self.start <= minute || minute < self.end
        }
    }

    /// Both ends are minutes of a day, and checks are one minute to one day apart.
    pub open spec fn sound(self) -> bool {
        self.start < 1440 && self.end < 1440 && 0 < self.interval_minutes <= 1440
    }

    /// Whether a minute of the day lies in the period.
    pub fn contains(&self, minute: u16) -> (r: bool)
        ensures
            r == self.covers(minute as int),
    {
        if self.start < self.end {
            minute >= self.start && minute < self.end
        } else {
            minute >= self.start || minute < self.end
        }
    }
}

/// Two periods share a minute of the day.
pub open spec fn overlap(a: MonitorPeriod, b: MonitorPeriod) -> bool {
    exists|m: int| 0 <= m < 1440 && #[trigger] a.covers(m) && b.covers(m)
}

/// A period shares a minute of the day with one before it.
pub open spec fn overlaps_earlier(periods: Seq<MonitorPeriod>, i: int) -> bool {
    exists|j: int| 0 <= j < i && overlap(#[trigger] periods[j], periods[i])
}

/// What is wrong with each period of a schedule.
pub open spec fn period_check(periods: Seq<MonitorPeriod>) -> spec_fn(int) -> Option<Seq<char>> {
    |i: int|
        if !periods[i].sound() {
            Some("时间范围或检测间隔无效（1–1440分钟）"@)
        } else if overlaps_earlier(periods, i) {
            Some("检测时间段不能重叠"@)
        } else {
            None
        }
}

/// What is wrong with a schedule.
pub open spec fn schedule_complaint(periods: Seq<MonitorPeriod>) -> Option<Seq<char>> {
    if periods.len() > 24 {
        Some("最多24个检测时间段"@)
    } else {
        checks::first_complaint(periods.len() as int, period_check(periods))
    }
}

fn marked(occupied: &Vec<bool>, p: &MonitorPeriod, Ghost(earlier): Ghost<Seq<MonitorPeriod>>) -> (r:
    Option<Vec<bool>>)
    requires
        occupied@.len() == 1440,
        forall|m: int|
            0 <= m < 1440 ==> (#[trigger] occupied@[m] <==> exists|j: int|
                0 <= j < earlier.len() && (#[trigger] earlier[j]).covers(m)),
    ensures
        match r {
            Some(next) => {
                &&& next@.len() == 1440
                &&& forall|m: int|
                    0 <= m < 1440 ==> (#[trigger] next@[m] <==> exists|j: int|
                        0 <= j < earlier.len() + 1 && (#[trigger] earlier.push(*p)[j]).covers(m))
                &&& forall|j: int| 0 <= j < earlier.len() ==> !overlap(#[trigger] earlier[j], *p)
            },
            None => exists|j: int| 0 <= j < earlier.len() && overlap(#[trigger] earlier[j], *p),
        },
{
    let mut next: Vec<bool> = Vec::new();
    let mut minute: u16 = 0;
    while minute < 1440
        invariant
            minute <= 1440,
            occupied@.len() == 1440,
            next@.len() == minute,
            forall|m: int|
                0 <= m < 1440 ==> (#[trigger] occupied@[m] <==> exists|j: int|
                    0 <= j < earlier.len() && (#[trigger] earlier[j]).covers(m)),
            forall|m: int|
                0 <= m < minute ==> (#[trigger] next@[m] <==> occupied@[m] || p.covers(m)),
            forall|m: int| 0 <= m < minute ==> !(#[trigger] occupied@[m] && p.covers(m)),
        decreases 1440 - minute,
    {
        let used = occupied[minute as usize];
        if p.contains(minute) {
            if used {
                proof {
                    let m = minute as int;
                    assert(occupied@[m]);
                    let j = choose|j: int|
                        0 <= j < earlier.len() && (#[trigger] earlier[j]).covers(m);
                    assert(earlier[j].covers(m) && p.covers(m));
                    assert(overlap(earlier[j], *p));
                }
                return None;
            }
            next.push(true);
        } else {
            next.push(used);
        }
        minute = minute + 1;
    }
    proof {
        let all = earlier.push(*p);
        assert forall|m: int| 0 <= m < 1440 implies (#[trigger] next@[m] <==> exists|j: int|
            0 <= j < earlier.len() + 1 && (#[trigger] all[j]).covers(m)) by {
            assert(next@[m] <==> occupied@[m] || p.covers(m));
            if p.covers(m) {
                assert(all[earlier.len() as int].covers(m));
            }
            if occupied@[m] {
                let j = choose|j: int| 0 <= j < earlier.len() && (#[trigger] earlier[j]).covers(m);
                assert(all[j].covers(m));
            }
            if exists|j: int| 0 <= j < earlier.len() + 1 && (#[trigger] all[j]).covers(m) {
                let j = choose|j: int|
                    0 <= j < earlier.len() + 1 && (#[trigger] all[j]).covers(m);
                if j < earlier.len() {
                    assert(earlier[j].covers(m));
                }
            }
        }
        assert forall|j: int| 0 <= j < earlier.len() implies !overlap(
            #[trigger] earlier[j],
            *p,
        ) by {
            if overlap(earlier[j], *p) {
                let m = choose|m: int|
                    0 <= m < 1440 && #[trigger] earlier[j].covers(m) && p.covers(m);
                assert(occupied@[m]);
            }
        }
    }
    Some(next)
}

/// Accepts a schedule of at most twenty-four sound periods that share no minute of the day.
pub fn validate_monitor_schedule(periods: &[MonitorPeriod]) -> (r: Result<(), String>)
    ensures
        checks::settles(r, schedule_complaint(periods@)),
{
    if periods.len() > 24 {
        return Err("最多24个检测时间段".to_owned());
    }
    let mut occupied: Vec<bool> = vec![false; 1440];
    let ghost check = period_check(periods@);
    let mut i: usize = 0;
    while i < periods.len()
        invariant
            i <= periods@.len() <= 24,
            check == period_check(periods@),
            checks::first_complaint(i as int, check) is None,
            occupied@.len() == 1440,
            forall|m: int|
                0 <= m < 1440 ==> (#[trigger] occupied@[m] <==> exists|j: int|
                    0 <= j < periods@.take(i as int).len() && (#[trigger] periods@.take(
                        i as int,
                    )[j]).covers(m)),
        decreases periods@.len() - i,
    {
        let p = periods[i];
        if p.start >= 1440 || p.end >= 1440 || p.interval_minutes == 0 || p.interval_minutes
            > 1440 {
            proof {
                checks::complaint_stands(periods@.len() as int, i as int, check);
            }
            return Err("时间范围或检测间隔无效（1–1440分钟）".to_owned());
        }
        let ghost earlier = periods@.take(i as int);
        match marked(&occupied, &p, Ghost(earlier)) {
            Some(next) => {
                occupied = next;
                proof {
                    assert(earlier.push(p) =~= periods@.take(i + 1));
                    if overlaps_earlier(periods@, i as int) {
                        let j = choose|j: int|
                            0 <= j < i && overlap(#[trigger] periods@[j], periods@[i as int]);
                        assert(overlap(earlier[j], p));
                    }
                }
            },
            None => {
                proof {
                    let j = choose|j: int|
                        0 <= j < earlier.len() && overlap(#[trigger] earlier[j], p);
                    assert(overlap(periods@[j], periods@[i as int]));
                    checks::complaint_stands(periods@.len() as int, i as int, check);
                }
                return Err("检测时间段不能重叠".to_owned());
            },
        }
        i = i + 1;
    }
    Ok(())
}

/// What is wrong with an address.
pub open spec fn url_complaint(raw: Seq<char>) -> Option<Seq<char>> {
    if text::bytes(raw) > 2048 {
        Some("URL过长"@)
    } else {
        match url::parts(raw) {
            None => Some("URL 无效"@),
            Some(p) => if (p.scheme == "http"@ || p.scheme == "https"@) && p.username.len() == 0
                && p.password is None && p.query is None && p.fragment is None {
                None
            } else {
                Some("URL 格式不支持"@)
            },
        }
    }
}

fn validate_url(raw: &str) -> (r: Result<(), String>)
    ensures
        checks::settles(r, url_complaint(raw@)),
{
    if size(raw) > 2048 {
        return Err("URL过长".to_owned());
    }
    match url::parse(raw) {
        None => Err("URL 无效".to_owned()),
        Some(u) => {
            if !(same(u.scheme.as_str(), "http") || same(u.scheme.as_str(), "https"))
                || !u.username.as_str().is_empty() || u.password.is_some() || u.query.is_some()
                || u.fragment.is_some() {
                Err("URL 格式不支持".to_owned())
            } else {
                Ok(())
            }
        },
    }
}

/// All channels of models, in order.
pub open spec fn all_channels(models: Seq<Model>) -> Seq<Channel>
    decreases models.len(),
{
    if models.len() == 0 {
        Seq::empty()
    } else {
        all_channels(models.drop_last()) + models.last().channels@
    }
}

/// All keys of channels, in order.
pub open spec fn all_keys(channels: Seq<Channel>) -> Seq<Key>
    decreases channels.len(),
{
    if channels.len() == 0 {
        Seq::empty()
    } else {
        all_keys(channels.drop_last()) + channels.last().keys@
    }
}

/// Some channel has an identifier.
pub open spec fn has_channel(channels: Seq<Channel>, id: Seq<char>) -> bool {
    exists|i: int| 0 <= i < channels.len() && (#[trigger] channels[i]).id@ == id
}

/// Some key has an identifier.
pub open spec fn has_key(keys: Seq<Key>, id: Seq<char>) -> bool {
    exists|i: int| 0 <= i < keys.len() && (#[trigger] keys[i]).id@ == id
}

/// Some model has an identifier.
pub open spec fn has_model(models: Seq<Model>, id: Seq<char>) -> bool {
    exists|i: int| 0 <= i < models.len() && (#[trigger] models[i]).id@ == id
}

/// Some monitor has an identifier.
pub open spec fn has_monitor(monitors: Seq<Monitor>, id: Seq<char>) -> bool {
    exists|i: int| 0 <= i < monitors.len() && (#[trigger] monitors[i]).id@ == id
}

/// What is wrong with the fields of a key.
pub open spec fn key_field_check(keys: Seq<Key>) -> spec_fn(int) -> Option<Seq<char>> {
    |k: int|
        if text::bytes(keys[k].id@) > 128 || text::bytes(keys[k].label@) > 256 || text::bytes(
            keys[k].secret@,
        ) > 4096 || keys[k].secret@.contains('\r') || keys[k].secret@.contains('\n') {
            Some("Key字段非法"@)
        } else {
            None
        }
}

/// What is wrong with the fields of a channel and its keys.
pub open spec fn channel_field_check(channels: Seq<Channel>) -> spec_fn(int) -> Option<Seq<char>> {
    |j: int|
        if text::bytes(channels[j].id@) > 128 || text::bytes(channels[j].name@) > 256
            || text::bytes(channels[j].upstream_model@) > 256 {
            Some("渠道字段过长"@)
        } else {
            checks::first_complaint(
                channels[j].keys@.len() as int,
                key_field_check(channels[j].keys@),
            )
        }
}

/// What is wrong with the fields of a model, its channels and their keys.
pub open spec fn model_field_check(models: Seq<Model>) -> spec_fn(int) -> Option<Seq<char>> {
    |i: int|
        if text::bytes(models[i].id@) > 256 {
            Some("模型名过长"@)
        } else {
            checks::first_complaint(
                models[i].channels@.len() as int,
                channel_field_check(models[i].channels@),
            )
        }
}

/// What is wrong with the fields of a monitor.
pub open spec fn monitor_field_check(monitors: Seq<Monitor>) -> spec_fn(int) -> Option<Seq<char>> {
    |i: int|
        if text::bytes(monitors[i].id@) > 128 || text::bytes(monitors[i].name@) > 256
            || monitors[i].key@.len() == 0 || text::bytes(monitors[i].key@) > 4096
            || monitors[i].model@.len() == 0 || text::bytes(monitors[i].model@) > 256 {
            Some("监控字段为空或过长"@)
        } else {
            None
        }
}

/// What is wrong with the identity and address of a monitor.
pub open spec fn monitor_id_check(monitors: Seq<Monitor>) -> spec_fn(int) -> Option<Seq<char>> {
    |i: int|
        if monitors[i].id@.len() == 0 || has_monitor(monitors.take(i), monitors[i].id@) {
            Some("监控 ID 重复或为空"@)
        } else {
            url_complaint(monitors[i].base_url@)
        }
}

/// What is wrong with the identity of a key, after keys that came before.
pub open spec fn key_id_check(earlier: Seq<Key>, keys: Seq<Key>) -> spec_fn(int) -> Option<
    Seq<char>,
> {
    |k: int|
        if keys[k].id@.len() == 0 || keys[k].secret@.len() == 0 || has_key(
            earlier + keys.take(k),
            keys[k].id@,
        ) {
            Some("Key ID 重复或为空"@)
        } else {
            None
        }
}

/// What is wrong with the identity of a channel, after channels that came before.
pub open spec fn channel_id_check(
    monitors: Seq<Monitor>,
    earlier: Seq<Channel>,
    channels: Seq<Channel>,
) -> spec_fn(int) -> Option<Seq<char>> {
    |j: int|
        {
            let c = channels[j];
            let before = earlier + channels.take(j);
            if c.id@.len() == 0 || has_channel(before, c.id@) || c.keys@.len() == 0 || c.keys@.len()
                > 50 {
                Some("渠道 ID 重复或 Key 数量非法"@)
            } else {
                checks::either(
                    url_complaint(c.base_url@),
                    if c.name@.len() == 0 || c.upstream_model@.len() == 0 {
                        Some("上游模型不能为空"@)
                    } else if c.monitor_id is Some && !has_monitor(monitors, c.monitor_id->0@) {
                        Some("监控 ID 不存在"@)
                    } else {
                        checks::first_complaint(
                            c.keys@.len() as int,
                            key_id_check(all_keys(before), c.keys@),
                        )
                    },
                )
            }
        }
}

/// What is wrong with the identity of a model and its channels.
pub open spec fn model_id_check(monitors: Seq<Monitor>, models: Seq<Model>) -> spec_fn(
    int,
) -> Option<Seq<char>> {
    |i: int|
        if models[i].id@.len() == 0 || has_model(models.take(i), models[i].id@)
            || models[i].channels@.len() > 100 {
            Some("模型重复、为空或渠道过多"@)
        } else {
            checks::first_complaint(
                models[i].channels@.len() as int,
                channel_id_check(monitors, all_channels(models.take(i)), models[i].channels@),
            )
        }
}

impl Config {
    /// What is wrong with a configuration, where its listening address is or is not one.
    pub open spec fn complaint(self, listens: bool) -> Option<Seq<char>> {
        let models = self.models@;
        let monitors = self.monitors@;
        checks::either(
            schedule_complaint(self.monitor_schedule@),
            if self.api_key@.len() == 0 {
                Some("公司 API Key 不能为空"@)
            } else if models.len() > 100 || monitors.len() > 200 {
                Some("配置数量超限"@)
            } else if text::bytes(self.api_key@) > 4096 || text::bytes(self.webhook@) > 4096 {
                Some("设置字段过长"@)
            } else if !listens {
                Some("监听地址必须为IP:端口"@)
            } else {
                checks::either(
                    checks::first_complaint(monitors.len() as int, monitor_field_check(monitors)),
                    checks::either(
                        checks::first_complaint(models.len() as int, model_field_check(models)),
                        checks::either(
                            checks::first_complaint(
                                monitors.len() as int,
                                monitor_id_check(monitors),
                            ),
                            checks::either(
                                checks::first_complaint(
                                    models.len() as int,
                                    model_id_check(monitors, models),
                                ),
                                if all_keys(all_channels(models)).len() > 512 || all_channels(
                                    models,
                                ).len() > 256 {
                                    Some("最多512把Key、256个渠道"@)
                                } else if self.webhook@.len() > 0 {
                                    url_complaint(self.webhook@)
                                } else {
                                    None
                                },
                            ),
                        ),
                    ),
                )
            },
        )
    }

    /// Accepts a configuration or says what is wrong with it. `listens` tells whether the
    /// listening address is an IP address with a port.
    pub fn validate(&self, listens: bool) -> (r: Result<(), String>)
        ensures
            checks::settles(r, self.complaint(listens)),
    {
        match validate_monitor_schedule(self.monitor_schedule.as_slice()) {
            Ok(()) => {},
            Err(e) => {
                return Err(e);
            },
        }
        if self.api_key.as_str().is_empty() {
            return Err("公司 API Key 不能为空".to_owned());
        }
        if self.models.len() > 100 || self.monitors.len() > 200 {
            return Err("配置数量超限".to_owned());
        }
        if size(self.api_key.as_str()) > 4096 || size(self.webhook.as_str()) > 4096 {
            return Err("设置字段过长".to_owned());
        }
        if !listens {
            return Err("监听地址必须为IP:端口".to_owned());
        }
        match monitor_fields(&self.monitors) {
            Ok(()) => {},
            Err(e) => {
                return Err(e);
            },
        }
        match model_fields(&self.models) {
            Ok(()) => {},
            Err(e) => {
                return Err(e);
            },
        }
        match monitor_ids(&self.monitors) {
            Ok(()) => {},
            Err(e) => {
                return Err(e);
            },
        }
        match model_ids(&self.monitors, &self.models) {
            Ok((channels, keys)) => {
                if keys > 512 || channels > 256 {
                    return Err("最多512把Key、256个渠道".to_owned());
                }
            },
            Err(e) => {
                return Err(e);
            },
        }
        if !self.webhook.as_str().is_empty() {
            return validate_url(self.webhook.as_str());
        }
        Ok(())
    }
}

fn monitor_fields(monitors: &Vec<Monitor>) -> (r: Result<(), String>)
    ensures
        checks::settles(
            r,
            checks::first_complaint(monitors@.len() as int, monitor_field_check(monitors@)),
        ),
{
    let ghost check = monitor_field_check(monitors@);
    let mut i: usize = 0;
    while i < monitors.len()
        invariant
            i <= monitors@.len(),
            check == monitor_field_check(monitors@),
            checks::first_complaint(i as int, check) is None,
        decreases monitors@.len() - i,
    {
        let m = &monitors[i];
        if size(m.id.as_str()) > 128 || size(m.name.as_str()) > 256 || m.key.as_str().is_empty()
            || size(m.key.as_str()) > 4096 || m.model.as_str().is_empty() || size(m.model.as_str())
            > 256 {
            proof {
                checks::complaint_stands(monitors@.len() as int, i as int, check);
            }
            return Err("监控字段为空或过长".to_owned());
        }
        i = i + 1;
    }
    Ok(())
}

fn key_fields(keys: &Vec<Key>) -> (r: Result<(), String>)
    ensures
        checks::settles(
            r,
            checks::first_complaint(keys@.len() as int, key_field_check(keys@)),
        ),
{
    let ghost check = key_field_check(keys@);
    let mut i: usize = 0;
    while i < keys.len()
        invariant
            i <= keys@.len(),
            check == key_field_check(keys@),
            checks::first_complaint(i as int, check) is None,
        decreases keys@.len() - i,
    {
        let k = &keys[i];
        if size(k.id.as_str()) > 128 || size(k.label.as_str()) > 256 || size(k.secret.as_str())
            > 4096 || text::has(k.secret.as_str(), '\r') || text::has(k.secret.as_str(), '\n') {
            proof {
                checks::complaint_stands(keys@.len() as int, i as int, check);
            }
            return Err("Key字段非法".to_owned());
        }
        i = i + 1;
    }
    Ok(())
}

fn channel_fields(channels: &Vec<Channel>) -> (r: Result<(), String>)
    ensures
        checks::settles(
            r,
            checks::first_complaint(channels@.len() as int, channel_field_check(channels@)),
        ),
{
    let ghost check = channel_field_check(channels@);
    let mut i: usize = 0;
    while i < channels.len()
        invariant
            i <= channels@.len(),
            check == channel_field_check(channels@),
            checks::first_complaint(i as int, check) is None,
        decreases channels@.len() - i,
    {
        let c = &channels[i];
        if size(c.id.as_str()) > 128 || size(c.name.as_str()) > 256 || size(
            c.upstream_model.as_str(),
        ) > 256 {
            proof {
                checks::complaint_stands(channels@.len() as int, i as int, check);
            }
            return Err("渠道字段过长".to_owned());
        }
        match key_fields(&c.keys) {
            Ok(()) => {},
            Err(e) => {
                proof {
                    checks::complaint_stands(channels@.len() as int, i as int, check);
                }
                return Err(e);
            },
        }
        i = i + 1;
    }
    Ok(())
}

fn model_fields(models: &Vec<Model>) -> (r: Result<(), String>)
    ensures
        checks::settles(
            r,
            checks::first_complaint(models@.len() as int, model_field_check(models@)),
        ),
{
    let ghost check = model_field_check(models@);
    let mut i: usize = 0;
    while i < models.len()
        invariant
            i <= models@.len(),
            check == model_field_check(models@),
            checks::first_complaint(i as int, check) is None,
        decreases models@.len() - i,
    {
        let m = &models[i];
        if size(m.id.as_str()) > 256 {
            proof {
                checks::complaint_stands(models@.len() as int, i as int, check);
            }
            return Err("模型名过长".to_owned());
        }
        match channel_fields(&m.channels) {
            Ok(()) => {},
            Err(e) => {
                proof {
                    checks::complaint_stands(models@.len() as int, i as int, check);
                }
                return Err(e);
            },
        }
        i = i + 1;
    }
    Ok(())
}

fn monitor_ids(monitors: &Vec<Monitor>) -> (r: Result<(), String>)
    ensures
        checks::settles(
            r,
            checks::first_complaint(monitors@.len() as int, monitor_id_check(monitors@)),
        ),
{
    let ghost check = monitor_id_check(monitors@);
    let mut seen: Vec<&String> = Vec::new();
    let mut i: usize = 0;
    while i < monitors.len()
        invariant
            i <= monitors@.len(),
            check == monitor_id_check(monitors@),
            checks::first_complaint(i as int, check) is None,
            seen@.len() == i,
            forall|j: int| 0 <= j < i ==> (#[trigger] seen@[j])@ == monitors@[j].id@,
        decreases monitors@.len() - i,
    {
        let m = &monitors[i];
        let repeated = among(&seen, m.id.as_str());
        assert(repeated == has_monitor(monitors@.take(i as int), m.id@)) by {
            if repeated {
                let j = choose|j: int| 0 <= j < seen@.len() && (#[trigger] seen@[j])@ == m.id@;
                assert(monitors@.take(i as int)[j].id@ == m.id@);
            }
            if has_monitor(monitors@.take(i as int), m.id@) {
                let j = choose|j: int|
                    0 <= j < i && (#[trigger] monitors@.take(i as int)[j]).id@ == m.id@;
                assert(seen@[j]@ == m.id@);
            }
        }
        if m.id.as_str().is_empty() || repeated {
            proof {
                checks::complaint_stands(monitors@.len() as int, i as int, check);
            }
            return Err("监控 ID 重复或为空".to_owned());
        }
        match validate_url(m.base_url.as_str()) {
            Ok(()) => {},
            Err(e) => {
                proof {
                    checks::complaint_stands(monitors@.len() as int, i as int, check);
                }
                return Err(e);
            },
        }
        seen.push(&m.id);
        i = i + 1;
    }
    Ok(())
}

/// Whether a monitor with an identifier is configured.
pub fn monitor_exists(monitors: &Vec<Monitor>, id: &str) -> (r: bool)
    ensures
        r == has_monitor(monitors@, id@),
{
    let mut i: usize = 0;
    while i < monitors.len()
        invariant
            i <= monitors@.len(),
            forall|j: int| 0 <= j < i ==> (#[trigger] monitors@[j]).id@ != id@,
        decreases monitors@.len() - i,
    {
        if same(monitors[i].id.as_str(), id) {
            return true;
        }
        i = i + 1;
    }
    false
}

/// The identifiers of channels, one by one.
spec fn lists_channels(ids: Seq<&String>, channels: Seq<Channel>) -> bool {
    ids.len() == channels.len() && forall|i: int|
        0 <= i < ids.len() ==> (#[trigger] ids[i])@ == channels[i].id@
}

/// The identifiers of keys, one by one.
spec fn lists_keys(ids: Seq<&String>, keys: Seq<Key>) -> bool {
    ids.len() == keys.len() && forall|i: int|
        0 <= i < ids.len() ==> (#[trigger] ids[i])@ == keys[i].id@
}

proof fn listed_channel(ids: Seq<&String>, channels: Seq<Channel>, id: Seq<char>)
    requires
        lists_channels(ids, channels),
    ensures
        has_channel(channels, id) == exists|i: int| 0 <= i < ids.len() && (#[trigger] ids[i])@ == id,
{
    if has_channel(channels, id) {
        let i = choose|i: int| 0 <= i < channels.len() && (#[trigger] channels[i]).id@ == id;
        assert(ids[i]@ == id);
    }
    if exists|i: int| 0 <= i < ids.len() && (#[trigger] ids[i])@ == id {
        let i = choose|i: int| 0 <= i < ids.len() && (#[trigger] ids[i])@ == id;
        assert(channels[i].id@ == id);
    }
}

proof fn listed_key(ids: Seq<&String>, keys: Seq<Key>, id: Seq<char>)
    requires
        lists_keys(ids, keys),
    ensures
        has_key(keys, id) == exists|i: int| 0 <= i < ids.len() && (#[trigger] ids[i])@ == id,
{
    if has_key(keys, id) {
        let i = choose|i: int| 0 <= i < keys.len() && (#[trigger] keys[i]).id@ == id;
        assert(ids[i]@ == id);
    }
    if exists|i: int| 0 <= i < ids.len() && (#[trigger] ids[i])@ == id {
        let i = choose|i: int| 0 <= i < ids.len() && (#[trigger] ids[i])@ == id;
        assert(keys[i].id@ == id);
    }
}

fn key_ids<'a>(
    keys: &'a Vec<Key>,
    seen: &mut Vec<&'a String>,
    Ghost(earlier): Ghost<Seq<Key>>,
) -> (r: Result<(), String>)
    requires
        lists_keys(old(seen)@, earlier),
    ensures
        checks::settles(
            r,
            checks::first_complaint(keys@.len() as int, key_id_check(earlier, keys@)),
        ),
        r is Ok ==> lists_keys(final(seen)@, earlier + keys@),
{
    let ghost check = key_id_check(earlier, keys@);
    let mut i: usize = 0;
    assert(earlier + keys@.take(0) =~= earlier);
    while i < keys.len()
        invariant
            i <= keys@.len(),
            check == key_id_check(earlier, keys@),
            checks::first_complaint(i as int, check) is None,
            lists_keys(seen@, earlier + keys@.take(i as int)),
        decreases keys@.len() - i,
    {
        let k = &keys[i];
        proof {
            listed_key(seen@, earlier + keys@.take(i as int), k.id@);
        }
        if k.id.as_str().is_empty() || k.secret.as_str().is_empty() || among(seen, k.id.as_str()) {
            proof {
                checks::complaint_stands(keys@.len() as int, i as int, check);
            }
            return Err("Key ID 重复或为空".to_owned());
        }
        seen.push(&k.id);
        assert(earlier + keys@.take(i + 1) =~= (earlier + keys@.take(i as int)).push(*k));
        i = i + 1;
    }
    assert(keys@.take(i as int) =~= keys@);
    Ok(())
}

fn channel_ids<'a>(
    monitors: &Vec<Monitor>,
    channels: &'a Vec<Channel>,
    seen: &mut Vec<&'a String>,
    seen_keys: &mut Vec<&'a String>,
    Ghost(earlier): Ghost<Seq<Channel>>,
) -> (r: Result<(), String>)
    requires
        lists_channels(old(seen)@, earlier),
        lists_keys(old(seen_keys)@, all_keys(earlier)),
    ensures
        checks::settles(
            r,
            checks::first_complaint(
                channels@.len() as int,
                channel_id_check(monitors@, earlier, channels@),
            ),
        ),
        r is Ok ==> lists_channels(final(seen)@, earlier + channels@),
        r is Ok ==> lists_keys(final(seen_keys)@, all_keys(earlier + channels@)),
{
    let ghost check = channel_id_check(monitors@, earlier, channels@);
    let mut i: usize = 0;
    assert(earlier + channels@.take(0) =~= earlier);
    while i < channels.len()
        invariant
            i <= channels@.len(),
            check == channel_id_check(monitors@, earlier, channels@),
            checks::first_complaint(i as int, check) is None,
            lists_channels(seen@, earlier + channels@.take(i as int)),
            lists_keys(seen_keys@, all_keys(earlier + channels@.take(i as int))),
        decreases channels@.len() - i,
    {
        let c = &channels[i];
        let ghost before = earlier + channels@.take(i as int);
        let ghost n = channels@.len() as int;
        proof {
            listed_channel(seen@, before, c.id@);
        }
        if c.id.as_str().is_empty() || among(seen, c.id.as_str()) || c.keys.len() == 0
            || c.keys.len() > 50 {
            proof {
                checks::complaint_stands(n, i as int, check);
            }
            return Err("渠道 ID 重复或 Key 数量非法".to_owned());
        }
        match validate_url(c.base_url.as_str()) {
            Ok(()) => {},
            Err(e) => {
                proof {
                    checks::complaint_stands(n, i as int, check);
                }
                return Err(e);
            },
        }
        if c.name.as_str().is_empty() || c.upstream_model.as_str().is_empty() {
            proof {
                checks::complaint_stands(n, i as int, check);
            }
            return Err("上游模型不能为空".to_owned());
        }
        let missing = match &c.monitor_id {
            Some(id) => !monitor_exists(monitors, id.as_str()),
            None => false,
        };
        if missing {
            proof {
                checks::complaint_stands(n, i as int, check);
            }
            return Err("监控 ID 不存在".to_owned());
        }
        match key_ids(&c.keys, seen_keys, Ghost(all_keys(before))) {
            Ok(()) => {},
            Err(e) => {
                proof {
                    checks::complaint_stands(n, i as int, check);
                }
                return Err(e);
            },
        }
        seen.push(&c.id);
        proof {
            let next = earlier + channels@.take(i + 1);
            assert(next =~= before.push(*c));
            assert(next.drop_last() =~= before);
        }
        i = i + 1;
    }
    assert(channels@.take(i as int) =~= channels@);
    Ok(())
}

fn model_ids(monitors: &Vec<Monitor>, models: &Vec<Model>) -> (r: Result<(usize, usize), String>)
    ensures
        match r {
            Ok((channels, keys)) => {
                &&& checks::first_complaint(
                    models@.len() as int,
                    model_id_check(monitors@, models@),
                ) is None
                &&& channels == all_channels(models@).len()
                &&& keys == all_keys(all_channels(models@)).len()
            },
            Err(e) => checks::first_complaint(
                models@.len() as int,
                model_id_check(monitors@, models@),
            ) == Some(e@),
        },
{
    let ghost check = model_id_check(monitors@, models@);
    let ghost n = models@.len() as int;
    let mut seen: Vec<&String> = Vec::new();
    let mut channels: Vec<&String> = Vec::new();
    let mut keys: Vec<&String> = Vec::new();
    let mut i: usize = 0;
    while i < models.len()
        invariant
            i <= models@.len(),
            n == models@.len(),
            check == model_id_check(monitors@, models@),
            checks::first_complaint(i as int, check) is None,
            seen@.len() == i,
            forall|j: int| 0 <= j < i ==> (#[trigger] seen@[j])@ == models@[j].id@,
            lists_channels(channels@, all_channels(models@.take(i as int))),
            lists_keys(keys@, all_keys(all_channels(models@.take(i as int)))),
        decreases models@.len() - i,
    {
        let m = &models[i];
        let repeated = among(&seen, m.id.as_str());
        assert(repeated == has_model(models@.take(i as int), m.id@)) by {
            if repeated {
                let j = choose|j: int| 0 <= j < seen@.len() && (#[trigger] seen@[j])@ == m.id@;
                assert(models@.take(i as int)[j].id@ == m.id@);
            }
            if has_model(models@.take(i as int), m.id@) {
                let j = choose|j: int|
                    0 <= j < i && (#[trigger] models@.take(i as int)[j]).id@ == m.id@;
                assert(seen@[j]@ == m.id@);
            }
        }
        if m.id.as_str().is_empty() || repeated || m.channels.len() > 100 {
            proof {
                checks::complaint_stands(n, i as int, check);
            }
            return Err("模型重复、为空或渠道过多".to_owned());
        }
        match channel_ids(
            monitors,
            &m.channels,
            &mut channels,
            &mut keys,
            Ghost(all_channels(models@.take(i as int))),
        ) {
            Ok(()) => {},
            Err(e) => {
                proof {
                    checks::complaint_stands(n, i as int, check);
                }
                return Err(e);
            },
        }
        seen.push(&m.id);
        assert(models@.take(i + 1).drop_last() =~= models@.take(i as int));
        i = i + 1;
    }
    assert(models@.take(i as int) =~= models@);
    Ok((channels.len(), keys.len()))
}

/// A text without a suffix, where it has it.
pub open spec fn without(s: Seq<char>, suffix: Seq<char>) -> Seq<char> {
    match text::before(s, suffix) {
        Some(v) => v,
        None => s,
    }
}

/// The root of an upstream's address.
pub open spec fn root_of(base: Seq<char>) -> Seq<char> {
    without(without(text::trimmed_end(base, '/'), "/responses"@), "/v1"@)
}

/// The root of an upstream's address.
pub fn root(base: &str) -> (r: String)
    ensures
        r@ == root_of(base@),
{
    let mut s = text::trim_end_matches(base, '/');
    match text::strip_suffix(s.as_str(), "/responses") {
        Some(v) => {
            s = v;
        },
        None => {},
    }
    match text::strip_suffix(s.as_str(), "/v1") {
        Some(v) => {
            s = v;
        },
        None => {},
    }
    s
}

/// An address names a host and no path.
pub open spec fn bare_host(s: Seq<char>) -> bool {
    match url::parts(s) {
        Some(p) => p.path.len() == 0 || p.path == "/"@,
        None => false,
    }
}

/// The address of an upstream's responses interface.
pub open spec fn responses_url_of(base: Seq<char>) -> Seq<char> {
    let s = text::trimmed_end(base, '/');
    if text::ends(s, "/responses"@) {
        s
    } else if bare_host(s) {
        s + "/v1/responses"@
    } else {
        s + "/responses"@
    }
}

/// The address of an upstream's responses interface.
pub fn responses_url(base: &str) -> (r: String)
    ensures
        r@ == responses_url_of(base@),
{
    let s = text::trim_end_matches(base, '/');
    if text::ends_with(s.as_str(), "/responses") {
        return s;
    }
    let host = match url::parse(s.as_str()) {
        Some(u) => u.path.as_str().is_empty() || same(u.path.as_str(), "/"),
        None => false,
    };
    if host {
        s.concat("/v1/responses")
    } else {
        s.concat("/responses")
    }
}

/// The fingerprint of a JSON value: the SHA-256 digest of its compact spelling.
pub open spec fn fingerprint_of(v: JsonView) -> Seq<char> {
    secret::sha256(encode_utf8(v.spelled()))
}

/// The fingerprint of a JSON value: the SHA-256 digest of its compact spelling.
pub fn fingerprint(v: &Json) -> (r: String)
    ensures
        r@ == fingerprint_of(v@),
        r@.len() == 64,
{
    let spelled = v.render();
    secret::sha256_hex(spelled.as_str().as_bytes())
}

/// What tells one credential of a channel from another: where it leads, for which upstream
/// model, the secret, and the quota interface.
pub open spec fn key_document(
    base_url: Seq<char>,
    upstream_model: Seq<char>,
    key_secret: Seq<char>,
    adapter: Adapter,
) -> JsonView {
    JsonView::Array(
        seq![
            JsonView::Text(base_url),
            JsonView::Text(upstream_model),
            JsonView::Text(key_secret),
            JsonView::Text(adapter.label()),
        ],
    )
}

impl Channel {
    /// The identity of a key of this channel under a model.
    pub open spec fn identity_of(self, model: Seq<char>, key: Key) -> Seq<char> {
        fingerprint_of(
            key_document(
                self.base_url@,
                self.upstream_model@,
                key.secret@,
                Adapter::official(model, self.adapter),
            ),
        )
    }

    /// The identity of a key of this channel under a model.
    pub fn key_identity(&self, model: &str, key: &Key) -> (r: String)
        ensures
            r@ == self.identity_of(model@, *key),
    {
        let adapter = Adapter::for_model(model, self.adapter);
        let items = vec![
            Json::text(self.base_url.as_str()),
            Json::text(self.upstream_model.as_str()),
            Json::text(key.secret.as_str()),
            Json::text(adapter.name()),
        ];
        let v = array(items);
        assert(v@ == key_document(self.base_url@, self.upstream_model@, key.secret@, adapter)) by {
            assert(v@->Array_0 =~= key_document(
                self.base_url@,
                self.upstream_model@,
                key.secret@,
                adapter,
            )->Array_0);
        }
        fingerprint(&v)
    }

    fn to_json(&self) -> (r: Json)
        ensures
            r@ == channel_document(*self),
    {
        let monitor = match &self.monitor_id {
            Some(id) => Json::text(id.as_str()),
            None => Json::Null,
        };
        let mut keys: Vec<Json> = Vec::new();
        let mut i: usize = 0;
        while i < self.keys.len()
            invariant
                i <= self.keys@.len(),
                keys@.len() == i,
                forall|j: int| 0 <= j < i ==> (#[trigger] keys@[j])@ == key_member(self.keys@[j]),
            decreases self.keys@.len() - i,
        {
            keys.push(self.keys[i].to_json());
            i = i + 1;
        }
        let keys = array(keys);
        assert(keys@->Array_0 =~= self.keys@.map_values(|k: Key| key_member(k)));
        let r = object(
            vec![
                member("id", Json::text(self.id.as_str())),
                member("name", Json::text(self.name.as_str())),
                member("base_url", Json::text(self.base_url.as_str())),
                member("upstream_model", Json::text(self.upstream_model.as_str())),
                member("adapter", Json::text(self.adapter.name())),
                member("enabled", Json::Bool(self.enabled)),
                member("monitor_id", monitor),
                member("keys", keys),
            ],
        );
        assert(r@->Object_0 =~= channel_document(*self)->Object_0);
        r
    }
}

impl Key {
    fn to_json(&self) -> (r: Json)
        ensures
            r@ == key_member(*self),
    {
        let r = object(
            vec![
                member("enabled", Json::Bool(self.enabled)),
                member("id", Json::text(self.id.as_str())),
                member("label", Json::text(self.label.as_str())),
                member("secret", Json::text(self.secret.as_str())),
            ],
        );
        assert(r@->Object_0 =~= key_member(*self)->Object_0);
        r
    }
}

/// A key as configuration files write it.
pub open spec fn key_member(k: Key) -> JsonView {
    JsonView::Object(
        seq![
            ("enabled"@, JsonView::Bool(k.enabled)),
            ("id"@, JsonView::Text(k.id@)),
            ("label"@, JsonView::Text(k.label@)),
            ("secret"@, JsonView::Text(k.secret@)),
        ],
    )
}

/// A channel as configuration files write it.
pub open spec fn channel_document(c: Channel) -> JsonView {
    JsonView::Object(
        seq![
            ("id"@, JsonView::Text(c.id@)),
            ("name"@, JsonView::Text(c.name@)),
            ("base_url"@, JsonView::Text(c.base_url@)),
            ("upstream_model"@, JsonView::Text(c.upstream_model@)),
            ("adapter"@, JsonView::Text(c.adapter.label())),
            ("enabled"@, JsonView::Bool(c.enabled)),
            (
                "monitor_id"@,
                match c.monitor_id {
                    Some(id) => JsonView::Text(id@),
                    None => JsonView::Null,
                },
            ),
            ("keys"@, JsonView::Array(c.keys@.map_values(|k: Key| key_member(k)))),
        ],
    )
}

/// A model as configuration files write it.
pub open spec fn model_document(m: Model) -> JsonView {
    JsonView::Object(
        seq![
            ("id"@, JsonView::Text(m.id@)),
            ("channels"@, JsonView::Array(m.channels@.map_values(|c: Channel| channel_document(c)))),
        ],
    )
}

/// A monitor as configuration files write it.
pub open spec fn monitor_document(m: Monitor) -> JsonView {
    JsonView::Object(
        seq![
            ("id"@, JsonView::Text(m.id@)),
            ("name"@, JsonView::Text(m.name@)),
            ("base_url"@, JsonView::Text(m.base_url@)),
            ("key"@, JsonView::Text(m.key@)),
            ("model"@, JsonView::Text(m.model@)),
        ],
    )
}

/// A period as configuration files write it.
pub open spec fn period_document(p: MonitorPeriod) -> JsonView {
    JsonView::Object(
        seq![
            ("start"@, json::natural(p.start as u64)),
            ("end"@, json::natural(p.end as u64)),
            ("interval_minutes"@, json::natural(p.interval_minutes as u64)),
        ],
    )
}

/// The settings that stand before the password hash.
pub open spec fn leading_members(c: Config) -> Seq<(Seq<char>, JsonView)> {
    seq![("listen"@, JsonView::Text(c.listen@)), ("api_key"@, JsonView::Text(c.api_key@))]
}

/// The settings that stand after the password hash.
pub open spec fn trailing_members(c: Config) -> Seq<(Seq<char>, JsonView)> {
    seq![
        ("webhook"@, JsonView::Text(c.webhook@)),
        ("use_system_proxy"@, JsonView::Bool(c.use_system_proxy)),
        ("notify_all_monitors"@, JsonView::Bool(c.notify_all_monitors)),
        ("employee_keys"@, c.employee_keys@),
        ("models"@, JsonView::Array(c.models@.map_values(|m: Model| model_document(m)))),
        ("monitors"@, JsonView::Array(c.monitors@.map_values(|m: Monitor| monitor_document(m)))),
        (
            "monitor_schedule"@,
            JsonView::Array(c.monitor_schedule@.map_values(|p: MonitorPeriod| period_document(p))),
        ),
    ]
}

/// A configuration as its file writes it.
pub open spec fn config_document(c: Config) -> JsonView {
    JsonView::Object(
        leading_members(c) + seq![
            ("admin_password_hash"@, JsonView::Text(c.admin_password_hash@)),
        ] + trailing_members(c),
    )
}

impl Model {
    fn to_json(&self) -> (r: Json)
        ensures
            r@ == model_document(*self),
    {
        let mut channels: Vec<Json> = Vec::new();
        let mut i: usize = 0;
        while i < self.channels.len()
            invariant
                i <= self.channels@.len(),
                channels@.len() == i,
                forall|j: int|
                    0 <= j < i ==> (#[trigger] channels@[j])@ == channel_document(self.channels@[j]),
            decreases self.channels@.len() - i,
        {
            channels.push(self.channels[i].to_json());
            i = i + 1;
        }
        let channels = array(channels);
        assert(channels@->Array_0 =~= self.channels@.map_values(|c: Channel| channel_document(c)));
        let r = object(
            vec![member("id", Json::text(self.id.as_str())), member("channels", channels)],
        );
        assert(r@->Object_0 =~= model_document(*self)->Object_0);
        r
    }
}

impl Monitor {
    /// What tells one monitored upstream from another.
    pub open spec fn identity_of(self) -> Seq<char> {
        fingerprint_of(
            JsonView::Array(
                seq![
                    JsonView::Text(self.base_url@),
                    JsonView::Text(self.model@),
                    JsonView::Text(self.key@),
                ],
            ),
        )
    }

    /// What tells one monitored upstream from another.
    pub fn identity(&self) -> (r: String)
        ensures
            r@ == self.identity_of(),
    {
        let items = vec![
            Json::text(self.base_url.as_str()),
            Json::text(self.model.as_str()),
            Json::text(self.key.as_str()),
        ];
        let v = array(items);
        assert(v@->Array_0 =~= seq![
            JsonView::Text(self.base_url@),
            JsonView::Text(self.model@),
            JsonView::Text(self.key@),
        ]);
        fingerprint(&v)
    }

    fn to_json(&self) -> (r: Json)
        ensures
            r@ == monitor_document(*self),
    {
        let r = object(
            vec![
                member("id", Json::text(self.id.as_str())),
                member("name", Json::text(self.name.as_str())),
                member("base_url", Json::text(self.base_url.as_str())),
                member("key", Json::text(self.key.as_str())),
                member("model", Json::text(self.model.as_str())),
            ],
        );
        assert(r@->Object_0 =~= monitor_document(*self)->Object_0);
        r
    }
}

impl MonitorPeriod {
    fn to_json(&self) -> (r: Json)
        ensures
            r@ == period_document(*self),
    {
        let r = object(
            vec![
                member("start", Json::natural(self.start as u64)),
                member("end", Json::natural(self.end as u64)),
                member("interval_minutes", Json::natural(self.interval_minutes as u64)),
            ],
        );
        assert(r@->Object_0 =~= period_document(*self)->Object_0);
        r
    }
}

impl Config {
    fn models_json(&self) -> (r: Json)
        ensures
            r@ == JsonView::Array(self.models@.map_values(|m: Model| model_document(m))),
    {
        let mut items: Vec<Json> = Vec::new();
        let mut i: usize = 0;
        while i < self.models.len()
            invariant
                i <= self.models@.len(),
                items@.len() == i,
                forall|j: int|
                    0 <= j < i ==> (#[trigger] items@[j])@ == model_document(self.models@[j]),
            decreases self.models@.len() - i,
        {
            items.push(self.models[i].to_json());
            i = i + 1;
        }
        let r = array(items);
        assert(r@->Array_0 =~= self.models@.map_values(|m: Model| model_document(m)));
        r
    }

    fn monitors_json(&self) -> (r: Json)
        ensures
            r@ == JsonView::Array(self.monitors@.map_values(|m: Monitor| monitor_document(m))),
    {
        let mut items: Vec<Json> = Vec::new();
        let mut i: usize = 0;
        while i < self.monitors.len()
            invariant
                i <= self.monitors@.len(),
                items@.len() == i,
                forall|j: int|
                    0 <= j < i ==> (#[trigger] items@[j])@ == monitor_document(self.monitors@[j]),
            decreases self.monitors@.len() - i,
        {
            items.push(self.monitors[i].to_json());
            i = i + 1;
        }
        let r = array(items);
        assert(r@->Array_0 =~= self.monitors@.map_values(|m: Monitor| monitor_document(m)));
        r
    }

    fn schedule_json(&self) -> (r: Json)
        ensures
            r@ == JsonView::Array(
                self.monitor_schedule@.map_values(|p: MonitorPeriod| period_document(p)),
            ),
    {
        let mut items: Vec<Json> = Vec::new();
        let mut i: usize = 0;
        while i < self.monitor_schedule.len()
            invariant
                i <= self.monitor_schedule@.len(),
                items@.len() == i,
                forall|j: int|
                    0 <= j < i ==> (#[trigger] items@[j])@ == period_document(
                        self.monitor_schedule@[j],
                    ),
            decreases self.monitor_schedule@.len() - i,
        {
            items.push(self.monitor_schedule[i].to_json());
            i = i + 1;
        }
        let r = array(items);
        assert(r@->Array_0 =~= self.monitor_schedule@.map_values(
            |p: MonitorPeriod| period_document(p),
        ));
        r
    }

    /// A configuration as its file writes it.
    pub fn to_json(&self) -> (r: Json)
        ensures
            r@ == config_document(*self),
    {
        let r = object(
            vec![
                member("listen", Json::text(self.listen.as_str())),
                member("api_key", Json::text(self.api_key.as_str())),
                member("admin_password_hash", Json::text(self.admin_password_hash.as_str())),
                member("webhook", Json::text(self.webhook.as_str())),
                member("use_system_proxy", Json::Bool(self.use_system_proxy)),
                member("notify_all_monitors", Json::Bool(self.notify_all_monitors)),
                member("employee_keys", self.employee_keys.copy()),
                member("models", self.models_json()),
                member("monitors", self.monitors_json()),
                member("monitor_schedule", self.schedule_json()),
            ],
        );
        assert(r@->Object_0 =~= config_document(*self)->Object_0);
        r
    }

    /// The revision of a configuration: the fingerprint of its file.
    pub fn digest(&self) -> (r: String)
        ensures
            r@ == fingerprint_of(config_document(*self)),
    {
        fingerprint(&self.to_json())
    }
}

/// A schedule is accepted exactly where it has at most twenty-four periods, each is sound, and
/// no two share a minute of the day.
pub proof fn accepted_schedule(periods: Seq<MonitorPeriod>)
    ensures
        schedule_complaint(periods) is None <==> {
            &&& periods.len() <= 24
            &&& forall|i: int| 0 <= i < periods.len() ==> (#[trigger] periods[i]).sound()
            &&& forall|i: int, j: int|
                0 <= j < i < periods.len() ==> !overlap(#[trigger] periods[j], #[trigger] periods[i])
        },
{
    let check = period_check(periods);
    let n = periods.len() as int;
    if schedule_complaint(periods) is None {
        checks::nothing_complains(n, check);
        assert forall|i: int| 0 <= i < n implies (#[trigger] periods[i]).sound() by {
            assert(check(i) is None);
        }
        assert forall|i: int, j: int| 0 <= j < i < n implies !overlap(
            #[trigger] periods[j],
            #[trigger] periods[i],
        ) by {
            assert(check(i) is None);
            if overlap(periods[j], periods[i]) {
                assert(overlaps_earlier(periods, i));
            }
        }
    }
    if periods.len() <= 24 && (forall|i: int| 0 <= i < n ==> (#[trigger] periods[i]).sound()) && (
    forall|i: int, j: int|
        0 <= j < i < n ==> !overlap(#[trigger] periods[j], #[trigger] periods[i])) {
        checks::no_complaint(n, check);
    }
}

/// Some period of a schedule covers a minute of the day.
pub open spec fn covered(periods: Seq<MonitorPeriod>, minute: int) -> bool {
    exists|i: int| 0 <= i < periods.len() && (#[trigger] periods[i]).covers(minute)
}

/// The schedule in force where none is configured is accepted, and covers every minute.
pub proof fn default_schedule_covers()
    ensures
        schedule_complaint(default_schedule()) is None,
        forall|m: int|
            0 <= m < 1440 ==> #[trigger] covered(default_schedule(), m),
{
    let s = default_schedule();
    accepted_schedule(s);
    assert forall|m: int| 0 <= m < 1440 implies #[trigger] covered(s, m) by {
        assert(s[0].covers(m) || s[1].covers(m) || s[2].covers(m) || s[3].covers(m));
    }
}

/// The identity of a key keeps to its address, upstream model, secret and quota interface:
/// names, labels, identifiers, switches, monitors and the model's name beyond the interface it
/// selects play no part.
pub proof fn identity_ignores_display(
    a: Channel,
    b: Channel,
    model_a: Seq<char>,
    model_b: Seq<char>,
    key_a: Key,
    key_b: Key,
)
    requires
        a.base_url@ == b.base_url@,
        a.upstream_model@ == b.upstream_model@,
        key_a.secret@ == key_b.secret@,
        Adapter::official(model_a, a.adapter) == Adapter::official(model_b, b.adapter),
    ensures
        a.identity_of(model_a, key_a) == b.identity_of(model_b, key_b),
{
}

proof fn labels_differ(a: Adapter, b: Adapter)
    requires
        a.label() == b.label(),
    ensures
        a == b,
{
    reveal_strlit("auto");
    reveal_strlit("new_api");
    reveal_strlit("sub2_api");
    reveal_strlit("subscription");
    reveal_strlit("deepseek");
    reveal_strlit("glm");
    assert("auto"@.len() == 4);
    assert("new_api"@.len() == 7);
    assert("sub2_api"@.len() == 8);
    assert("subscription"@.len() == 12);
    assert("deepseek"@.len() == 8);
    assert("glm"@.len() == 3);
    assert("sub2_api"@[0] == 's' && "deepseek"@[0] == 'd');
}

/// A key document as it is spelled, from its first literal on.
spec fn after_bracket(a: Seq<char>, b: Seq<char>, c: Seq<char>, d: Seq<char>) -> Seq<char> {
    json::quoted(a) + (","@ + (json::quoted(b) + (","@ + (json::quoted(c) + (","@ + (json::quoted(d)
        + "]"@))))))
}

proof fn key_spelling(base_url: Seq<char>, model: Seq<char>, key_secret: Seq<char>, adapter: Adapter)
    ensures
        key_document(base_url, model, key_secret, adapter).spelled() == "["@ + after_bracket(
            base_url,
            model,
            key_secret,
            adapter.label(),
        ),
{
    let doc = key_document(base_url, model, key_secret, adapter);
    let s4 = doc->Array_0;
    let s3 = s4.take(3);
    let s2 = s3.take(2);
    let s1 = s2.take(1);
    assert(JsonView::Text(base_url).spelled() == json::quoted(base_url));
    assert(JsonView::Text(model).spelled() == json::quoted(model));
    assert(JsonView::Text(key_secret).spelled() == json::quoted(key_secret));
    assert(JsonView::Text(adapter.label()).spelled() == json::quoted(adapter.label()));
    assert(s1[0] == JsonView::Text(base_url));
    assert(s2[1] == JsonView::Text(model));
    assert(s3[2] == JsonView::Text(key_secret));
    assert(json::spelled_items(s1) == json::quoted(base_url));
    assert(json::spelled_items(s2) == json::quoted(base_url) + ","@ + json::quoted(model));
    assert(json::spelled_items(s3) == json::spelled_items(s2) + ","@ + json::quoted(key_secret));
    assert(json::spelled_items(s4) == json::spelled_items(s3) + ","@ + json::quoted(
        adapter.label(),
    ));
    assert(doc.spelled() =~= "["@ + after_bracket(base_url, model, key_secret, adapter.label()));
}

proof fn strip(p: Seq<char>, x: Seq<char>, y: Seq<char>)
    requires
        p + x == p + y,
    ensures
        x == y,
{
    assert((p + x).skip(p.len() as int) =~= x);
    assert((p + y).skip(p.len() as int) =~= y);
}

/// The document that a key's identity is the fingerprint of tells keys apart by address, upstream
/// model, secret and quota interface, and by nothing else; so does its spelling.
pub proof fn key_documents_tell_apart(
    a: (Seq<char>, Seq<char>, Seq<char>, Adapter),
    b: (Seq<char>, Seq<char>, Seq<char>, Adapter),
)
    ensures
        key_document(a.0, a.1, a.2, a.3) == key_document(b.0, b.1, b.2, b.3) <==> a == b,
        key_document(a.0, a.1, a.2, a.3).spelled() == key_document(b.0, b.1, b.2, b.3).spelled()
            <==> a == b,
{
    key_spelling(a.0, a.1, a.2, a.3);
    key_spelling(b.0, b.1, b.2, b.3);
    if key_document(a.0, a.1, a.2, a.3).spelled() == key_document(b.0, b.1, b.2, b.3).spelled() {
        let e = a.3.label();
        let g = b.3.label();
        strip(
            "["@,
            after_bracket(a.0, a.1, a.2, e),
            after_bracket(b.0, b.1, b.2, g),
        );
        let x3 = json::quoted(e) + "]"@;
        let y3 = json::quoted(g) + "]"@;
        let x2 = json::quoted(a.2) + (","@ + x3);
        let y2 = json::quoted(b.2) + (","@ + y3);
        let x1 = json::quoted(a.1) + (","@ + x2);
        let y1 = json::quoted(b.1) + (","@ + y2);
        json::literals_are_apart(a.0, b.0, ","@ + x1, ","@ + y1);
        strip(","@, x1, y1);
        json::literals_are_apart(a.1, b.1, ","@ + x2, ","@ + y2);
        strip(","@, x2, y2);
        json::literals_are_apart(a.2, b.2, ","@ + x3, ","@ + y3);
        strip(","@, x3, y3);
        json::literals_are_apart(e, g, "]"@, "]"@);
        labels_differ(a.3, b.3);
    }
}

/// What the identity of a key is the SHA-256 digest of.
pub open spec fn digested(c: Channel, model: Seq<char>, key: Key) -> Seq<u8> {
    encode_utf8(
        key_document(
            c.base_url@,
            c.upstream_model@,
            key.secret@,
            Adapter::official(model, c.adapter),
        ).spelled(),
    )
}

/// SHA-256 does not collide on two sequences of bytes.
pub open spec fn collision_free(x: Seq<u8>, y: Seq<u8>) -> bool {
    secret::sha256(x) == secret::sha256(y) ==> x == y
}

/// Where SHA-256 does not collide on what two keys are told by, the keys have one identity exactly if
/// their address, upstream model, secret and quota interface are the same. Identifiers, names, labels,
/// switches and monitors never matter.
pub proof fn identities_tell_apart(
    a: Channel,
    b: Channel,
    model_a: Seq<char>,
    model_b: Seq<char>,
    key_a: Key,
    key_b: Key,
)
    ensures
        collision_free(digested(a, model_a, key_a), digested(b, model_b, key_b)) ==> (a.identity_of(
            model_a,
            key_a,
        ) == b.identity_of(model_b, key_b) <==> {
            &&& a.base_url@ == b.base_url@
            &&& a.upstream_model@ == b.upstream_model@
            &&& key_a.secret@ == key_b.secret@
            &&& Adapter::official(model_a, a.adapter) == Adapter::official(model_b, b.adapter)
        }),
{
    let p = (
        a.base_url@,
        a.upstream_model@,
        key_a.secret@,
        Adapter::official(model_a, a.adapter),
    );
    let q = (
        b.base_url@,
        b.upstream_model@,
        key_b.secret@,
        Adapter::official(model_b, b.adapter),
    );
    key_documents_tell_apart(p, q);
    let d = key_document(p.0, p.1, p.2, p.3).spelled();
    let e = key_document(q.0, q.1, q.2, q.3).spelled();
    encode_utf8_decode_utf8(d);
    encode_utf8_decode_utf8(e);
}

/// The address of a responses interface is its own.
pub proof fn responses_url_is_stable(base: Seq<char>)
    ensures
        responses_url_of(responses_url_of(base)) == responses_url_of(base),
{
    reveal_strlit("/responses");
    reveal_strlit("/v1/responses");
    let s = text::trimmed_end(base, '/');
    let r = responses_url_of(base);
    assert(text::ends(r, "/responses"@)) by {
        assert(r.skip(r.len() - 10) =~= "/responses"@);
    }
    assert(r.last() == 's') by {
        assert(r.skip(r.len() - 10)[9] == r[r.len() - 1]);
    }
}

impl Config {
    /// The configuration of a router that starts for the first time, where the password could be hashed.
    pub fn first(listen: Option<String>, api_key: String, password: &str) -> (r: Option<Config>)
        ensures
            exists|hash: Option<String>|
                {
                    &&& #[trigger] starts(r, listen, api_key, hash)
                    &&& hash is Some ==> secret::accepts(hash->0@, password@)
                    &&& text::bytes(password@) <= 0xffff_ffff ==> hash is Some
                },
    {
        let hash = secret::password_hash(password);
        Config::first_with(listen, api_key, hash)
    }

    /// The configuration of a router that starts for the first time, given the hash of its password,
    /// where there is one.
    pub fn first_with(listen: Option<String>, api_key: String, hash: Option<String>) -> (r: Option<
        Config,
    >)
        ensures
            starts(r, listen, api_key, hash),
    {
        let admin_password_hash = match hash {
            Some(h) => h,
            None => {
                return None;
            },
        };
        let webhook = String::new();
        assert(webhook@ =~= Seq::<char>::empty());
        let employee_keys = array(Vec::new());
        assert(employee_keys@->Array_0 =~= Seq::empty());
        let c = Config {
            listen: match listen {
                Some(l) => l,
                None => "0.0.0.0:8119".to_owned(),
            },
            api_key,
            admin_password_hash,
            webhook,
            use_system_proxy: false,
            notify_all_monitors: false,
            employee_keys,
            models: Vec::new(),
            monitors: Vec::new(),
            monitor_schedule: default_monitor_schedule(),
        };
        assert(c.models@ =~= Seq::<Model>::empty());
        assert(c.monitors@ =~= Seq::<Monitor>::empty());
        Some(c)
    }

    /// Listens on a port of all addresses.
    pub fn listen_on(&mut self, port: u16)
        ensures
            *final(self) == (Config { listen: final(self).listen, ..*old(self) }),
            final(self).listen@ == "0.0.0.0:"@ + text::decimal(port as nat),
    {
        self.listen = "0.0.0.0:".to_owned().concat(text::number(port as u64).as_str());
    }
}

/// A router starts for the first time with a configuration, exactly where its password was hashed: on
/// the address that was set or the usual one, with its key and the hash, the usual schedule, and nothing
/// else.
pub open spec fn starts(
    r: Option<Config>,
    listen: Option<String>,
    api_key: String,
    hash: Option<String>,
) -> bool {
    match (r, hash) {
        (Some(c), Some(h)) => {
            &&& c.listen@ == (match listen {
                Some(l) => l@,
                None => "0.0.0.0:8119"@,
            })
            &&& c.api_key == api_key
            &&& c.admin_password_hash == h
            &&& c.webhook@ == Seq::<char>::empty()
            &&& !c.use_system_proxy
            &&& !c.notify_all_monitors
            &&& c.employee_keys@ == JsonView::Array(Seq::empty())
            &&& c.models@ == Seq::<Model>::empty()
            &&& c.monitors@ == Seq::<Monitor>::empty()
            &&& c.monitor_schedule@ == default_schedule()
        },
        (None, None) => true,
        _ => false,
    }
}

/// No two keys share an identifier.
pub open spec fn distinct_keys(s: Seq<Key>) -> bool {
    forall|i: int, j: int| 0 <= i < j < s.len() ==> (#[trigger] s[i]).id@ != (#[trigger] s[j]).id@
}

/// No two channels share an identifier.
pub open spec fn distinct_channels(s: Seq<Channel>) -> bool {
    forall|i: int, j: int| 0 <= i < j < s.len() ==> (#[trigger] s[i]).id@ != (#[trigger] s[j]).id@
}

/// No two models share an identifier.
pub open spec fn distinct_models(s: Seq<Model>) -> bool {
    forall|i: int, j: int| 0 <= i < j < s.len() ==> (#[trigger] s[i]).id@ != (#[trigger] s[j]).id@
}

/// No two monitors share an identifier.
pub open spec fn distinct_monitors(s: Seq<Monitor>) -> bool {
    forall|i: int, j: int| 0 <= i < j < s.len() ==> (#[trigger] s[i]).id@ != (#[trigger] s[j]).id@
}

/// A channel can be used: it has names, an address that is one, keys, and a monitor that exists.
pub open spec fn usable(monitors: Seq<Monitor>, c: Channel) -> bool {
    &&& c.id@.len() > 0
    &&& c.name@.len() > 0
    &&& c.upstream_model@.len() > 0
    &&& url_complaint(c.base_url@) is None
    &&& 1 <= c.keys@.len() <= 50
    &&& c.monitor_id is Some ==> has_monitor(monitors, c.monitor_id->0@)
}

/// Channels can be used, and no two of them or of their keys share an identifier.
pub open spec fn orderly(monitors: Seq<Monitor>, s: Seq<Channel>) -> bool {
    &&& distinct_channels(s)
    &&& distinct_keys(all_keys(s))
    &&& forall|i: int| 0 <= i < s.len() ==> usable(monitors, #[trigger] s[i])
}

proof fn keys_stay_distinct(earlier: Seq<Key>, keys: Seq<Key>, n: int)
    requires
        distinct_keys(earlier),
        0 <= n <= keys.len(),
        forall|k: int| 0 <= k < n ==> #[trigger] key_id_check(earlier, keys)(k) is None,
    ensures
        distinct_keys(earlier + keys.take(n)),
    decreases n,
{
    if n == 0 {
        assert(earlier + keys.take(0) =~= earlier);
    } else {
        keys_stay_distinct(earlier, keys, n - 1);
        let before = earlier + keys.take(n - 1);
        let after = earlier + keys.take(n);
        assert(key_id_check(earlier, keys)(n - 1) is None);
        assert(after =~= before.push(keys[n - 1]));
        assert forall|i: int, j: int| 0 <= i < j < after.len() implies (#[trigger] after[i]).id@ != (
        #[trigger] after[j]).id@ by {
            if j == before.len() {
                assert(before[i].id@ != keys[n - 1].id@);
            } else {
                assert(before[i].id@ != before[j].id@);
            }
        }
    }
}

proof fn channel_joins(
    monitors: Seq<Monitor>,
    earlier: Seq<Channel>,
    channels: Seq<Channel>,
    j: int,
)
    requires
        0 <= j < channels.len(),
        orderly(monitors, earlier + channels.take(j)),
        channel_id_check(monitors, earlier, channels)(j) is None,
    ensures
        orderly(monitors, earlier + channels.take(j + 1)),
{
    let before = earlier + channels.take(j);
    let after = earlier + channels.take(j + 1);
    let c = channels[j];
    assert(after =~= before.push(c));
    assert(after.drop_last() =~= before);
    let check = key_id_check(all_keys(before), c.keys@);
    checks::nothing_complains(c.keys@.len() as int, check);
    keys_stay_distinct(all_keys(before), c.keys@, c.keys@.len() as int);
    assert(c.keys@.take(c.keys@.len() as int) =~= c.keys@);
    assert(all_keys(after) == all_keys(before) + c.keys@);
    assert forall|a: int, b: int| 0 <= a < b < after.len() implies (#[trigger] after[a]).id@ != (
    #[trigger] after[b]).id@ by {
        if b == before.len() {
            assert(before[a].id@ != c.id@);
        } else {
            assert(before[a].id@ != before[b].id@);
        }
    }
    assert forall|i: int| 0 <= i < after.len() implies usable(monitors, #[trigger] after[i]) by {
        if i < before.len() {
            assert(usable(monitors, before[i]));
        }
    }
}

proof fn channels_join(monitors: Seq<Monitor>, earlier: Seq<Channel>, channels: Seq<Channel>, n: int)
    requires
        0 <= n <= channels.len(),
        orderly(monitors, earlier),
        forall|j: int|
            0 <= j < n ==> #[trigger] channel_id_check(monitors, earlier, channels)(j) is None,
    ensures
        orderly(monitors, earlier + channels.take(n)),
    decreases n,
{
    if n == 0 {
        assert(earlier + channels.take(0) =~= earlier);
    } else {
        channels_join(monitors, earlier, channels, n - 1);
        assert(channel_id_check(monitors, earlier, channels)(n - 1) is None);
        channel_joins(monitors, earlier, channels, n - 1);
    }
}

proof fn models_join(monitors: Seq<Monitor>, models: Seq<Model>, n: int)
    requires
        0 <= n <= models.len(),
        forall|i: int| 0 <= i < n ==> #[trigger] model_id_check(monitors, models)(i) is None,
    ensures
        orderly(monitors, all_channels(models.take(n))),
        distinct_models(models.take(n)),
        forall|i: int|
            0 <= i < n ==> (#[trigger] models[i]).id@.len() > 0 && models[i].channels@.len() <= 100,
    decreases n,
{
    if n == 0 {
        assert(all_channels(models.take(0)) =~= Seq::empty());
        assert(all_keys(Seq::empty()) =~= Seq::empty());
    } else {
        models_join(monitors, models, n - 1);
        let before = models.take(n - 1);
        let after = models.take(n);
        let m = models[n - 1];
        assert(after.drop_last() =~= before);
        assert(model_id_check(monitors, models)(n - 1) is None);
        let check = channel_id_check(monitors, all_channels(before), m.channels@);
        checks::nothing_complains(m.channels@.len() as int, check);
        channels_join(monitors, all_channels(before), m.channels@, m.channels@.len() as int);
        assert(m.channels@.take(m.channels@.len() as int) =~= m.channels@);
        assert(all_channels(after) == all_channels(before) + m.channels@);
        assert forall|i: int, j: int| 0 <= i < j < after.len() implies (#[trigger] after[i]).id@ != (
        #[trigger] after[j]).id@ by {
            if j == before.len() {
                assert(before[i].id@ != m.id@);
            } else {
                assert(before[i].id@ != before[j].id@);
            }
        }
    }
}

/// In an accepted configuration every identifier stands for one thing, every channel can be used, and
/// numbers are bounded.
pub proof fn accepted_configurations_are_orderly(c: Config, listens: bool)
    requires
        c.complaint(listens) is None,
    ensures
        listens,
        c.api_key@.len() > 0,
        distinct_models(c.models@),
        distinct_monitors(c.monitors@),
        orderly(c.monitors@, all_channels(c.models@)),
        all_channels(c.models@).len() <= 256,
        all_keys(all_channels(c.models@)).len() <= 512,
        c.models@.len() <= 100,
        c.monitors@.len() <= 200,
        schedule_complaint(c.monitor_schedule@) is None,
        c.webhook@.len() > 0 ==> url_complaint(c.webhook@) is None,
{
    let monitors = c.monitors@;
    checks::nothing_complains(monitors.len() as int, monitor_id_check(monitors));
    checks::nothing_complains(c.models@.len() as int, model_id_check(monitors, c.models@));
    models_join(monitors, c.models@, c.models@.len() as int);
    assert(c.models@.take(c.models@.len() as int) =~= c.models@);
    assert forall|i: int, j: int| 0 <= i < j < monitors.len() implies (#[trigger] monitors[i]).id@ != (
    #[trigger] monitors[j]).id@ by {
        assert(monitor_id_check(monitors)(j) is None);
        assert(monitors.take(j)[i] == monitors[i]);
    }
}

impl Config {
    /// An authorization carries the company's key.
    pub open spec fn lets_in(self, authorization: Seq<char>) -> bool {
        authorization == "Bearer "@ + self.api_key@
    }

    /// The client that an authorization stands for, by identifier and name: the company, where it
    /// carries the company's key.
    pub fn authenticate(&self, authorization: &str) -> (r: Option<(String, String)>)
        ensures
            match r {
                Some((id, name)) => self.lets_in(authorization@) && id@ == "company"@ && name@
                    == "公司"@,
                None => !self.lets_in(authorization@),
            },
    {
        let expected = "Bearer ".to_owned().concat(self.api_key.as_str());
        if same(authorization, expected.as_str()) {
            Some(("company".to_owned(), "公司".to_owned()))
        } else {
            None
        }
    }
}

/// An address that can be used: of at most 2048 bytes, by HTTP or HTTPS, without credentials, query or
/// fragment.
pub open spec fn proper_url(raw: Seq<char>) -> bool {
    &&& text::bytes(raw) <= 2048
    &&& url::parts(raw) is Some
    &&& {
        let p = url::parts(raw)->0;
        &&& p.scheme == "http"@ || p.scheme == "https"@
        &&& p.username.len() == 0
        &&& p.password is None
        &&& p.query is None
        &&& p.fragment is None
    }
}

/// A key with an identifier and a secret, none of its fields too long, and no line end in its secret.
pub open spec fn proper_key(k: Key) -> bool {
    &&& 0 < k.id@.len()
    &&& text::bytes(k.id@) <= 128
    &&& text::bytes(k.label@) <= 256
    &&& 0 < k.secret@.len()
    &&& text::bytes(k.secret@) <= 4096
    &&& !k.secret@.contains('\r')
    &&& !k.secret@.contains('\n')
}

/// A channel with an identifier, a name, an upstream model, a usable address, one to fifty proper keys,
/// and a monitor that exists where it has one.
pub open spec fn proper_channel(monitors: Seq<Monitor>, c: Channel) -> bool {
    &&& 0 < c.id@.len()
    &&& text::bytes(c.id@) <= 128
    &&& 0 < c.name@.len()
    &&& text::bytes(c.name@) <= 256
    &&& 0 < c.upstream_model@.len()
    &&& text::bytes(c.upstream_model@) <= 256
    &&& proper_url(c.base_url@)
    &&& 1 <= c.keys@.len() <= 50
    &&& forall|k: int| 0 <= k < c.keys@.len() ==> proper_key(#[trigger] c.keys@[k])
    &&& c.monitor_id is None || exists|i: int|
        0 <= i < monitors.len() && (#[trigger] monitors[i]).id@ == c.monitor_id->0@
}

/// A model with an identifier and at most a hundred channels, all of them proper.
pub open spec fn proper_model(monitors: Seq<Monitor>, m: Model) -> bool {
    &&& 0 < m.id@.len()
    &&& text::bytes(m.id@) <= 256
    &&& m.channels@.len() <= 100
    &&& forall|j: int|
        0 <= j < m.channels@.len() ==> proper_channel(monitors, #[trigger] m.channels@[j])
}

/// A monitor with an identifier, a key, a model and a usable address, none of its fields too long.
pub open spec fn proper_monitor(m: Monitor) -> bool {
    &&& 0 < m.id@.len()
    &&& text::bytes(m.id@) <= 128
    &&& text::bytes(m.name@) <= 256
    &&& 0 < m.key@.len()
    &&& text::bytes(m.key@) <= 4096
    &&& 0 < m.model@.len()
    &&& text::bytes(m.model@) <= 256
    &&& proper_url(m.base_url@)
}

/// A configuration in which everything is proper, every identifier stands for one thing, and nothing is
/// too much.
pub open spec fn proper(c: Config, listens: bool) -> bool {
    let channels = all_channels(c.models@);
    &&& listens
    &&& schedule_complaint(c.monitor_schedule@) is None
    &&& 0 < c.api_key@.len()
    &&& text::bytes(c.api_key@) <= 4096
    &&& text::bytes(c.webhook@) <= 4096
    &&& c.webhook@.len() == 0 || proper_url(c.webhook@)
    &&& c.models@.len() <= 100
    &&& c.monitors@.len() <= 200
    &&& channels.len() <= 256
    &&& all_keys(channels).len() <= 512
    &&& forall|i: int| 0 <= i < c.monitors@.len() ==> proper_monitor(#[trigger] c.monitors@[i])
    &&& forall|i: int|
        0 <= i < c.models@.len() ==> proper_model(c.monitors@, #[trigger] c.models@[i])
    &&& distinct_monitors(c.monitors@)
    &&& distinct_models(c.models@)
    &&& distinct_channels(channels)
    &&& distinct_keys(all_keys(channels))
}

proof fn proper_urls_pass(raw: Seq<char>)
    ensures
        url_complaint(raw) is None <==> proper_url(raw),
{
}

proof fn keys_of_prefix(s: Seq<Channel>, n: int)
    requires
        0 <= n <= s.len(),
    ensures
        all_keys(s.take(n)).len() <= all_keys(s).len(),
        all_keys(s).take(all_keys(s.take(n)).len() as int) == all_keys(s.take(n)),
    decreases s.len(),
{
    if n == s.len() {
        assert(s.take(n) =~= s);
        assert(all_keys(s).take(all_keys(s).len() as int) =~= all_keys(s));
    } else {
        let rest = s.drop_last();
        keys_of_prefix(rest, n);
        assert(rest.take(n) =~= s.take(n));
        let k = all_keys(s.take(n)).len() as int;
        assert(all_keys(s).take(k) =~= all_keys(rest).take(k));
    }
}

proof fn channels_of_prefix(s: Seq<Model>, n: int)
    requires
        0 <= n <= s.len(),
    ensures
        all_channels(s.take(n)).len() <= all_channels(s).len(),
        all_channels(s).take(all_channels(s.take(n)).len() as int) == all_channels(s.take(n)),
    decreases s.len(),
{
    if n == s.len() {
        assert(s.take(n) =~= s);
        assert(all_channels(s).take(all_channels(s).len() as int) =~= all_channels(s));
    } else {
        let rest = s.drop_last();
        channels_of_prefix(rest, n);
        assert(rest.take(n) =~= s.take(n));
        let k = all_channels(s.take(n)).len() as int;
        assert(all_channels(s).take(k) =~= all_channels(rest).take(k));
    }
}

proof fn proper_channels_pass(c: Config, listens: bool, i: int, j: int)
    requires
        proper(c, listens),
        0 <= i < c.models@.len(),
        0 <= j < c.models@[i].channels@.len(),
    ensures
        channel_id_check(c.monitors@, all_channels(c.models@.take(i)), c.models@[i].channels@)(j)
            is None,
        channel_field_check(c.models@[i].channels@)(j) is None,
{
    let models = c.models@;
    let m = models[i];
    let channel = m.channels@[j];
    let all = all_channels(models);
    let earlier = all_channels(models.take(i));
    let before = earlier + m.channels@.take(j);
    assert(proper_model(c.monitors@, m));
    assert(proper_channel(c.monitors@, channel));
    proper_urls_pass(channel.base_url@);
    channels_of_prefix(models, i + 1);
    channels_of_prefix(models, i);
    assert(models.take(i + 1).drop_last() =~= models.take(i));
    let upto = all_channels(models.take(i + 1));
    assert(upto == earlier + m.channels@);
    let at = before.len() as int;
    assert(all[at] == channel) by {
        assert(upto[at] == m.channels@[j]);
        assert(all.take(upto.len() as int)[at] == upto[at]);
    }
    assert(all.take(at) =~= before) by {
        assert forall|k: int| 0 <= k < at implies #[trigger] all[k] == before[k] by {
            assert(all.take(upto.len() as int)[k] == upto[k]);
        }
    }
    assert(!has_channel(before, channel.id@)) by {
        if has_channel(before, channel.id@) {
            let k = choose|k: int| 0 <= k < before.len() && (#[trigger] before[k]).id@ == channel.id@;
            assert(all.take(at)[k] == all[k]);
            assert(all[k].id@ != all[at].id@);
        }
    }
    keys_of_prefix(all, at + 1);
    assert(all.take(at + 1).drop_last() =~= before);
    let keys = all_keys(all);
    let early = all_keys(before);
    assert(all_keys(all.take(at + 1)) == early + channel.keys@);
    let check = key_id_check(early, channel.keys@);
    let fields = key_field_check(channel.keys@);
    assert forall|k: int| 0 <= k < channel.keys@.len() implies #[trigger] check(k) is None by {
        let key = channel.keys@[k];
        assert(proper_key(key));
        let own = early + channel.keys@.take(k);
        if has_key(own, key.id@) {
            let h = choose|h: int| 0 <= h < own.len() && (#[trigger] own[h]).id@ == key.id@;
            let sum = early + channel.keys@;
            assert(keys.take(sum.len() as int) == sum);
            assert(sum[h] == own[h]);
            assert(keys[h] == keys.take(sum.len() as int)[h]);
            let place = early.len() + k;
            assert(keys[place] == keys.take(sum.len() as int)[place]);
            assert(sum[place] == key);
            assert(keys[h].id@ != keys[place].id@);
        }
    }
    assert forall|k: int| 0 <= k < channel.keys@.len() implies #[trigger] fields(k) is None by {
        assert(proper_key(channel.keys@[k]));
    }
    checks::no_complaint(channel.keys@.len() as int, check);
    checks::no_complaint(channel.keys@.len() as int, fields);
}

proof fn proper_configurations_pass(c: Config, listens: bool)
    requires
        proper(c, listens),
    ensures
        c.complaint(listens) is None,
{
    let models = c.models@;
    let monitors = c.monitors@;
    let a = monitor_field_check(monitors);
    let b = model_field_check(models);
    let d = monitor_id_check(monitors);
    let e = model_id_check(monitors, models);
    assert forall|i: int| 0 <= i < monitors.len() implies #[trigger] a(i) is None by {
        assert(proper_monitor(monitors[i]));
    }
    checks::no_complaint(monitors.len() as int, a);
    assert forall|i: int| 0 <= i < monitors.len() implies #[trigger] d(i) is None by {
        assert(proper_monitor(monitors[i]));
        proper_urls_pass(monitors[i].base_url@);
        if has_monitor(monitors.take(i), monitors[i].id@) {
            let k = choose|k: int|
                0 <= k < monitors.take(i).len() && (#[trigger] monitors.take(i)[k]).id@
                    == monitors[i].id@;
            assert(monitors[k].id@ != monitors[i].id@);
        }
    }
    checks::no_complaint(monitors.len() as int, d);
    assert forall|i: int| 0 <= i < models.len() implies #[trigger] b(i) is None by {
        assert(proper_model(monitors, models[i]));
        let inner = channel_field_check(models[i].channels@);
        assert forall|j: int| 0 <= j < models[i].channels@.len() implies #[trigger] inner(j)
            is None by {
            proper_channels_pass(c, listens, i, j);
        }
        checks::no_complaint(models[i].channels@.len() as int, inner);
    }
    checks::no_complaint(models.len() as int, b);
    assert forall|i: int| 0 <= i < models.len() implies #[trigger] e(i) is None by {
        assert(proper_model(monitors, models[i]));
        if has_model(models.take(i), models[i].id@) {
            let k = choose|k: int|
                0 <= k < models.take(i).len() && (#[trigger] models.take(i)[k]).id@
                    == models[i].id@;
            assert(models[k].id@ != models[i].id@);
        }
        let inner = channel_id_check(monitors, all_channels(models.take(i)), models[i].channels@);
        assert forall|j: int| 0 <= j < models[i].channels@.len() implies #[trigger] inner(j)
            is None by {
            proper_channels_pass(c, listens, i, j);
        }
        checks::no_complaint(models[i].channels@.len() as int, inner);
    }
    checks::no_complaint(models.len() as int, e);
    proper_urls_pass(c.webhook@);
}

proof fn accepted_channels_are_proper(c: Config, listens: bool, i: int, j: int)
    requires
        c.complaint(listens) is None,
        0 <= i < c.models@.len(),
        0 <= j < c.models@[i].channels@.len(),
    ensures
        proper_channel(c.monitors@, c.models@[i].channels@[j]),
{
    let models = c.models@;
    let monitors = c.monitors@;
    let m = models[i];
    let channel = m.channels@[j];
    checks::nothing_complains(models.len() as int, model_field_check(models));
    checks::nothing_complains(models.len() as int, model_id_check(monitors, models));
    assert(model_field_check(models)(i) is None);
    assert(model_id_check(monitors, models)(i) is None);
    let fields = channel_field_check(m.channels@);
    let earlier = all_channels(models.take(i));
    let ids = channel_id_check(monitors, earlier, m.channels@);
    checks::nothing_complains(m.channels@.len() as int, fields);
    checks::nothing_complains(m.channels@.len() as int, ids);
    assert(fields(j) is None);
    assert(ids(j) is None);
    proper_urls_pass(channel.base_url@);
    let before = earlier + m.channels@.take(j);
    let kf = key_field_check(channel.keys@);
    let ki = key_id_check(all_keys(before), channel.keys@);
    checks::nothing_complains(channel.keys@.len() as int, kf);
    checks::nothing_complains(channel.keys@.len() as int, ki);
    assert forall|k: int| 0 <= k < channel.keys@.len() implies proper_key(
        #[trigger] channel.keys@[k],
    ) by {
        assert(kf(k) is None);
        assert(ki(k) is None);
    }
}

/// A configuration is accepted exactly where it is proper.
pub proof fn proper_configurations_are_accepted(c: Config, listens: bool)
    ensures
        c.complaint(listens) is None <==> proper(c, listens),
{
    if proper(c, listens) {
        proper_configurations_pass(c, listens);
    }
    if c.complaint(listens) is None {
        accepted_configurations_are_orderly(c, listens);
        let models = c.models@;
        let monitors = c.monitors@;
        checks::nothing_complains(monitors.len() as int, monitor_field_check(monitors));
        checks::nothing_complains(monitors.len() as int, monitor_id_check(monitors));
        checks::nothing_complains(models.len() as int, model_field_check(models));
        checks::nothing_complains(models.len() as int, model_id_check(monitors, models));
        assert forall|i: int| 0 <= i < monitors.len() implies proper_monitor(
            #[trigger] monitors[i],
        ) by {
            assert(monitor_field_check(monitors)(i) is None);
            assert(monitor_id_check(monitors)(i) is None);
            proper_urls_pass(monitors[i].base_url@);
        }
        assert forall|i: int| 0 <= i < models.len() implies proper_model(
            monitors,
            #[trigger] models[i],
        ) by {
            assert(model_field_check(models)(i) is None);
            assert(model_id_check(monitors, models)(i) is None);
            assert forall|j: int| 0 <= j < models[i].channels@.len() implies proper_channel(
                monitors,
                #[trigger] models[i].channels@[j],
            ) by {
                accepted_channels_are_proper(c, listens, i, j);
            }
        }
        proper_urls_pass(c.webhook@);
    }
}

/// A period is sound where both its ends are minutes of a day and its checks one to 1440 minutes apart.
/// Two periods overlap where some minute of the day lies in both; a period whose end does not come
/// after its start runs over midnight.
pub proof fn periods_of_a_day(a: MonitorPeriod, b: MonitorPeriod, minute: int)
    requires
        0 <= minute < 1440,
    ensures
        a.sound() <==> a.start <= 1439 && a.end <= 1439 && 1 <= a.interval_minutes
            && a.interval_minutes <= 1440,
        a.start < a.end ==> (a.covers(minute) <==> a.start <= minute && minute < a.end),
        a.start >= a.end ==> (a.covers(minute) <==> a.start <= minute || minute < a.end),
        a.covers(minute) && b.covers(minute) ==> overlap(a, b),
        a.start < a.end && b.start < b.end && (a.end <= b.start || b.end <= a.start) ==> !overlap(
            a,
            b,
        ),
        !a.sound() ==> schedule_complaint(seq![a]) is Some,
        a.sound() ==> schedule_complaint(seq![a]) is None,
{
    accepted_schedule(seq![a]);
    assert(seq![a][0] == a);
}

/// The root of an address is what stands before its version and its interface, however many slashes
/// follow.
pub proof fn roots_are_found(r: Seq<char>)
    ensures
        root_of(r + "/v1"@) == r,
        root_of(r + "/v1/responses"@) == r,
        root_of(r + "/"@) == root_of(r),
        r.len() > 0 && r.last() != '/' && !text::ends(r, "/responses"@) && !text::ends(r, "/v1"@)
            ==> root_of(r) == r,
{
    reveal_strlit("/v1");
    reveal_strlit("/");
    reveal_strlit("/responses");
    reveal_strlit("/v1/responses");
    let a = r + "/v1"@;
    assert(a.last() == '1');
    assert(text::trimmed_end(a, '/') == a);
    assert(!text::ends(a, "/responses"@)) by {
        if text::ends(a, "/responses"@) {
            assert(a.skip(a.len() - 10)[9] == a.last());
            assert("/responses"@[9] == 's');
        }
    }
    assert(a.skip(a.len() - 3) =~= "/v1"@);
    assert(a.take(a.len() - 3) =~= r);
    let b = r + "/v1/responses"@;
    assert(b.last() == 's');
    assert(text::trimmed_end(b, '/') == b);
    assert(b.skip(b.len() - 10) =~= "/responses"@);
    assert(b.take(b.len() - 10) =~= a);
    let c = r + "/"@;
    assert(c.last() == '/');
    assert(c.drop_last() =~= r);
}

/// Responses are asked for where the address leads to its interface already; under `/v1/responses` of a
/// bare host, and under `/responses` of every other address. Slashes at the end make no difference.
pub proof fn responses_have_their_path(base: Seq<char>)
    ensures
        text::ends(responses_url_of(base), "/responses"@),
        responses_url_of(base + "/"@) == responses_url_of(base),
        base.len() > 0 && base.last() != '/' ==> ({
            let u = responses_url_of(base);
            &&& text::ends(base, "/responses"@) ==> u == base
            &&& !text::ends(base, "/responses"@) && url::parts(base) is Some && (url::parts(
                base,
            )->0.path == "/"@ || url::parts(base)->0.path.len() == 0) ==> u == base
                + "/v1/responses"@
            &&& !text::ends(base, "/responses"@) && (url::parts(base) is None || url::parts(
                base,
            )->0.path != "/"@ && url::parts(base)->0.path.len() > 0) ==> u == base + "/responses"@
        }),
{
    reveal_strlit("/");
    reveal_strlit("/responses");
    reveal_strlit("/v1/responses");
    let r = responses_url_of(base);
    assert(text::ends(r, "/responses"@)) by {
        assert(r.skip(r.len() - 10) =~= "/responses"@);
    }
    let c = base + "/"@;
    assert(c.last() == '/');
    assert(c.drop_last() =~= base);
}

/// A client is let in by the word `Bearer`, a space and the company's key, and by nothing else.
pub proof fn only_the_key_lets_in(c: Config, authorization: Seq<char>)
    ensures
        c.lets_in(authorization) <==> authorization.len() == 7 + c.api_key@.len()
            && authorization.take(7) == "Bearer "@ && authorization.skip(7) == c.api_key@,
{
    reveal_strlit("Bearer ");
    let whole = "Bearer "@ + c.api_key@;
    if c.lets_in(authorization) {
        assert(authorization.take(7) =~= "Bearer "@);
        assert(authorization.skip(7) =~= c.api_key@);
    }
    if authorization.len() == 7 + c.api_key@.len() && authorization.take(7) == "Bearer "@
        && authorization.skip(7) == c.api_key@ {
        assert(authorization =~= authorization.take(7) + authorization.skip(7));
    }
}

/// Monitored upstreams are told apart by their address, model and key: their names and identifiers play
/// no part.
pub proof fn monitors_are_told_apart(a: Monitor, b: Monitor)
    ensures
        a.base_url@ == b.base_url@ && a.model@ == b.model@ && a.key@ == b.key@ ==> a.identity_of()
            == b.identity_of(),
        a.identity_of() == secret::sha256(
            encode_utf8(
                JsonView::Array(
                    seq![
                        JsonView::Text(a.base_url@),
                        JsonView::Text(a.model@),
                        JsonView::Text(a.key@),
                    ],
                ).spelled(),
            ),
        ),
{
}

proof fn names_of_settings_differ()
    ensures
        forall|i: int, j: int|
            0 <= i < j < 10 ==> #[trigger] setting_names()[i] != #[trigger] setting_names()[j],
{
    reveal_strlit("listen");
    reveal_strlit("api_key");
    reveal_strlit("admin_password_hash");
    reveal_strlit("webhook");
    reveal_strlit("use_system_proxy");
    reveal_strlit("notify_all_monitors");
    reveal_strlit("employee_keys");
    reveal_strlit("models");
    reveal_strlit("monitors");
    reveal_strlit("monitor_schedule");
    let n = setting_names();
    assert(n[0].len() == 6 && n[0][0] == 'l');
    assert(n[1].len() == 7 && n[1][0] == 'a');
    assert(n[2].len() == 19 && n[2][0] == 'a');
    assert(n[3].len() == 7 && n[3][0] == 'w');
    assert(n[4].len() == 16 && n[4][0] == 'u');
    assert(n[5].len() == 19 && n[5][0] == 'n');
    assert(n[6].len() == 13);
    assert(n[7].len() == 6 && n[7][0] == 'm');
    assert(n[8].len() == 8);
    assert(n[9].len() == 16 && n[9][0] == 'm');
}

/// The names under which a configuration's file holds its settings.
pub open spec fn setting_names() -> Seq<Seq<char>> {
    seq![
        "listen"@,
        "api_key"@,
        "admin_password_hash"@,
        "webhook"@,
        "use_system_proxy"@,
        "notify_all_monitors"@,
        "employee_keys"@,
        "models"@,
        "monitors"@,
        "monitor_schedule"@,
    ]
}

/// A configuration's file holds all of its settings, each under its name, and nothing else.
pub proof fn files_hold_all_settings(c: Config)
    ensures
        ({
            let v = config_document(c);
            &&& v.at("listen"@) == JsonView::Text(c.listen@)
            &&& v.at("api_key"@) == JsonView::Text(c.api_key@)
            &&& v.at("admin_password_hash"@) == JsonView::Text(c.admin_password_hash@)
            &&& v.at("webhook"@) == JsonView::Text(c.webhook@)
            &&& v.at("use_system_proxy"@) == JsonView::Bool(c.use_system_proxy)
            &&& v.at("notify_all_monitors"@) == JsonView::Bool(c.notify_all_monitors)
            &&& v.at("employee_keys"@) == c.employee_keys@
            &&& v.at("models"@) is Array && v.at("models"@)->Array_0.len() == c.models@.len()
            &&& v.at("monitors"@) is Array && v.at("monitors"@)->Array_0.len() == c.monitors@.len()
            &&& v.at("monitor_schedule"@) is Array && v.at("monitor_schedule"@)->Array_0.len()
                == c.monitor_schedule@.len()
            &&& v->Object_0.len() == 10
        }),
        forall|i: int|
            0 <= i < c.models@.len() ==> (config_document(c).at("models"@)->Array_0)[i]
                == model_document(#[trigger] c.models@[i]),
        forall|i: int|
            0 <= i < c.monitors@.len() ==> (config_document(c).at("monitors"@)->Array_0)[i]
                == monitor_document(#[trigger] c.monitors@[i]),
        forall|i: int|
            0 <= i < c.monitor_schedule@.len() ==> (config_document(c).at(
                "monitor_schedule"@,
            )->Array_0)[i] == period_document(#[trigger] c.monitor_schedule@[i]),
{
    names_of_settings_differ();
    let o = config_document(c)->Object_0;
    let n = setting_names();
    assert(o.len() == 10);
    assert forall|i: int| 0 <= i < 10 implies json::lookup(o, #[trigger] n[i]) == Some(o[i].1) by {
        assert forall|j: int| 0 <= j < i implies (#[trigger] o[j]).0 != n[i] by {
            assert(o[j].0 == n[j]);
        }
        assert(o[i].0 == n[i]);
        json::members_are_found(o, i, n[i]);
    }
    assert(json::lookup(o, n[0]) == Some(o[0].1));
    assert(json::lookup(o, n[1]) == Some(o[1].1));
    assert(json::lookup(o, n[2]) == Some(o[2].1));
    assert(json::lookup(o, n[3]) == Some(o[3].1));
    assert(json::lookup(o, n[4]) == Some(o[4].1));
    assert(json::lookup(o, n[5]) == Some(o[5].1));
    assert(json::lookup(o, n[6]) == Some(o[6].1));
    assert(json::lookup(o, n[7]) == Some(o[7].1));
    assert(json::lookup(o, n[8]) == Some(o[8].1));
    assert(json::lookup(o, n[9]) == Some(o[9].1));
}

/// A channel is written with all that is configured of it, each under its name, its keys in order.
pub proof fn files_hold_whole_channels(c: Channel, k: int)
    requires
        0 <= k < c.keys@.len(),
    ensures
        ({
            let v = channel_document(c);
            &&& v.at("id"@) == JsonView::Text(c.id@)
            &&& v.at("name"@) == JsonView::Text(c.name@)
            &&& v.at("base_url"@) == JsonView::Text(c.base_url@)
            &&& v.at("upstream_model"@) == JsonView::Text(c.upstream_model@)
            &&& v.at("adapter"@) == JsonView::Text(c.adapter.label())
            &&& v.at("enabled"@) == JsonView::Bool(c.enabled)
            &&& c.monitor_id is Some ==> v.at("monitor_id"@) == JsonView::Text(c.monitor_id->0@)
            &&& c.monitor_id is None ==> v.at("monitor_id"@) == JsonView::Null
            &&& v.at("keys"@) is Array && v.at("keys"@)->Array_0.len() == c.keys@.len()
            &&& (v.at("keys"@)->Array_0)[k].at("id"@) == JsonView::Text(c.keys@[k].id@)
            &&& (v.at("keys"@)->Array_0)[k].at("label"@) == JsonView::Text(c.keys@[k].label@)
            &&& (v.at("keys"@)->Array_0)[k].at("secret"@) == JsonView::Text(c.keys@[k].secret@)
            &&& (v.at("keys"@)->Array_0)[k].at("enabled"@) == JsonView::Bool(c.keys@[k].enabled)
        }),
{
    reveal_strlit("id");
    reveal_strlit("name");
    reveal_strlit("base_url");
    reveal_strlit("upstream_model");
    reveal_strlit("adapter");
    reveal_strlit("enabled");
    reveal_strlit("monitor_id");
    reveal_strlit("keys");
    reveal_strlit("label");
    reveal_strlit("secret");
    assert("id"@.len() == 2);
    assert("name"@.len() == 4 && "name"@[0] == 'n');
    assert("base_url"@.len() == 8);
    assert("upstream_model"@.len() == 14);
    assert("adapter"@.len() == 7 && "adapter"@[0] == 'a');
    assert("enabled"@.len() == 7 && "enabled"@[0] == 'e');
    assert("monitor_id"@.len() == 10);
    assert("keys"@.len() == 4 && "keys"@[0] == 'k');
    assert("label"@.len() == 5);
    assert("secret"@.len() == 6);
    let o = channel_document(c)->Object_0;
    json::members_are_found(o, 0, "id"@);
    json::members_are_found(o, 1, "name"@);
    json::members_are_found(o, 2, "base_url"@);
    json::members_are_found(o, 3, "upstream_model"@);
    json::members_are_found(o, 4, "adapter"@);
    json::members_are_found(o, 5, "enabled"@);
    json::members_are_found(o, 6, "monitor_id"@);
    json::members_are_found(o, 7, "keys"@);
    let e = key_member(c.keys@[k])->Object_0;
    json::members_are_found(e, 0, "enabled"@);
    json::members_are_found(e, 1, "id"@);
    json::members_are_found(e, 2, "label"@);
    json::members_are_found(e, 3, "secret"@);
}

/// Models, monitors and periods are written with all that is configured of them.
pub proof fn files_hold_the_rest(m: Model, w: Monitor, p: MonitorPeriod, i: int)
    requires
        0 <= i < m.channels@.len(),
    ensures
        model_document(m).at("id"@) == JsonView::Text(m.id@),
        model_document(m).at("channels"@) is Array,
        model_document(m).at("channels"@)->Array_0.len() == m.channels@.len(),
        (model_document(m).at("channels"@)->Array_0)[i] == channel_document(m.channels@[i]),
        monitor_document(w).at("id"@) == JsonView::Text(w.id@),
        monitor_document(w).at("name"@) == JsonView::Text(w.name@),
        monitor_document(w).at("base_url"@) == JsonView::Text(w.base_url@),
        monitor_document(w).at("key"@) == JsonView::Text(w.key@),
        monitor_document(w).at("model"@) == JsonView::Text(w.model@),
        period_document(p).at("start"@).as_uint() == Some(p.start as u64),
        period_document(p).at("end"@).as_uint() == Some(p.end as u64),
        period_document(p).at("interval_minutes"@).as_uint() == Some(p.interval_minutes as u64),
{
    reveal_strlit("id");
    reveal_strlit("channels");
    reveal_strlit("name");
    reveal_strlit("base_url");
    reveal_strlit("key");
    reveal_strlit("model");
    reveal_strlit("start");
    reveal_strlit("end");
    reveal_strlit("interval_minutes");
    assert("id"@.len() == 2 && "channels"@.len() == 8 && "name"@.len() == 4 && "base_url"@.len() == 8);
    assert("key"@.len() == 3 && "model"@.len() == 5 && "start"@.len() == 5 && "end"@.len() == 3);
    assert("interval_minutes"@.len() == 16);
    json::members_are_found(model_document(m)->Object_0, 0, "id"@);
    json::members_are_found(model_document(m)->Object_0, 1, "channels"@);
    let o = monitor_document(w)->Object_0;
    json::members_are_found(o, 0, "id"@);
    json::members_are_found(o, 1, "name"@);
    json::members_are_found(o, 2, "base_url"@);
    json::members_are_found(o, 3, "key"@);
    json::members_are_found(o, 4, "model"@);
    let e = period_document(p)->Object_0;
    json::members_are_found(e, 0, "start"@);
    json::members_are_found(e, 1, "end"@);
    json::members_are_found(e, 2, "interval_minutes"@);
}

/// What an operator reads of an address, a schedule and the settings of a configuration, the schedule
/// before the rest.
pub proof fn complaints_name_the_fault(c: Config, listens: bool, raw: Seq<char>, p: MonitorPeriod)
    ensures
        text::bytes(raw) > 2048 ==> url_complaint(raw) == Some("URL过长"@),
        text::bytes(raw) <= 2048 && url::parts(raw) is None ==> url_complaint(raw) == Some(
            "URL 无效"@,
        ),
        text::bytes(raw) <= 2048 && url::parts(raw) is Some && !proper_url(raw) ==> url_complaint(raw)
            == Some("URL 格式不支持"@),
        c.monitor_schedule@.len() > 24 ==> c.complaint(listens) == Some("最多24个检测时间段"@),
        !p.sound() ==> schedule_complaint(seq![p]) == Some("时间范围或检测间隔无效（1–1440分钟）"@),
        p.sound() ==> schedule_complaint(seq![p, p]) == Some("检测时间段不能重叠"@),
        schedule_complaint(c.monitor_schedule@) is None ==> {
            &&& c.api_key@.len() == 0 ==> c.complaint(listens) == Some("公司 API Key 不能为空"@)
            &&& c.api_key@.len() > 0 && (c.models@.len() > 100 || c.monitors@.len() > 200)
                ==> c.complaint(listens) == Some("配置数量超限"@)
            &&& c.api_key@.len() > 0 && c.models@.len() <= 100 && c.monitors@.len() <= 200 && (
            text::bytes(c.api_key@) > 4096 || text::bytes(c.webhook@) > 4096) ==> c.complaint(listens)
                == Some("设置字段过长"@)
            &&& c.api_key@.len() > 0 && c.models@.len() <= 100 && c.monitors@.len() <= 200
                && text::bytes(c.api_key@) <= 4096 && text::bytes(c.webhook@) <= 4096 && !listens
                ==> c.complaint(listens) == Some("监听地址必须为IP:端口"@)
        },
{
    let one = seq![p];
    let two = seq![p, p];
    reveal_with_fuel(checks::first_complaint, 3);
    assert(one[0] == p && two[0] == p && two[1] == p);
    if p.sound() {
        assert(p.covers(p.start as int));
        assert(overlap(two[0], two[1]));
        assert(overlaps_earlier(two, 1));
        assert(!overlaps_earlier(two, 0));
    }
}

/// A router starts for the first time exactly where its password was hashed, and then open to every
/// address on port 8119 unless another was set, with nothing configured but its key and its password.
pub proof fn routers_start_bare(
    r: Option<Config>,
    listen: Option<String>,
    api_key: String,
    hash: Option<String>,
)
    requires
        starts(r, listen, api_key, hash),
    ensures
        r is Some <==> hash is Some,
        r is Some ==> {
            let c = r->0;
            &&& listen is None ==> c.listen@ == "0.0.0.0:8119"@
            &&& listen is Some ==> c.listen@ == listen->0@
            &&& c.api_key@ == api_key@
            &&& c.admin_password_hash@ == hash->0@
            &&& c.models@.len() == 0 && c.monitors@.len() == 0 && c.webhook@.len() == 0
            &&& !c.use_system_proxy && !c.notify_all_monitors
            &&& schedule_complaint(c.monitor_schedule@) is None
        },
{
    default_schedule_covers();
}

} // verus!
