//! Quota interfaces of upstream platforms.
use crate::clock;
use crate::json;
use crate::json::{at, bool_of, int_of, items_of, str_of, uint_of, Json, JsonView};
use crate::text;
use crate::text::same;
use vstd::prelude::*;
use vstd::string::*;

verus! {

/// The kind of quota interface that an upstream offers.
#[derive(Clone, Copy, Debug, PartialEq, Eq, Structural)]
pub enum Adapter {
    Auto,
    NewApi,
    Sub2Api,
    Subscription,
    Deepseek,
    Glm,
}

impl Adapter {
    /// The adapter's name in configuration files.
    pub open spec fn label(self) -> Seq<char> {
        match self {
            Adapter::Auto => "auto"@,
            Adapter::NewApi => "new_api"@,
            Adapter::Sub2Api => "sub2_api"@,
            Adapter::Subscription => "subscription"@,
            Adapter::Deepseek => "deepseek"@,
            Adapter::Glm => "glm"@,
        }
    }

    /// The adapter's name in configuration files.
    pub fn name(&self) -> (r: &'static str)
        ensures
            r@ == self.label(),
    {
        match self {
            Adapter::Auto => "auto",
            Adapter::NewApi => "new_api",
            Adapter::Sub2Api => "sub2_api",
            Adapter::Subscription => "subscription",
            Adapter::Deepseek => "deepseek",
            Adapter::Glm => "glm",
        }
    }

    /// The adapter in force for a model: the official interfaces of two families of models
    /// come before what was configured.
    pub open spec fn official(model: Seq<char>, configured: Adapter) -> Adapter {
        let m = text::lowered(model);
        if text::contained(m, "deepseek"@) {
            Adapter::Deepseek
        } else if text::contained(m, "glm"@) {
            Adapter::Glm
        } else {
            configured
        }
    }

    /// The adapter in force for a model: the official interfaces of two families of models
    /// come before what was configured.
    pub fn for_model(model: &str, configured: Self) -> (r: Self)
        ensures
            r == Self::official(model@, configured),
    {
        let m = text::to_ascii_lowercase(model);
        if text::contains(m.as_str(), "deepseek") {
            Adapter::Deepseek
        } else if text::contains(m.as_str(), "glm") {
            Adapter::Glm
        } else {
            configured
        }
    }
}

/// A finite number in double precision, by its IEEE 754 bits, as a place in the order of all such
/// numbers: negative ones below zero, both zeros at zero.
pub open spec fn rank(bits: u64) -> int {
    if bits < 0x8000_0000_0000_0000 {
        bits as int
    } else {
        0x8000_0000_0000_0000 - bits
    }
}

/// The bits of a hundred in double precision.
pub const HUNDRED: u64 = 0x4059_0000_0000_0000;

/// Whether one number comes before another or equals it.
pub fn at_most(a: u64, b: u64) -> (r: bool)
    ensures
        r == (rank(a) <= rank(b)),
{
    let limit: u64 = 0x8000_0000_0000_0000;
    if a < limit {
        if b < limit {
            a <= b
        } else {
            a == 0 && b == limit
        }
    } else if b < limit {
        true
    } else {
        b <= a
    }
}

/// A quantity in double precision, by the bits of the numbers that it is computed from.
pub enum Amount {
    Exact(u64),
    /// The sum of several, added in order.
    Total(Vec<u64>),
    /// What a number lacks to a hundred.
    ShortOfHundred(u64),
}

/// The mathematical model of [`Amount`].
pub enum AmountView {
    Exact(u64),
    Total(Seq<u64>),
    ShortOfHundred(u64),
}

impl View for Amount {
    type V = AmountView;

    open spec fn view(&self) -> AmountView {
        match self {
            Amount::Exact(n) => AmountView::Exact(*n),
            Amount::Total(s) => AmountView::Total(s@),
            Amount::ShortOfHundred(n) => AmountView::ShortOfHundred(*n),
        }
    }
}

/// The model of an amount, where there is one.
pub open spec fn opt_amount(a: Option<Amount>) -> Option<AmountView> {
    match a {
        Some(a) => Some(a@),
        None => None,
    }
}

/// What is left of a quota.
pub struct Allowance {
    pub remaining: Option<Amount>,
    pub expires_at: Option<i64>,
    pub unit: String,
    pub unlimited: bool,
    pub exhausted: bool,
    pub windows: Vec<Window>,
}

/// A period with a quota of its own.
pub struct Window {
    pub label: String,
    pub remaining_percent: Option<Amount>,
    pub resets_at: Option<String>,
}

/// The mathematical model of [`Allowance`].
pub struct AllowanceView {
    pub remaining: Option<AmountView>,
    pub expires_at: Option<i64>,
    pub unit: Seq<char>,
    pub unlimited: bool,
    pub exhausted: bool,
    pub windows: Seq<WindowView>,
}

/// The mathematical model of [`Window`].
pub struct WindowView {
    pub label: Seq<char>,
    pub remaining_percent: Option<AmountView>,
    pub resets_at: Option<Seq<char>>,
}

impl View for Window {
    type V = WindowView;

    open spec fn view(&self) -> WindowView {
        WindowView {
            label: self.label@,
            remaining_percent: opt_amount(self.remaining_percent),
            resets_at: text::opt_view(self.resets_at),
        }
    }
}

/// The models of several windows.
pub open spec fn window_views(s: Seq<Window>) -> Seq<WindowView> {
    s.map_values(|w: Window| w@)
}

impl View for Allowance {
    type V = AllowanceView;

    open spec fn view(&self) -> AllowanceView {
        AllowanceView {
            remaining: opt_amount(self.remaining),
            expires_at: self.expires_at,
            unit: self.unit@,
            unlimited: self.unlimited,
            exhausted: self.exhausted,
            windows: window_views(self.windows@),
        }
    }
}

impl AllowanceView {
    /// Nothing known yet.
    pub open spec fn blank() -> AllowanceView {
        AllowanceView {
            remaining: None,
            expires_at: None,
            unit: Seq::empty(),
            unlimited: false,
            exhausted: false,
            windows: Seq::empty(),
        }
    }

    /// Nothing is left to use at a time.
    pub open spec fn spent(self, now: int) -> bool {
        self.exhausted || match self.expires_at {
            Some(t) => t <= now,
            None => false,
        }
    }
}

impl Default for Allowance {
    fn default() -> (r: Self)
        ensures
            r@ == AllowanceView::blank(),
    {
        let r = Allowance {
            remaining: None,
            expires_at: None,
            unit: String::new(),
            unlimited: false,
            exhausted: false,
            windows: Vec::new(),
        };
        assert(r@.unit =~= Seq::empty());
        assert(r@.windows =~= Seq::empty());
        r
    }
}

impl Allowance {
    /// Whether nothing is left to use at a time.
    pub fn unavailable(&self, now: i64) -> (r: bool)
        ensures
            r == self@.spent(now as int),
    {
        self.exhausted || match self.expires_at {
            Some(t) => t <= now,
            None => false,
        }
    }
}

/// The bits of the finite number that a text writes in double precision.
pub uninterp spec fn double_of(s: Seq<char>) -> Option<u64>;

/// `str::parse` reads a number in double precision, or fails, as the text alone decides;
/// `serde_json::Number::from_f64` holds it where it is finite.
#[verifier::external_body]
fn parse_double(s: &str) -> (r: Option<u64>)
    ensures
        r == double_of(s@),
{
    serde_json::Number::from_f64(s.parse().ok()?)?.as_f64().map(|x| x.to_bits())
}

/// The finite number that a value holds or, as a text, writes.
pub open spec fn number_of(v: JsonView) -> Option<u64> {
    match v {
        JsonView::Number(n) => n.double,
        JsonView::Text(s) => double_of(s),
        _ => None,
    }
}

/// The finite number that a value holds or, as a text, writes.
pub fn number(v: Option<&Json>) -> (r: Option<u64>)
    ensures
        r == number_of(json::seen(v)),
{
    match v {
        Some(Json::Number(n)) => n.double,
        Some(Json::Text(s)) => parse_double(s),
        _ => None,
    }
}

/// A value is a given text.
pub open spec fn is_text(v: JsonView, t: Seq<char>) -> bool {
    v.as_str() == Some(t)
}

fn reads(v: Option<&Json>, t: &str) -> (r: bool)
    ensures
        r == is_text(json::seen(v), t@),
{
    match str_of(v) {
        Some(s) => same(s, t),
        None => false,
    }
}

/// What a platform with token quotas reports.
pub open spec fn new_api_quota(v: JsonView) -> Result<AllowanceView, Seq<char>> {
    let d = v.at("data"@);
    match (d.at("unlimited_quota"@).as_bool(), number_of(d.at("total_available"@))) {
        (None, _) => Err("missing unlimited_quota"@),
        (_, None) => Err("missing token quota"@),
        (Some(unlimited), Some(remaining)) => Ok(
            AllowanceView {
                unlimited,
                remaining: if unlimited {
                    None
                } else {
                    Some(AmountView::Exact(remaining))
                },
                unit: "quota"@,
                expires_at: match d.at("expires_at"@).as_int() {
                    Some(t) => if t > 0 {
                        Some(t)
                    } else {
                        None
                    },
                    None => None,
                },
                exhausted: !unlimited && rank(remaining) <= 0,
                ..AllowanceView::blank()
            },
        ),
    }
}

fn new_api(v: &Json) -> (r: Result<Allowance, &'static str>)
    ensures
        reported(r, new_api_quota(v@)),
{
    let d = at(Some(v), "data");
    let unlimited = match bool_of(at(d, "unlimited_quota")) {
        Some(b) => b,
        None => {
            return Err("missing unlimited_quota");
        },
    };
    let remaining = match number(at(d, "total_available")) {
        Some(n) => n,
        None => {
            return Err("missing token quota");
        },
    };
    let mut a = Allowance::default();
    a.unlimited = unlimited;
    a.remaining = if unlimited {
        None
    } else {
        Some(Amount::Exact(remaining))
    };
    // A deployment's currency conversion is never assumed.
    a.unit = "quota".to_owned();
    a.expires_at = match int_of(at(d, "expires_at")) {
        Some(t) => if t > 0 {
            Some(t)
        } else {
            None
        },
        None => None,
    };
    a.exhausted = !unlimited && at_most(remaining, 0);
    Ok(a)
}

/// A result is the one that was described.
pub open spec fn reported(
    r: Result<Allowance, &'static str>,
    expected: Result<AllowanceView, Seq<char>>,
) -> bool {
    match r {
        Ok(a) => expected == Ok::<AllowanceView, Seq<char>>(a@),
        Err(e) => expected == Err::<AllowanceView, Seq<char>>(e@),
    }
}

/// Some limit of an object of limits is used up.
pub open spec fn some_limit_spent(v: JsonView) -> bool {
    match v {
        JsonView::Object(o) => some_member_spent(o),
        _ => false,
    }
}

/// Some limit among several is used up.
pub open spec fn some_member_spent(o: Seq<(Seq<char>, JsonView)>) -> bool {
    exists|i: int| 0 <= i < o.len() && #[trigger] spent_limit(o[i].1)
}

/// A limit is used up.
pub open spec fn spent_limit(limit: JsonView) -> bool {
    match number_of(limit.at("remaining"@)) {
        Some(n) => rank(n) <= 0,
        None => false,
    }
}

fn limit_spent(v: Option<&Json>) -> (r: bool)
    ensures
        r == some_limit_spent(json::seen(v)),
{
    match v {
        Some(j) => {
            proof {
                json::composite(*j);
            }
            match j {
                Json::Object(o) => member_spent(o),
                _ => false,
            }
        },
        None => false,
    }
}

fn member_spent(o: &Vec<(String, Json)>) -> (r: bool)
    ensures
        r == some_member_spent(json::all_members(o@)),
{
    let ghost views = json::all_members(o@);
    let mut i: usize = 0;
    while i < o.len()
        invariant
            i <= o@.len(),
            views == json::all_members(o@),
            views.len() == o@.len(),
            forall|k: int| 0 <= k < i ==> !#[trigger] spent_limit(views[k].1),
        decreases o@.len() - i,
    {
        assert(views[i as int].1 == o@[i as int].1@);
        match number(at(Some(&o[i].1), "remaining")) {
            Some(n) => {
                if at_most(n, 0) {
                    assert(spent_limit(views[i as int].1));
                    return true;
                }
            },
            None => {},
        }
        i = i + 1;
    }
    false
}

/// What a platform with wallets and keys reports: the smaller of both is what is left.
pub open spec fn sub2_api_quota(v: JsonView) -> Result<AllowanceView, Seq<char>> {
    if v.at("mode"@).as_str() is None {
        Err("missing usage mode"@)
    } else {
        match number_of(v.at("remaining"@)) {
            None => Err("missing remaining"@),
            Some(remaining) => {
                let left = match number_of(v.at("balance"@)) {
                    Some(wallet) => if rank(wallet) <= rank(remaining) {
                        wallet
                    } else {
                        remaining
                    },
                    None => remaining,
                };
                Ok(
                    AllowanceView {
                        remaining: Some(AmountView::Exact(left)),
                        unit: match v.at("unit"@).as_str() {
                            Some(u) => u,
                            None => "USD"@,
                        },
                        exhausted: rank(left) <= 0 || some_limit_spent(v.at("rate_limits"@)),
                        expires_at: match expiry_of(v.at("subscription"@)) {
                            Some(t) => Some(t.0),
                            None => None,
                        },
                        ..AllowanceView::blank()
                    },
                )
            },
        }
    }
}

/// The time at which a subscription ends, where it says so.
pub open spec fn expiry_of(v: JsonView) -> Option<(i64, u32)> {
    match v.at("expires_at"@).as_str() {
        Some(s) => clock::rfc3339(s),
        None => None,
    }
}

fn expiry(v: Option<&Json>) -> (r: Option<(i64, u32)>)
    ensures
        r == expiry_of(json::seen(v)),
{
    match str_of(at(v, "expires_at")) {
        Some(s) => clock::parse_rfc3339(s),
        None => None,
    }
}

fn sub2_api(v: &Json) -> (r: Result<Allowance, &'static str>)
    ensures
        reported(r, sub2_api_quota(v@)),
{
    if str_of(at(Some(v), "mode")).is_none() {
        return Err("missing usage mode");
    }
    let remaining = match number(at(Some(v), "remaining")) {
        Some(n) => n,
        None => {
            return Err("missing remaining");
        },
    };
    let left = match number(at(Some(v), "balance")) {
        Some(wallet) => if at_most(wallet, remaining) {
            wallet
        } else {
            remaining
        },
        None => remaining,
    };
    let mut a = Allowance::default();
    a.remaining = Some(Amount::Exact(left));
    a.unit = match str_of(at(Some(v), "unit")) {
        Some(u) => u.clone(),
        None => "USD".to_owned(),
    };
    a.exhausted = at_most(left, 0) || limit_spent(at(Some(v), "rate_limits"));
    a.expires_at = match expiry(at(Some(v), "subscription")) {
        Some(t) => Some(t.0),
        None => None,
    };
    Ok(a)
}

/// The first balance in CNY among several.
pub open spec fn first_cny(s: Seq<JsonView>) -> Option<JsonView>
    decreases s.len(),
{
    if s.len() == 0 {
        None
    } else {
        match first_cny(s.drop_last()) {
            Some(e) => Some(e),
            None => if is_text(s.last().at("currency"@), "CNY"@) {
                Some(s.last())
            } else {
                None
            },
        }
    }
}

/// What DeepSeek reports: the balance in CNY, or else the first.
pub open spec fn deepseek_quota(v: JsonView) -> Result<AllowanceView, Seq<char>> {
    match (v.at("is_available"@).as_bool(), v.at("balance_infos"@).as_items()) {
        (None, _) => Err("missing availability"@),
        (_, None) => Err("missing balance_infos"@),
        (Some(available), Some(entries)) => if entries.len() == 0 {
            Err("empty balances"@)
        } else {
            let entry = match first_cny(entries) {
                Some(e) => e,
                None => entries[0],
            };
            Ok(
                AllowanceView {
                    remaining: match number_of(entry.at("total_balance"@)) {
                        Some(n) => Some(AmountView::Exact(n)),
                        None => None,
                    },
                    unit: match entry.at("currency"@).as_str() {
                        Some(u) => u,
                        None => "unknown"@,
                    },
                    exhausted: !available,
                    ..AllowanceView::blank()
                },
            )
        },
    }
}

fn deepseek(v: &Json) -> (r: Result<Allowance, &'static str>)
    ensures
        reported(r, deepseek_quota(v@)),
{
    let available = match bool_of(at(Some(v), "is_available")) {
        Some(b) => b,
        None => {
            return Err("missing availability");
        },
    };
    let entries = match items_of(at(Some(v), "balance_infos")) {
        Some(s) => s,
        None => {
            return Err("missing balance_infos");
        },
    };
    if entries.len() == 0 {
        return Err("empty balances");
    }
    let ghost views = json::all(entries@);
    assert(views.take(0) =~= Seq::empty());
    let mut i: usize = 0;
    while i < entries.len() && !reads(at(Some(&entries[i]), "currency"), "CNY")
        invariant
            i <= entries@.len(),
            views == json::all(entries@),
            first_cny(views.take(i as int)) is None,
        decreases entries@.len() - i,
    {
        assert(views.take(i + 1).drop_last() =~= views.take(i as int));
        i = i + 1;
    }
    let entry = if i < entries.len() {
        &entries[i]
    } else {
        &entries[0]
    };
    proof {
        if i < entries@.len() {
            assert(views.take(i + 1).drop_last() =~= views.take(i as int));
            assert(is_text(views[i as int].at("currency"@), "CNY"@));
            first_cny_stays(views, i + 1);
        } else {
            assert(views.take(i as int) =~= views);
        }
    }
    let mut a = Allowance::default();
    a.remaining = match number(at(Some(entry), "total_balance")) {
        Some(n) => Some(Amount::Exact(n)),
        None => None,
    };
    a.unit = match str_of(at(Some(entry), "currency")) {
        Some(u) => u.clone(),
        None => "unknown".to_owned(),
    };
    a.exhausted = !available;
    Ok(a)
}

proof fn first_cny_stays(s: Seq<JsonView>, n: int)
    requires
        0 <= n <= s.len(),
        first_cny(s.take(n)) is Some,
    ensures
        first_cny(s) == first_cny(s.take(n)),
    decreases s.len(),
{
    if n == s.len() {
        assert(s.take(n) =~= s);
    } else {
        assert(s.drop_last().take(n) =~= s.take(n));
        first_cny_stays(s.drop_last(), n);
    }
}

/// One subscription: when it ends, and the bits of what is left of it this week.
#[derive(Clone, Copy, Debug)]
pub struct Subscription {
    pub expiry: Option<(i64, u32)>,
    pub left: Option<u64>,
}

impl Subscription {
    /// The subscription has not ended.
    pub open spec fn live(self, now: (i64, u32)) -> bool {
        match self.expiry {
            Some(t) => t.0 > now.0 || (t.0 == now.0 && t.1 > now.1),
            None => true,
        }
    }

    fn is_live(&self, now: (i64, u32)) -> (r: bool)
        ensures
            r == self.live(now),
    {
        match self.expiry {
            Some(t) => t.0 > now.0 || (t.0 == now.0 && t.1 > now.1),
            None => true,
        }
    }
}

/// A number, or zero in place of a negative one.
pub open spec fn positive_part(n: u64) -> u64 {
    if rank(n) <= 0 {
        0
    } else {
        n
    }
}

/// What is left of the subscriptions that have not ended and say so.
pub open spec fn lefts(s: Seq<Subscription>, now: (i64, u32)) -> Seq<u64>
    decreases s.len(),
{
    if s.len() == 0 {
        Seq::empty()
    } else {
        let rest = lefts(s.drop_last(), now);
        match s.last().left {
            Some(n) => if s.last().live(now) {
                rest.push(positive_part(n))
            } else {
                rest
            },
            None => rest,
        }
    }
}

/// The last end of a subscription that has not ended.
pub open spec fn latest(s: Seq<Subscription>, now: (i64, u32)) -> Option<i64>
    decreases s.len(),
{
    if s.len() == 0 {
        None
    } else {
        let rest = latest(s.drop_last(), now);
        match s.last().expiry {
            Some(t) => if s.last().live(now) {
                let before = match rest {
                    Some(x) => x,
                    None => 0,
                };
                Some(
                    if before > t.0 {
                        before
                    } else {
                        t.0
                    },
                )
            } else {
                rest
            },
            None => rest,
        }
    }
}

/// What several subscriptions leave to use.
pub open spec fn together(s: Seq<Subscription>, now: (i64, u32)) -> AllowanceView {
    let left = lefts(s, now);
    let active = exists|i: int| 0 <= i < s.len() && (#[trigger] s[i]).live(now);
    let unknown = exists|i: int|
        0 <= i < s.len() && (#[trigger] s[i]).live(now) && s[i].left is None;
    let unbounded = exists|i: int| 0 <= i < s.len() && (#[trigger] s[i]).expiry is None;
    AllowanceView {
        remaining: if left.len() > 0 {
            Some(AmountView::Total(left))
        } else {
            None
        },
        unit: "USD"@,
        exhausted: !active || (left.len() > 0 && !unknown && forall|i: int|
            0 <= i < left.len() ==> #[trigger] left[i] == 0),
        expires_at: if unbounded {
            None
        } else {
            latest(s, now)
        },
        ..AllowanceView::blank()
    }
}

/// Adds several subscriptions up.
pub fn add_up(s: &Vec<Subscription>, now: (i64, u32)) -> (r: Allowance)
    ensures
        r@ == together(s@, now),
{
    let mut left: Vec<u64> = Vec::new();
    let mut any = false;
    let mut active = false;
    let mut unknown = false;
    let mut unbounded = false;
    let mut last: Option<i64> = None;
    let mut i: usize = 0;
    assert(s@.take(0) =~= Seq::empty());
    while i < s.len()
        invariant
            i <= s@.len(),
            left@ == lefts(s@.take(i as int), now),
            any == exists|k: int| 0 <= k < left@.len() && #[trigger] left@[k] != 0,
            active == exists|k: int| 0 <= k < i && (#[trigger] s@[k]).live(now),
            unknown == exists|k: int|
                0 <= k < i && (#[trigger] s@[k]).live(now) && s@[k].left is None,
            unbounded == exists|k: int| 0 <= k < i && (#[trigger] s@[k]).expiry is None,
            last == latest(s@.take(i as int), now),
        decreases s@.len() - i,
    {
        assert(s@.take(i + 1).drop_last() =~= s@.take(i as int));
        assert(s@.take(i + 1).last() == s@[i as int]);
        let e = s[i];
        if e.is_live(now) {
            match e.expiry {
                Some(t) => {
                    let before: i64 = match last {
                        Some(x) => x,
                        None => 0,
                    };
                    last = Some(
                        if before > t.0 {
                            before
                        } else {
                            t.0
                        },
                    );
                },
                None => {
                    unbounded = true;
                },
            }
            active = true;
            match e.left {
                Some(n) => {
                    let ghost before = left@;
                    let part: u64 = if at_most(n, 0) {
                        0
                    } else {
                        n
                    };
                    left.push(part);
                    if part != 0 {
                        any = true;
                        assert(left@[before.len() as int] != 0);
                    }
                    assert(forall|k: int|
                        0 <= k < before.len() ==> #[trigger] left@[k] == before[k]);
                    assert(any ==> exists|k: int| 0 <= k < left@.len() && #[trigger] left@[k] != 0)
                        by {
                        if exists|k: int| 0 <= k < before.len() && #[trigger] before[k] != 0 {
                            let k = choose|k: int|
                                0 <= k < before.len() && #[trigger] before[k] != 0;
                            assert(left@[k] != 0);
                        }
                    }
                },
                None => {
                    unknown = true;
                },
            }
        }
        i = i + 1;
    }
    assert(s@.take(s@.len() as int) =~= s@);
    let mut a = Allowance::default();
    a.exhausted = !active || (left.len() > 0 && !unknown && !any);
    a.unit = "USD".to_owned();
    a.expires_at = if unbounded {
        None
    } else {
        last
    };
    if left.len() > 0 {
        a.remaining = Some(Amount::Total(left));
    }
    a
}

/// The subscription that a platform describes.
pub open spec fn subscription_of(e: JsonView) -> Subscription {
    Subscription {
        expiry: expiry_of(e.at("subscription"@)),
        left: number_of(e.at("progress"@).at("weekly"@).at("remaining_usd"@)),
    }
}

/// The subscriptions that a platform describes.
pub open spec fn subscriptions_of(s: Seq<JsonView>) -> Seq<Subscription> {
    s.map_values(|e: JsonView| subscription_of(e))
}

/// What a platform with subscriptions reports.
pub open spec fn subscription_quota(v: JsonView, now: (i64, u32)) -> Result<
    AllowanceView,
    Seq<char>,
> {
    match v.at("data"@).as_items() {
        Some(entries) => Ok(together(subscriptions_of(entries), now)),
        None => Err("missing subscriptions"@),
    }
}

fn subscription(v: &Json, now: (i64, u32)) -> (r: Result<Allowance, &'static str>)
    ensures
        reported(r, subscription_quota(v@, now)),
{
    let entries = match items_of(at(Some(v), "data")) {
        Some(s) => s,
        None => {
            return Err("missing subscriptions");
        },
    };
    let ghost views = json::all(entries@);
    let mut all: Vec<Subscription> = Vec::new();
    let mut i: usize = 0;
    while i < entries.len()
        invariant
            i <= entries@.len(),
            views == json::all(entries@),
            all@ == subscriptions_of(views).take(i as int),
        decreases entries@.len() - i,
    {
        let e = Some(&entries[i]);
        assert(json::seen(e) == views[i as int]);
        all.push(
            Subscription {
                expiry: expiry(at(e, "subscription")),
                left: number(at(at(at(e, "progress"), "weekly"), "remaining_usd")),
            },
        );
        assert(all@ =~= subscriptions_of(views).take(i + 1));
        i = i + 1;
    }
    assert(all@ =~= subscriptions_of(views));
    Ok(add_up(&all, now))
}

/// The period of a limit of the coding plan, by its unit and number.
pub open spec fn period_label(unit: Option<u64>, count: Option<u64>) -> Option<Seq<char>> {
    if unit == Some(3u64) && count == Some(5u64) {
        Some("5小时"@)
    } else if unit == Some(6u64) && count == Some(1u64) {
        Some("每周"@)
    } else {
        None
    }
}

/// What is left of a limit of which a part of a hundred is used.
pub open spec fn left_of_hundred(used: Option<u64>) -> Option<AmountView> {
    match used {
        Some(n) => if 0 <= rank(n) <= rank(HUNDRED) {
            Some(AmountView::ShortOfHundred(n))
        } else {
            None
        },
        None => None,
    }
}

/// The window that a limit of the coding plan describes, where it is one of tokens.
pub open spec fn window_of(item: JsonView) -> Option<WindowView> {
    match period_label(item.at("unit"@).as_uint(), item.at("number"@).as_uint()) {
        Some(label) => if is_text(item.at("type"@), "TOKENS_LIMIT"@) {
            Some(
                WindowView {
                    label,
                    remaining_percent: left_of_hundred(number_of(item.at("percentage"@))),
                    resets_at: match item.at("nextResetTime"@).as_int() {
                        Some(ms) => clock::millis_rfc3339(ms),
                        None => None,
                    },
                },
            )
        } else {
            None
        },
        None => None,
    }
}

/// The windows that the limits of a coding plan describe.
pub open spec fn windows_of(limits: Seq<JsonView>) -> Seq<WindowView>
    decreases limits.len(),
{
    if limits.len() == 0 {
        Seq::empty()
    } else {
        match window_of(limits.last()) {
            Some(w) => windows_of(limits.drop_last()).push(w),
            None => windows_of(limits.drop_last()),
        }
    }
}

/// A window of which nothing is left.
pub open spec fn used_up(w: WindowView) -> bool {
    match w.remaining_percent {
        Some(AmountView::ShortOfHundred(n)) => rank(HUNDRED) <= rank(n),
        _ => false,
    }
}

/// What a coding plan reports.
pub open spec fn glm_quota(v: JsonView) -> Result<AllowanceView, Seq<char>> {
    match v.at("data"@).at("limits"@).as_items() {
        None => Err("missing coding plan limits"@),
        Some(limits) => {
            let windows = windows_of(limits);
            if windows.len() == 0 {
                Err("unrecognized coding plan periods"@)
            } else {
                Ok(
                    AllowanceView {
                        windows,
                        exhausted: exists|i: int|
                            0 <= i < windows.len() && used_up(#[trigger] windows[i]),
                        unit: "percent"@,
                        ..AllowanceView::blank()
                    },
                )
            }
        },
    }
}

fn window(item: &Json) -> (r: Option<Window>)
    ensures
        match r {
            Some(w) => window_of(item@) == Some(w@),
            None => window_of(item@) is None,
        },
{
    let label = match (uint_of(at(Some(item), "unit")), uint_of(at(Some(item), "number"))) {
        (Some(3), Some(5)) => "5小时",
        (Some(6), Some(1)) => "每周",
        _ => {
            return None;
        },
    };
    if !reads(at(Some(item), "type"), "TOKENS_LIMIT") {
        return None;
    }
    let remaining_percent = match number(at(Some(item), "percentage")) {
        Some(n) => if at_most(0, n) && at_most(n, HUNDRED) {
            Some(Amount::ShortOfHundred(n))
        } else {
            None
        },
        None => None,
    };
    let resets_at = match int_of(at(Some(item), "nextResetTime")) {
        Some(ms) => clock::millis_text(ms),
        None => None,
    };
    Some(Window { label: label.to_owned(), remaining_percent, resets_at })
}

fn is_used_up(w: &Window) -> (r: bool)
    ensures
        r == used_up(w@),
{
    match w.remaining_percent {
        Some(Amount::ShortOfHundred(n)) => at_most(HUNDRED, n),
        _ => false,
    }
}

fn glm(v: &Json) -> (r: Result<Allowance, &'static str>)
    ensures
        reported(r, glm_quota(v@)),
{
    let limits = match items_of(at(at(Some(v), "data"), "limits")) {
        Some(s) => s,
        None => {
            return Err("missing coding plan limits");
        },
    };
    let ghost views = json::all(limits@);
    let mut windows: Vec<Window> = Vec::new();
    let mut exhausted = false;
    let mut i: usize = 0;
    assert(views.take(0) =~= Seq::empty());
    assert(window_views(windows@) =~= Seq::empty());
    while i < limits.len()
        invariant
            i <= limits@.len(),
            views == json::all(limits@),
            window_views(windows@) == windows_of(views.take(i as int)),
            exhausted == exists|k: int|
                0 <= k < window_views(windows@).len() && used_up(
                    #[trigger] window_views(windows@)[k],
                ),
        decreases limits@.len() - i,
    {
        assert(views.take(i + 1).drop_last() =~= views.take(i as int));
        assert(views.take(i + 1).last() == limits@[i as int]@);
        let ghost before = window_views(windows@);
        match window(&limits[i]) {
            Some(w) => {
                let ghost wv = w@;
                if is_used_up(&w) {
                    exhausted = true;
                }
                windows.push(w);
                proof {
                    let now = window_views(windows@);
                    assert(now =~= before.push(wv));
                    if exists|k: int| 0 <= k < before.len() && used_up(#[trigger] before[k]) {
                        let k = choose|k: int|
                            0 <= k < before.len() && used_up(#[trigger] before[k]);
                        assert(used_up(now[k]));
                    }
                    if used_up(wv) {
                        assert(used_up(now[before.len() as int]));
                    }
                    assert(forall|k: int| 0 <= k < before.len() ==> #[trigger] now[k] == before[k]);
                }
            },
            None => {},
        }
        i = i + 1;
    }
    assert(views.take(views.len() as int) =~= views);
    if windows.len() == 0 {
        return Err("unrecognized coding plan periods");
    }
    let mut a = Allowance::default();
    a.windows = windows;
    a.exhausted = exhausted;
    a.unit = "percent".to_owned();
    Ok(a)
}

/// What a platform reports of a quota. Only recognizable documents count: no other page is
/// evidence of a platform.
pub open spec fn quota(adapter: Adapter, v: JsonView, now: (i64, u32)) -> Result<
    AllowanceView,
    Seq<char>,
> {
    match adapter {
        Adapter::NewApi => new_api_quota(v),
        Adapter::Sub2Api => sub2_api_quota(v),
        Adapter::Deepseek => deepseek_quota(v),
        Adapter::Subscription => subscription_quota(v, now),
        Adapter::Glm => glm_quota(v),
        Adapter::Auto => Err("platform must be detected first"@),
    }
}

/// Reads what a platform reports of a quota, as of a time.
pub fn parse_at(adapter: Adapter, v: &Json, now: (i64, u32)) -> (r: Result<
    Allowance,
    &'static str,
>)
    ensures
        reported(r, quota(adapter, v@, now)),
{
    match adapter {
        Adapter::NewApi => new_api(v),
        Adapter::Sub2Api => sub2_api(v),
        Adapter::Deepseek => deepseek(v),
        Adapter::Subscription => subscription(v, now),
        Adapter::Glm => glm(v),
        Adapter::Auto => Err("platform must be detected first"),
    }
}

/// Reads what a platform reports of a quota.
pub fn parse(adapter: &Adapter, v: &Json) -> (r: Result<Allowance, &'static str>)
    ensures
        exists|now: (i64, u32)|
            {
                &&& clock::reading(now.0 as int)
                &&& reported(r, #[trigger] quota(*adapter, v@, now))
            },
{
    let now = clock::now_exact();
    parse_at(*adapter, v, now)
}

/// What is unavailable stays so: neither an exhausted quota nor an expired one comes back by
/// waiting.
pub proof fn unavailable_stays(a: AllowanceView, now: int, later: int)
    requires
        now <= later,
        a.spent(now),
    ensures
        a.spent(later),
{
}

/// An unlimited quota is never exhausted, whatever number stands beside it.
pub proof fn unlimited_is_not_exhausted(v: JsonView)
    ensures
        new_api_quota(v) is Ok && new_api_quota(v)->Ok_0.unlimited ==> !new_api_quota(
            v,
        )->Ok_0.exhausted && new_api_quota(v)->Ok_0.remaining is None,
{
}

/// What is left of a funded key is never more than the key or the wallet allows.
pub proof fn wallet_limits_key(v: JsonView)
    requires
        sub2_api_quota(v) is Ok,
    ensures
        match sub2_api_quota(v)->Ok_0.remaining {
            Some(AmountView::Exact(left)) => {
                &&& number_of(v.at("remaining"@)) is Some
                &&& rank(left) <= rank(number_of(v.at("remaining"@))->0)
                &&& number_of(v.at("balance"@)) is Some ==> rank(left) <= rank(
                    number_of(v.at("balance"@))->0,
                )
                &&& rank(left) <= 0 ==> sub2_api_quota(v)->Ok_0.exhausted
            },
            _ => false,
        },
{
}

/// A quota that a platform does not state is unknown, not zero: no allowance comes of it.
pub proof fn unknown_is_not_zero(v: JsonView, now: (i64, u32))
    ensures
        number_of(v.at("data"@).at("total_available"@)) is None ==> quota(
            Adapter::NewApi,
            v,
            now,
        ) is Err,
        number_of(v.at("remaining"@)) is None ==> quota(Adapter::Sub2Api, v, now) is Err,
        quota(Adapter::Auto, v, now) is Err,
{
}

/// Where every subscription has ended, nothing is left.
pub proof fn ended_subscriptions_leave_nothing(s: Seq<Subscription>, now: (i64, u32))
    requires
        forall|i: int| 0 <= i < s.len() ==> !(#[trigger] s[i]).live(now),
    ensures
        together(s, now).exhausted,
        together(s, now).remaining is None,
    decreases s.len(),
{
    if s.len() > 0 {
        assert(!s[s.len() - 1].live(now));
        assert forall|i: int| 0 <= i < s.drop_last().len() implies !(
        #[trigger] s.drop_last()[i]).live(now) by {
            assert(!s[i].live(now));
        }
        ended_subscriptions_leave_nothing(s.drop_last(), now);
    }
}

/// A number in double precision, by its bits, that is zero or less.
pub open spec fn not_positive(n: u64) -> bool {
    n == 0 || n >= 0x8000_0000_0000_0000
}

/// Numbers are ordered by their signs and sizes: both zeros are one, positive numbers go by their
/// bits, negative ones go the other way and come before.
pub proof fn bits_order_numbers(a: u64, b: u64)
    ensures
        rank(a) <= 0 <==> not_positive(a),
        rank(0) == rank(0x8000_0000_0000_0000),
        a < 0x8000_0000_0000_0000 && b < 0x8000_0000_0000_0000 ==> (rank(a) <= rank(b) <==> a <= b),
        a >= 0x8000_0000_0000_0000 && b >= 0x8000_0000_0000_0000 ==> (rank(a) <= rank(b) <==> b
            <= a),
        a >= 0x8000_0000_0000_0000 && b < 0x8000_0000_0000_0000 ==> rank(a) <= rank(b),
{
}

/// A limit of tokens in a period that the coding plan has: five hours, or a week.
pub open spec fn of_a_period(limit: JsonView) -> bool {
    &&& limit.at("type"@) == JsonView::Text("TOKENS_LIMIT"@)
    &&& {
        ||| limit.at("unit"@).as_uint() == Some(3u64) && limit.at("number"@).as_uint() == Some(5u64)
        ||| limit.at("unit"@).as_uint() == Some(6u64) && limit.at("number"@).as_uint() == Some(1u64)
    }
}

spec fn window_from(limits: Seq<JsonView>, w: WindowView) -> bool {
    exists|i: int|
        0 <= i < limits.len() && of_a_period(#[trigger] limits[i]) && window_of(limits[i]) == Some(w)
}

proof fn windows_come_of_limits(limits: Seq<JsonView>)
    ensures
        forall|i: int|
            0 <= i < limits.len() && of_a_period(#[trigger] limits[i]) ==> windows_of(
                limits,
            ).contains(window_of(limits[i])->0),
        forall|j: int|
            0 <= j < windows_of(limits).len() ==> window_from(limits, #[trigger] windows_of(limits)[j]),
    decreases limits.len(),
{
    if limits.len() > 0 {
        let rest = limits.drop_last();
        windows_come_of_limits(rest);
        let a = windows_of(rest);
        let b = windows_of(limits);
        assert(forall|i: int| 0 <= i < rest.len() ==> #[trigger] rest[i] == limits[i]);
        assert forall|i: int| 0 <= i < limits.len() && of_a_period(#[trigger] limits[i]) implies
            b.contains(window_of(limits[i])->0) by {
            if i < rest.len() {
                assert(of_a_period(rest[i]));
                let j = choose|j: int| 0 <= j < a.len() && a[j] == window_of(limits[i])->0;
                assert(b[j] == a[j]);
            } else {
                assert(b[a.len() as int] == window_of(limits[i])->0);
            }
        }
        assert forall|j: int| 0 <= j < b.len() implies window_from(limits, #[trigger] b[j]) by {
            if j < a.len() {
                assert(b[j] == a[j]);
                assert(window_from(rest, a[j]));
                let i = choose|i: int|
                    0 <= i < rest.len() && of_a_period(#[trigger] rest[i]) && window_of(rest[i])
                        == Some(a[j]);
                assert(of_a_period(limits[i]));
            } else {
                let i = limits.len() - 1;
                assert(of_a_period(limits[i]));
                assert(window_of(limits[i]) == Some(b[j]));
            }
        }
    }
}

/// A coding plan is read where it has a limit of tokens in one of its periods, and is then used up
/// exactly where some such limit, of whichever period, states that a hundred percent are used.
pub proof fn full_periods_exhaust_a_plan(v: JsonView, limits: Seq<JsonView>, now: (i64, u32))
    requires
        v.at("data"@).at("limits"@) == JsonView::Array(limits),
    ensures
        quota(Adapter::Glm, v, now) is Ok <==> exists|i: int|
            0 <= i < limits.len() && of_a_period(#[trigger] limits[i]),
        quota(Adapter::Glm, v, now) is Ok ==> (quota(Adapter::Glm, v, now)->Ok_0.exhausted
            <==> exists|i: int|
            0 <= i < limits.len() && of_a_period(#[trigger] limits[i]) && number_of(
                limits[i].at("percentage"@),
            ) == Some(0x4059_0000_0000_0000u64)),
{
    windows_come_of_limits(limits);
    let windows = windows_of(limits);
    if windows.len() > 0 {
        assert(window_from(limits, windows[0]));
        let a = quota(Adapter::Glm, v, now)->Ok_0;
        if a.exhausted {
            let j = choose|j: int| 0 <= j < windows.len() && used_up(#[trigger] windows[j]);
            assert(window_from(limits, windows[j]));
            let i = choose|i: int|
                0 <= i < limits.len() && of_a_period(#[trigger] limits[i]) && window_of(limits[i])
                    == Some(windows[j]);
            assert(number_of(limits[i].at("percentage"@)) == Some(0x4059_0000_0000_0000u64));
        }
        if exists|i: int|
            0 <= i < limits.len() && of_a_period(#[trigger] limits[i]) && number_of(
                limits[i].at("percentage"@),
            ) == Some(0x4059_0000_0000_0000u64) {
            let i = choose|i: int|
                0 <= i < limits.len() && of_a_period(#[trigger] limits[i]) && number_of(
                    limits[i].at("percentage"@),
                ) == Some(0x4059_0000_0000_0000u64);
            let w = window_of(limits[i])->0;
            assert(windows.contains(w));
            let j = choose|j: int| 0 <= j < windows.len() && windows[j] == w;
            assert(used_up(windows[j]));
        }
    }
}

/// Every limit of tokens in a period of the coding plan becomes a window under the period's name,
/// which states what a hundred percent leave where the used part is a number from zero to a hundred,
/// and otherwise nothing, and when the period starts anew where that is told.
pub proof fn periods_become_windows(v: JsonView, limits: Seq<JsonView>, i: int, now: (i64, u32))
    requires
        v.at("data"@).at("limits"@) == JsonView::Array(limits),
        0 <= i < limits.len(),
        of_a_period(limits[i]),
    ensures
        quota(Adapter::Glm, v, now) is Ok,
        quota(Adapter::Glm, v, now)->Ok_0.unit == "percent"@,
        exists|j: int|
            {
                let w = #[trigger] quota(Adapter::Glm, v, now)->Ok_0.windows[j];
                let used = number_of(limits[i].at("percentage"@));
                &&& 0 <= j < quota(Adapter::Glm, v, now)->Ok_0.windows.len()
                &&& w.label == (if limits[i].at("unit"@).as_uint() == Some(3u64) {
                    "5小时"@
                } else {
                    "每周"@
                })
                &&& match used {
                    Some(n) => if n <= 0x4059_0000_0000_0000 || n == 0x8000_0000_0000_0000 {
                        w.remaining_percent == Some(AmountView::ShortOfHundred(n))
                    } else {
                        w.remaining_percent is None
                    },
                    None => w.remaining_percent is None,
                }
                &&& match limits[i].at("nextResetTime"@) {
                    JsonView::Number(t) => match t.int {
                        Some(ms) => w.resets_at == clock::millis_rfc3339(ms),
                        None => w.resets_at is None,
                    },
                    _ => w.resets_at is None,
                }
            },
{
    windows_come_of_limits(limits);
    let windows = windows_of(limits);
    let w = window_of(limits[i])->0;
    assert(windows.contains(w));
    let j = choose|j: int| 0 <= j < windows.len() && windows[j] == w;
    assert(quota(Adapter::Glm, v, now)->Ok_0.windows[j] == w);
}

/// A token quota is used up exactly where it is limited and nothing, or less, is left of it. What is
/// left is stated as the platform does, and an end where it lies after the start of time.
pub proof fn token_quotas_are_read(v: JsonView, unlimited: bool, left: u64, now: (i64, u32))
    requires
        v.at("data"@).at("unlimited_quota"@) == JsonView::Bool(unlimited),
        number_of(v.at("data"@).at("total_available"@)) == Some(left),
    ensures
        quota(Adapter::NewApi, v, now) is Ok,
        ({
            let a = quota(Adapter::NewApi, v, now)->Ok_0;
            let end = v.at("data"@).at("expires_at"@).as_int();
            &&& a.unlimited == unlimited
            &&& a.exhausted <==> !unlimited && not_positive(left)
            &&& a.remaining == if unlimited {
                None
            } else {
                Some(AmountView::Exact(left))
            }
            &&& end is Some && end->0 > 0 ==> a.expires_at == end
            &&& end is None || end->0 <= 0 ==> a.expires_at is None
            &&& a.unit == "quota"@
        }),
{
}

/// A funded key is used up exactly where nothing, or less, is left of it, of its wallet, or of some of
/// its limits.
pub proof fn funded_keys_are_used_up(v: JsonView, left: u64, now: (i64, u32))
    requires
        v.at("mode"@) is Text,
        number_of(v.at("remaining"@)) == Some(left),
    ensures
        quota(Adapter::Sub2Api, v, now) is Ok,
        ({
            let a = quota(Adapter::Sub2Api, v, now)->Ok_0;
            let wallet = number_of(v.at("balance"@));
            let limits = v.at("rate_limits"@);
            &&& a.exhausted <==> {
                ||| not_positive(left)
                ||| wallet is Some && not_positive(wallet->0)
                ||| limits is Object && exists|i: int|
                    0 <= i < limits->Object_0.len() && number_of(
                        #[trigger] limits->Object_0[i].1.at("remaining"@),
                    ) is Some && not_positive(
                        number_of(limits->Object_0[i].1.at("remaining"@))->0,
                    )
            }
            &&& !a.unlimited
            &&& wallet is None ==> a.remaining == Some(AmountView::Exact(left))
            &&& wallet is Some ==> a.remaining == Some(AmountView::Exact(left)) || a.remaining
                == Some(AmountView::Exact(wallet->0))
            &&& v.at("unit"@) is Text ==> a.unit == v.at("unit"@)->Text_0
            &&& !(v.at("unit"@) is Text) ==> a.unit == "USD"@
            &&& match v.at("subscription"@).at("expires_at"@) {
                JsonView::Text(t) => match clock::rfc3339(t) {
                    Some(end) => a.expires_at == Some(end.0),
                    None => a.expires_at is None,
                },
                _ => a.expires_at is None,
            }
        }),
{
    let limits = v.at("rate_limits"@);
    if limits is Object {
        let o = limits->Object_0;
        if some_member_spent(o) {
            let i = choose|i: int| 0 <= i < o.len() && #[trigger] spent_limit(o[i].1);
            assert(number_of(o[i].1.at("remaining"@)) is Some);
        }
        if exists|i: int|
            0 <= i < o.len() && number_of(#[trigger] o[i].1.at("remaining"@)) is Some
                && not_positive(number_of(o[i].1.at("remaining"@))->0) {
            let i = choose|i: int|
                0 <= i < o.len() && number_of(#[trigger] o[i].1.at("remaining"@)) is Some
                    && not_positive(number_of(o[i].1.at("remaining"@))->0);
            assert(spent_limit(o[i].1));
        }
    }
}

/// A platform without a mode of use is not recognized.
pub proof fn unrecognized_platforms_are_refused(v: JsonView, now: (i64, u32))
    ensures
        !(v.at("mode"@) is Text) ==> quota(Adapter::Sub2Api, v, now) is Err,
        !(v.at("data"@).at("unlimited_quota"@) is Bool) ==> quota(Adapter::NewApi, v, now) is Err,
        !(v.at("is_available"@) is Bool) || !(v.at("balance_infos"@) is Array) ==> quota(
            Adapter::Deepseek,
            v,
            now,
        ) is Err,
        !(v.at("data"@) is Array) ==> quota(Adapter::Subscription, v, now) is Err,
        !(v.at("data"@).at("limits"@) is Array) ==> quota(Adapter::Glm, v, now) is Err,
{
}

proof fn first_cny_is_first(s: Seq<JsonView>, i: int)
    requires
        0 <= i <= s.len(),
        forall|k: int|
            0 <= k < i ==> (#[trigger] s[k]).at("currency"@) != JsonView::Text("CNY"@),
        i < s.len() ==> s[i].at("currency"@) == JsonView::Text("CNY"@),
    ensures
        first_cny(s) == if i < s.len() {
            Some(s[i])
        } else {
            None
        },
    decreases s.len(),
{
    if s.len() > 0 {
        let rest = s.drop_last();
        assert(forall|k: int| 0 <= k < rest.len() ==> #[trigger] rest[k] == s[k]);
        if i < s.len() {
            first_cny_is_first(rest, i);
        } else {
            assert(s[s.len() - 1].at("currency"@) != JsonView::Text("CNY"@));
            first_cny_is_first(rest, i - 1);
        }
    }
}

/// DeepSeek says itself whether a balance can be used. The balance that is stated is the first in
/// CNY, or else the first of all.
pub proof fn balances_in_cny_come_first(v: JsonView, entries: Seq<JsonView>, i: int, now: (i64, u32))
    requires
        v.at("is_available"@) is Bool,
        v.at("balance_infos"@) == JsonView::Array(entries),
        entries.len() > 0,
        0 <= i <= entries.len(),
        forall|k: int|
            0 <= k < i ==> (#[trigger] entries[k]).at("currency"@) != JsonView::Text("CNY"@),
        i < entries.len() ==> entries[i].at("currency"@) == JsonView::Text("CNY"@),
    ensures
        quota(Adapter::Deepseek, v, now) is Ok,
        ({
            let a = quota(Adapter::Deepseek, v, now)->Ok_0;
            let e = if i < entries.len() {
                entries[i]
            } else {
                entries[0]
            };
            let n = number_of(e.at("total_balance"@));
            &&& a.exhausted <==> v.at("is_available"@) == JsonView::Bool(false)
            &&& n is Some ==> a.remaining == Some(AmountView::Exact(n->0))
            &&& n is None ==> a.remaining is None
            &&& e.at("currency"@) is Text ==> a.unit == e.at("currency"@)->Text_0
            &&& !(e.at("currency"@) is Text) ==> a.unit == "unknown"@
            &&& !a.unlimited && a.expires_at is None
        }),
{
    first_cny_is_first(entries, i);
}

spec fn left_from(s: Seq<Subscription>, now: (i64, u32), n: u64) -> bool {
    exists|i: int|
        0 <= i < s.len() && (#[trigger] s[i]).live(now) && s[i].left is Some && positive_part(
            s[i].left->0,
        ) == n
}

proof fn lefts_are_of_live_ones(s: Seq<Subscription>, now: (i64, u32))
    ensures
        forall|i: int|
            0 <= i < s.len() && (#[trigger] s[i]).live(now) && s[i].left is Some ==> lefts(
                s,
                now,
            ).contains(positive_part(s[i].left->0)),
        forall|j: int|
            0 <= j < lefts(s, now).len() ==> left_from(s, now, #[trigger] lefts(s, now)[j]),
    decreases s.len(),
{
    if s.len() > 0 {
        let rest = s.drop_last();
        lefts_are_of_live_ones(rest, now);
        let a = lefts(rest, now);
        let b = lefts(s, now);
        assert(forall|i: int| 0 <= i < rest.len() ==> #[trigger] rest[i] == s[i]);
        assert(forall|j: int| 0 <= j < a.len() ==> #[trigger] b[j] == a[j]);
        assert forall|i: int|
            0 <= i < s.len() && (#[trigger] s[i]).live(now) && s[i].left is Some implies b.contains(
            positive_part(s[i].left->0),
        ) by {
            if i < rest.len() {
                assert(rest[i].live(now));
                let j = choose|j: int| 0 <= j < a.len() && a[j] == positive_part(s[i].left->0);
                assert(b[j] == a[j]);
            } else {
                assert(b[a.len() as int] == positive_part(s[i].left->0));
            }
        }
        assert forall|j: int| 0 <= j < b.len() implies left_from(s, now, #[trigger] b[j]) by {
            if j < a.len() {
                assert(left_from(rest, now, a[j]));
                let i = choose|i: int|
                    0 <= i < rest.len() && (#[trigger] rest[i]).live(now) && rest[i].left is Some
                        && positive_part(rest[i].left->0) == a[j];
                assert(s[i].live(now));
            } else {
                assert(s[s.len() - 1].live(now));
            }
        }
    }
}

/// A subscription that has not ended: it has no end, or one that lies after the time.
pub open spec fn runs(s: Subscription, now: (i64, u32)) -> bool {
    match s.expiry {
        None => true,
        Some((seconds, nanos)) => seconds > now.0 || seconds == now.0 && nanos > now.1,
    }
}

/// Subscriptions are used up exactly where all have ended, or where those that run all state that
/// nothing, or less, is left this week. One that runs and states nothing keeps them in use.
pub proof fn subscriptions_are_used_up(s: Seq<Subscription>, now: (i64, u32))
    ensures
        together(s, now).exhausted <==> forall|i: int|
            0 <= i < s.len() && runs(#[trigger] s[i], now) ==> s[i].left is Some && not_positive(
                s[i].left->0,
            ),
        together(s, now).remaining is Some <==> exists|i: int|
            0 <= i < s.len() && runs(#[trigger] s[i], now) && s[i].left is Some,
{
    lefts_are_of_live_ones(s, now);
    let left = lefts(s, now);
    let t = together(s, now);
    assert(forall|i: int| 0 <= i < s.len() ==> runs(#[trigger] s[i], now) == s[i].live(now));
    if left.len() > 0 {
        assert(left_from(s, now, left[0]));
    }
    if t.exhausted {
        assert forall|i: int| 0 <= i < s.len() && runs(#[trigger] s[i], now) implies s[i].left
            is Some && not_positive(s[i].left->0) by {
            assert(s[i].live(now));
            assert(left.contains(positive_part(s[i].left->0)));
            let j = choose|j: int| 0 <= j < left.len() && left[j] == positive_part(s[i].left->0);
            assert(left[j] == 0);
        }
    }
    if forall|i: int|
        0 <= i < s.len() && runs(#[trigger] s[i], now) ==> s[i].left is Some && not_positive(
            s[i].left->0,
        ) {
        if exists|i: int| 0 <= i < s.len() && (#[trigger] s[i]).live(now) {
            let i = choose|i: int| 0 <= i < s.len() && (#[trigger] s[i]).live(now);
            assert(runs(s[i], now));
            assert(left.contains(positive_part(s[i].left->0)));
            assert(forall|k: int|
                0 <= k < s.len() && (#[trigger] s[k]).live(now) ==> runs(s[k], now));
            assert forall|j: int| 0 <= j < left.len() implies #[trigger] left[j] == 0 by {
                assert(left_from(s, now, left[j]));
                let k = choose|k: int|
                    0 <= k < s.len() && (#[trigger] s[k]).live(now) && s[k].left is Some
                        && positive_part(s[k].left->0) == left[j];
                assert(runs(s[k], now));
            }
        }
    }
}

proof fn latest_is_last(s: Seq<Subscription>, now: (i64, u32))
    ensures
        latest(s, now) is Some <==> exists|i: int|
            0 <= i < s.len() && (#[trigger] s[i]).live(now) && s[i].expiry is Some,
        latest(s, now) is Some ==> latest(s, now)->0 >= 0 && (latest(s, now)->0 == 0
            || exists|i: int|
            0 <= i < s.len() && (#[trigger] s[i]).live(now) && s[i].expiry is Some
                && (s[i].expiry->0).0 == latest(s, now)->0),
        forall|i: int|
            0 <= i < s.len() && (#[trigger] s[i]).live(now) && s[i].expiry is Some
                ==> (s[i].expiry->0).0 <= latest(s, now)->0,
    decreases s.len(),
{
    if s.len() > 0 {
        let rest = s.drop_last();
        latest_is_last(rest, now);
        assert(forall|i: int| 0 <= i < rest.len() ==> #[trigger] rest[i] == s[i]);
        let last = s[s.len() - 1];
        assert(last == s.last());
        if latest(rest, now) is Some {
            let i = choose|i: int|
                0 <= i < rest.len() && (#[trigger] rest[i]).live(now) && rest[i].expiry is Some;
            assert(s[i].live(now));
            if latest(rest, now)->0 != 0 {
                let k = choose|k: int|
                    0 <= k < rest.len() && (#[trigger] rest[k]).live(now) && rest[k].expiry is Some
                        && (rest[k].expiry->0).0 == latest(rest, now)->0;
                assert(s[k].live(now));
            }
        }
        assert forall|i: int|
            0 <= i < s.len() && (#[trigger] s[i]).live(now) && s[i].expiry is Some implies latest(
            s,
            now,
        ) is Some && (s[i].expiry->0).0 <= latest(s, now)->0 by {
            if i < rest.len() {
                assert(rest[i].live(now));
            }
        }
    }
}

/// Subscriptions last as long as the last of those that run, and without end where one of them all has
/// none.
pub proof fn subscriptions_end_with_the_last(s: Seq<Subscription>, now: (i64, u32), i: int)
    requires
        0 <= i < s.len(),
        0 <= now.0,
    ensures
        s[i].expiry is None ==> together(s, now).expires_at is None,
        (forall|k: int| 0 <= k < s.len() ==> (#[trigger] s[k]).expiry is Some) && runs(s[i], now)
            ==> {
            let end = together(s, now).expires_at;
            &&& end is Some
            &&& (s[i].expiry->0).0 <= end->0
            &&& exists|k: int|
                0 <= k < s.len() && runs(#[trigger] s[k], now) && s[k].expiry is Some
                    && (s[k].expiry->0).0 == end->0
        },
{
    latest_is_last(s, now);
    assert(runs(s[i], now) == s[i].live(now));
    if s[i].expiry is Some && runs(s[i], now) {
        assert(latest(s, now) is Some);
        if latest(s, now)->0 == 0 {
            assert(runs(s[i], now) && (s[i].expiry->0).0 == 0);
        } else {
            let k = choose|k: int|
                0 <= k < s.len() && (#[trigger] s[k]).live(now) && s[k].expiry is Some
                    && (s[k].expiry->0).0 == latest(s, now)->0;
            assert(runs(s[k], now));
        }
    }
}

/// A platform's subscriptions are read one by one: when each ends, and what is left of it this week.
pub proof fn subscriptions_are_read(v: JsonView, entries: Seq<JsonView>, now: (i64, u32))
    requires
        v.at("data"@) == JsonView::Array(entries),
    ensures
        exists|s: Seq<Subscription>|
            {
                &&& quota(Adapter::Subscription, v, now) == Ok::<AllowanceView, Seq<char>>(
                    #[trigger] together(s, now),
                )
                &&& s.len() == entries.len()
                &&& forall|i: int|
                    0 <= i < s.len() ==> (#[trigger] s[i]).left == number_of(
                        entries[i].at("progress"@).at("weekly"@).at("remaining_usd"@),
                    ) && s[i].expiry == (match entries[i].at("subscription"@).at("expires_at"@) {
                        JsonView::Text(t) => clock::rfc3339(t),
                        _ => None,
                    })
            },
{
    let s = subscriptions_of(entries);
    assert(quota(Adapter::Subscription, v, now) == Ok::<AllowanceView, Seq<char>>(
        together(s, now),
    ));
}

/// An allowance cannot be used exactly where it is exhausted or its end has come, to the second.
pub proof fn allowances_end(a: AllowanceView, end: i64)
    ensures
        a.exhausted ==> forall|now: int| #[trigger] a.spent(now),
        !a.exhausted && a.expires_at is None ==> forall|now: int| !#[trigger] a.spent(now),
        !a.exhausted && a.expires_at == Some(end) ==> a.spent(end as int) && !a.spent(end - 1),
{
}

/// DeepSeek's models go to its own interface, other GLM models to theirs, in whatever case they are
/// written, and every other model to the interface that was configured.
pub proof fn official_interfaces_come_first(model: Seq<char>, configured: Adapter)
    ensures
        text::contained(text::lowered(model), "deepseek"@) <==> Adapter::official(
            model,
            configured,
        ) == Adapter::Deepseek && Adapter::official(model, Adapter::Auto) == Adapter::Deepseek,
        text::contained(text::lowered(model), "glm"@) && !text::contained(
            text::lowered(model),
            "deepseek"@,
        ) <==> Adapter::official(model, configured) == Adapter::Glm && Adapter::official(
            model,
            Adapter::Auto,
        ) == Adapter::Glm,
        !text::contained(text::lowered(model), "deepseek"@) && !text::contained(
            text::lowered(model),
            "glm"@,
        ) ==> Adapter::official(model, configured) == configured,
{
}

/// A value states a number where it is one or, as a text, writes one, and nowhere else.
pub proof fn numbers_may_be_written(v: JsonView)
    ensures
        v is Number ==> number_of(v) == v->Number_0.double,
        v is Text ==> number_of(v) == double_of(v->Text_0),
        !(v is Number) && !(v is Text) ==> number_of(v) is None,
{
}

} // verus!
