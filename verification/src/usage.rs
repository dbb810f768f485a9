//! Daily usage of each client. No credentials or response content are retained.
use crate::ascii;
use crate::clock;
use crate::json;
use crate::json::{at, uint_of, Json, JsonView};
use crate::table::Table;
use crate::telemetry::Attempt;
use crate::text;
use crate::text::{contains, from_utf8_lossy, same, to_ascii_lowercase};
use std::collections::BTreeMap;
use vstd::prelude::*;
use vstd::string::*;

verus! {

/// The local day in which a time falls, counted from the first of January 1970.
pub fn day(at: i64) -> (r: i64)
    requires
        at + 28800 <= i64::MAX,
    ensures
        r == clock::local_day(at as int),
{
    let t = at + 28800;
    let q = t / 86400;
    if t % 86400 < 0 {
        q - 1
    } else {
        q
    }
}

/// Tokens that one attempt used.
#[derive(Clone, Copy, Debug, PartialEq, Eq, Structural)]
pub struct Tokens {
    pub input: u64,
    pub cached: u64,
    pub output: u64,
}

impl Tokens {
    /// The tokens that a usage object reports, where it reports input and output.
    pub open spec fn reported(v: JsonView) -> Option<Tokens> {
        match (v.at("input_tokens"@).as_uint(), v.at("output_tokens"@).as_uint()) {
            (Some(input), Some(output)) => Some(
                Tokens {
                    input,
                    output,
                    cached: match v.at("input_tokens_details"@).at("cached_tokens"@).as_uint() {
                        Some(n) => n,
                        None => 0,
                    },
                },
            ),
            _ => None,
        }
    }

    /// The tokens that a usage object reports, where it reports input and output.
    pub fn parse(v: Option<&Json>) -> (r: Option<Self>)
        ensures
            r == Self::reported(json::seen(v)),
    {
        match (uint_of(at(v, "input_tokens")), uint_of(at(v, "output_tokens"))) {
            (Some(input), Some(output)) => {
                let cached = match uint_of(at(at(v, "input_tokens_details"), "cached_tokens")) {
                    Some(n) => n,
                    None => 0,
                };
                Some(Tokens { input, cached, output })
            },
            _ => None,
        }
    }
}

/// What one client used on one day.
#[derive(Clone, Copy, Debug, PartialEq, Eq, Structural)]
pub struct Daily {
    pub requests: u64,
    pub missing: u64,
    pub input: u64,
    pub cached: u64,
    pub output: u64,
}

impl Daily {
    /// A day without activity.
    pub open spec fn zero() -> Daily {
        Daily { requests: 0, missing: 0, input: 0, cached: 0, output: 0 }
    }
}

impl Default for Daily {
    fn default() -> (r: Self)
        ensures
            r == Daily::zero(),
    {
        Daily { requests: 0, missing: 0, input: 0, cached: 0, output: 0 }
    }
}

/// One client, by day.
pub struct Client {
    pub name: String,
    pub last_used: i64,
    pub days: BTreeMap<i64, Daily>,
}

/// The mathematical model of [`Client`].
pub struct ClientView {
    pub name: Seq<char>,
    pub last_used: i64,
    pub days: Map<i64, Daily>,
}

impl View for Client {
    type V = ClientView;

    open spec fn view(&self) -> ClientView {
        ClientView { name: self.name@, last_used: self.last_used, days: self.days@ }
    }
}

impl Default for Client {
    fn default() -> (r: Self)
        ensures
            r@ == new_client(),
    {
        Client { name: String::new(), last_used: 0, days: BTreeMap::new() }
    }
}

/// A client that was never seen.
pub open spec fn new_client() -> ClientView {
    ClientView { name: Seq::empty(), last_used: 0, days: Map::empty() }
}

/// All clients.
pub struct Ledger {
    pub clients: Table<Client>,
}

impl View for Ledger {
    type V = Map<Seq<char>, ClientView>;

    open spec fn view(&self) -> Map<Seq<char>, ClientView> {
        self.clients@.map_values(|c: Client| c@)
    }
}

impl Default for Ledger {
    fn default() -> (r: Self)
        ensures
            r@ == Map::<Seq<char>, ClientView>::empty(),
    {
        let r = Ledger { clients: Table::new() };
        assert(r@ =~= Map::<Seq<char>, ClientView>::empty());
        r
    }
}

/// A day lies in the five days that end with the present one.
pub open spec fn recent(d: int, today: int) -> bool {
    today - 4 <= d <= today
}

/// The recent days among several.
pub open spec fn kept_days(days: Map<i64, Daily>, today: int) -> Map<i64, Daily> {
    days.restrict(Set::new(|d: i64| recent(d as int, today)))
}

/// Some recent day is among several.
pub open spec fn active(days: Map<i64, Daily>, today: int) -> bool {
    exists|d: i64| recent(d as int, today) && #[trigger] days.contains_key(d)
}

/// The clients with activity in recent days, and only those days of theirs.
pub open spec fn pruned(l: Map<Seq<char>, ClientView>, today: int) -> Map<Seq<char>, ClientView> {
    Map::new(
        |id: Seq<char>|
            l.contains_key(id) && active(l[id].days, today),
        |id: Seq<char>| ClientView { days: kept_days(l[id].days, today), ..l[id] },
    )
}

fn keep_days(days: BTreeMap<i64, Daily>, today: i64) -> (r: (BTreeMap<i64, Daily>, bool))
    requires
        i64::MIN + 4 <= today,
        today < i64::MAX,
    ensures
        r.0@ == kept_days(days@, today as int),
        r.1 == active(days@, today as int),
{
    broadcast use vstd::std_specs::btree::group_btree_axioms;

    let mut kept: BTreeMap<i64, Daily> = BTreeMap::new();
    let mut any = false;
    let mut d = today - 4;
    while d <= today
        invariant
            today - 4 <= d <= today + 1,
            today < i64::MAX,
            forall|k: i64| #[trigger]
                kept@.contains_key(k) <==> today - 4 <= k < d && days@.contains_key(k),
            forall|k: i64| #[trigger] kept@.contains_key(k) ==> kept@[k] == days@[k],
            any == exists|k: i64| today - 4 <= k < d && #[trigger] days@.contains_key(k),
        decreases today + 1 - d,
    {
        match days.get(&d) {
            Some(v) => {
                assert(days@.contains_key(d));
                kept.insert(d, *v);
                any = true;
            },
            None => {},
        }
        d = d + 1;
    }
    assert(kept@ =~= kept_days(days@, today as int));
    (kept, any)
}

/// The usages of attempts, in order.
pub open spec fn usages(attempts: Seq<Attempt>) -> Seq<Option<Tokens>> {
    attempts.map_values(|a: Attempt| a.usage)
}

/// Tokens of one of these model families are never accounted.
pub open spec fn excluded(model: Seq<char>) -> bool {
    text::contained(text::lowered(model), "glm"@) || text::contained(
        text::lowered(model),
        "deepseek"@,
    )
}

/// A sum that stays at the largest number where it would pass it.
pub open spec fn capped(n: int) -> u64 {
    if n > u64::MAX {
        u64::MAX
    } else {
        n as u64
    }
}

/// A day to which the tokens of attempts were added.
pub open spec fn tally(d: Daily, u: Seq<Option<Tokens>>) -> Daily
    decreases u.len(),
{
    if u.len() == 0 {
        d
    } else {
        let p = tally(d, u.drop_last());
        match u.last() {
            Some(t) => Daily {
                input: capped(p.input + t.input),
                cached: capped(p.cached + t.cached),
                output: capped(p.output + t.output),
                ..p
            },
            None => p,
        }
    }
}

/// Some attempt, or the request as a whole, came without usage.
pub open spec fn lacks_usage(u: Seq<Option<Tokens>>) -> bool {
    u.len() == 0 || exists|i: int| 0 <= i < u.len() && #[trigger] u[i] is None
}

/// A day to which one request was added.
pub open spec fn accounted(d: Daily, model: Seq<char>, u: Seq<Option<Tokens>>) -> Daily {
    let counted = Daily { requests: (d.requests + 1) as u64, ..d };
    if excluded(model) {
        counted
    } else if lacks_usage(u) {
        tally(Daily { missing: (d.missing + 1) as u64, ..counted }, u)
    } else {
        tally(counted, u)
    }
}

/// What the client with an identifier used so far.
pub open spec fn client_of(l: Map<Seq<char>, ClientView>, id: Seq<char>) -> ClientView {
    if l.contains_key(id) {
        l[id]
    } else {
        new_client()
    }
}

/// What was used on a day so far.
pub open spec fn day_of(c: ClientView, d: i64) -> Daily {
    if c.days.contains_key(d) {
        c.days[d]
    } else {
        Daily::zero()
    }
}

/// The clients after one request at `at` was recorded at `now`.
pub open spec fn recorded(
    l: Map<Seq<char>, ClientView>,
    now: int,
    id: Seq<char>,
    name: Seq<char>,
    at: i64,
    model: Seq<char>,
    u: Seq<Option<Tokens>>,
) -> Map<Seq<char>, ClientView> {
    let today = clock::local_day(now);
    let kept = pruned(l, today);
    if clock::local_day(at as int) < today - 4 {
        kept
    } else {
        let c = client_of(kept, id);
        let d = clock::local_day(at as int) as i64;
        kept.insert(
            id,
            ClientView {
                name,
                last_used: if c.last_used > at {
                    c.last_used
                } else {
                    at
                },
                days: c.days.insert(d, accounted(day_of(c, d), model, u)),
            },
        )
    }
}

/// One more request of a client on a day can be counted.
pub open spec fn countable(l: Map<Seq<char>, ClientView>, id: Seq<char>, at: i64) -> bool {
    let d = day_of(client_of(l, id), clock::local_day(at as int) as i64);
    d.requests < u64::MAX && d.missing < u64::MAX
}

fn sum(a: u64, b: u64) -> (r: u64)
    ensures
        r == capped(a + b),
{
    a.saturating_add(b)
}

/// Adds one request to a day.
fn account(d: Daily, model: &str, attempts: &[Attempt]) -> (r: Daily)
    requires
        d.requests < u64::MAX,
        d.missing < u64::MAX,
    ensures
        r == accounted(d, model@, usages(attempts@)),
{
    let ghost u = usages(attempts@);
    let mut r = d;
    r.requests = r.requests + 1;
    let lowered = to_ascii_lowercase(model);
    if contains(&lowered, "glm") || contains(&lowered, "deepseek") {
        return r;
    }
    let mut missing = attempts.len() == 0;
    let mut i: usize = 0;
    while i < attempts.len()
        invariant
            i <= attempts@.len(),
            u == usages(attempts@),
            missing == (u.len() == 0 || exists|j: int| 0 <= j < i && #[trigger] u[j] is None),
        decreases attempts@.len() - i,
    {
        assert(u[i as int] == attempts@[i as int].usage);
        if attempts[i].usage.is_none() {
            missing = true;
        }
        i = i + 1;
    }
    if missing {
        r.missing = r.missing + 1;
    }
    let ghost start = r;
    i = 0;
    assert(u.take(0) =~= Seq::empty());
    while i < attempts.len()
        invariant
            i <= attempts@.len(),
            u == usages(attempts@),
            r == tally(start, u.take(i as int)),
        decreases attempts@.len() - i,
    {
        assert(u.take(i + 1).drop_last() =~= u.take(i as int));
        assert(u.take(i + 1).last() == attempts@[i as int].usage);
        match attempts[i].usage {
            Some(t) => {
                r.input = sum(r.input, t.input);
                r.cached = sum(r.cached, t.cached);
                r.output = sum(r.output, t.output);
            },
            None => {},
        }
        i = i + 1;
    }
    assert(u.take(u.len() as int) =~= u);
    r
}

impl Ledger {
    /// Drops what is older than the five days that end with the day of `now`.
    pub fn prune(&mut self, now: i64)
        requires
            now + 28800 <= i64::MAX,
        ensures
            final(self)@ == pruned(old(self)@, clock::local_day(now as int)),
    {
        let today = day(now);
        let mut left: Table<Client> = Table::new();
        std::mem::swap(&mut left, &mut self.clients);
        let mut kept: Table<Client> = Table::new();
        let ghost all = left@;
        let total = left.len();
        let mut done: usize = 0;
        while done < total
            invariant
                i64::MIN + 4 <= today < i64::MAX,
                done <= total,
                left@.dom().finite(),
                left@.dom().len() == total - done,
                forall|id: Seq<char>| #[trigger]
                    left@.contains_key(id) ==> all.contains_key(id) && left@[id] == all[id],
                forall|id: Seq<char>| #[trigger]
                    kept@.contains_key(id) ==> all.contains_key(id) && !left@.contains_key(id)
                        && kept@[id]@ == (ClientView {
                        days: kept_days(all[id]@.days, today as int),
                        ..all[id]@
                    }),
                forall|id: Seq<char>| #[trigger]
                    all.contains_key(id) && !left@.contains_key(id) ==> kept@.contains_key(id)
                        == active(all[id]@.days, today as int),
            decreases total - done,
        {
            match left.pop() {
                Some((id, c)) => {
                    let Client { name, last_used, days } = c;
                    let (days, any) = keep_days(days, today);
                    if any {
                        kept.insert(id, Client { name, last_used, days });
                    }
                },
                None => {},
            }
            done = done + 1;
        }
        assert(left@.dom() =~= Set::empty());
        self.clients = kept;
        assert(self@ =~= pruned(old(self)@, clock::local_day(now as int))) by {
            assert forall|id: Seq<char>| #[trigger]
                self@.contains_key(id) == pruned(
                    old(self)@,
                    clock::local_day(now as int),
                ).contains_key(id) by {
                assert(!left@.dom().contains(id));
                if all.contains_key(id) {
                    assert(old(self)@[id] == all[id]@);
                }
            }
        }
    }

    /// Adds one request to the day of `at`, as of `now`.
    pub fn record_at(
        &mut self,
        now: i64,
        id: &str,
        name: &str,
        at: i64,
        model: &str,
        attempts: &[Attempt],
    )
        requires
            now + 28800 <= i64::MAX,
            at + 28800 <= i64::MAX,
            countable(old(self)@, id@, at),
        ensures
            final(self)@ == recorded(
                old(self)@,
                now as int,
                id@,
                name@,
                at,
                model@,
                usages(attempts@),
            ),
    {
        broadcast use vstd::std_specs::btree::group_btree_axioms;

        self.prune(now);
        let ghost kept = self@;
        if day(at) < day(now) - 4 {
            return;
        }
        let mut c = match self.clients.remove(id) {
            Some(c) => c,
            None => Client::default(),
        };
        assert(c@ == client_of(kept, id@));
        c.name = name.to_owned();
        if at > c.last_used {
            c.last_used = at;
        }
        let d = day(at);
        let before = match c.days.get(&d) {
            Some(v) => *v,
            None => Daily::default(),
        };
        assert(before == day_of(client_of(kept, id@), d));
        assert(before == Daily::zero() || before == day_of(client_of(old(self)@, id@), d));
        c.days.insert(d, account(before, model, attempts));
        let ghost view = c@;
        self.clients.insert(id.to_owned(), c);
        assert(self@ =~= kept.insert(id@, view));
    }

    /// Adds one request to the day of `at`.
    pub fn record(&mut self, id: &str, name: &str, at: i64, model: &str, attempts: &[Attempt])
        requires
            at + 28800 <= i64::MAX,
            countable(old(self)@, id@, at),
        ensures
            exists|now: i64|
                clock::reading(now as int) && final(self)@ == #[trigger] recorded(
                    old(self)@,
                    now as int,
                    id@,
                    name@,
                    at,
                    model@,
                    usages(attempts@),
                ),
    {
        let now = clock::now();
        self.record_at(now, id, name, at, model, attempts);
    }
}

/// Only recent days are left after pruning, and pruning again on the same day changes nothing.
pub proof fn pruning_settles(l: Map<Seq<char>, ClientView>, today: int)
    ensures
        pruned(pruned(l, today), today) == pruned(l, today),
        forall|id: Seq<char>, d: i64|
            pruned(l, today).contains_key(id) && #[trigger] pruned(l, today)[id].days.contains_key(d)
                ==> recent(d as int, today) && l[id].days[d] == pruned(l, today)[id].days[d],
{
    let p = pruned(l, today);
    assert forall|id: Seq<char>| #[trigger] p.contains_key(id) implies pruned(
        p,
        today,
    ).contains_key(id) && pruned(p, today)[id] == p[id] by {
        let d = choose|d: i64| recent(d as int, today) && #[trigger] l[id].days.contains_key(d);
        assert(p[id].days.contains_key(d));
        assert(kept_days(p[id].days, today) =~= p[id].days);
    }
    assert(pruned(p, today) =~= p);
}

/// Adding tokens never lowers a count and leaves the numbers of requests alone.
pub proof fn tally_grows(d: Daily, u: Seq<Option<Tokens>>)
    ensures
        tally(d, u).requests == d.requests,
        tally(d, u).missing == d.missing,
        tally(d, u).input >= d.input,
        tally(d, u).cached >= d.cached,
        tally(d, u).output >= d.output,
    decreases u.len(),
{
    if u.len() > 0 {
        tally_grows(d, u.drop_last());
    }
}

/// A request of today counts once, whatever it was for, and only for the client that made it. One
/// for an excluded model changes no other number of the day.
pub proof fn one_request_counts_once(
    l: Map<Seq<char>, ClientView>,
    now: int,
    id: Seq<char>,
    name: Seq<char>,
    at: i64,
    model: Seq<char>,
    u: Seq<Option<Tokens>>,
    other: Seq<char>,
)
    requires
        at + 28800 <= i64::MAX,
        recent(clock::local_day(at as int), clock::local_day(now)),
        countable(l, id, at),
    ensures
        ({
            let d = clock::local_day(at as int) as i64;
            let before = day_of(client_of(l, id), d);
            let after = recorded(l, now, id, name, at, model, u);
            &&& after.contains_key(id)
            &&& day_of(after[id], d).requests == before.requests + 1
            &&& excluded(model) ==> day_of(after[id], d) == (Daily {
                requests: (before.requests + 1) as u64,
                ..before
            })
            &&& other != id ==> client_of(after, other) == client_of(
                pruned(l, clock::local_day(now)),
                other,
            )
        }),
{
    let today = clock::local_day(now);
    let d = clock::local_day(at as int) as i64;
    let kept = pruned(l, today);
    assert(d == clock::local_day(at as int));
    let b = day_of(client_of(l, id), d);
    if l.contains_key(id) && l[id].days.contains_key(d) {
        assert(kept.contains_key(id));
        assert(kept[id].days.contains_key(d));
    }
    assert(day_of(client_of(kept, id), d) == b);
    tally_grows(Daily { requests: (b.requests + 1) as u64, ..b }, u);
    tally_grows(
        Daily { requests: (b.requests + 1) as u64, missing: (b.missing + 1) as u64, ..b },
        u,
    );
}

/// Observes just the small `/response/usage` or `/usage` object, even in very large documents.
pub struct Scanner {
    pub invalid: bool,
    /// Each open container: its name, and the name of the member being read in it.
    pub stack: Vec<(String, String)>,
    pub token: Vec<u8>,
    pub string: bool,
    pub escape: bool,
    pub was_string: bool,
    pub pending: String,
    pub capture: Option<(usize, Vec<u8>)>,
    pub found: Option<Tokens>,
}

/// The mathematical model of [`Scanner`].
pub struct ScannerView {
    pub invalid: bool,
    pub stack: Seq<(Seq<char>, Seq<char>)>,
    pub token: Seq<u8>,
    pub string: bool,
    pub escape: bool,
    pub was_string: bool,
    pub pending: Seq<char>,
    pub capture: Option<(nat, Seq<u8>)>,
    pub found: Option<Tokens>,
}

impl View for Scanner {
    type V = ScannerView;

    open spec fn view(&self) -> ScannerView {
        ScannerView {
            invalid: self.invalid,
            stack: json::pair_views(self.stack@),
            token: self.token@,
            string: self.string,
            escape: self.escape,
            was_string: self.was_string,
            pending: self.pending@,
            capture: match self.capture {
                Some((depth, raw)) => Some((depth as nat, raw@)),
                None => None,
            },
            found: self.found,
        }
    }
}

/// One more byte of a bounded token.
pub open spec fn kept_token(token: Seq<u8>, b: u8) -> Seq<u8> {
    if token.len() < 128 {
        token.push(b)
    } else {
        token
    }
}

impl ScannerView {
    /// A scanner before the first byte.
    pub open spec fn fresh() -> ScannerView {
        ScannerView {
            invalid: false,
            stack: Seq::empty(),
            token: Seq::empty(),
            string: false,
            escape: false,
            was_string: false,
            pending: Seq::empty(),
            capture: None,
            found: None,
        }
    }

    /// The scanner with one more byte in what it captures; too long a capture is given up.
    pub open spec fn captured(self, b: u8) -> ScannerView {
        ScannerView {
            capture: match self.capture {
                Some((depth, raw)) => if raw.len() < 16384 {
                    Some((depth, raw.push(b)))
                } else {
                    None
                },
                None => None,
            },
            ..self
        }
    }

    /// A byte inside a string.
    pub open spec fn in_string(self, b: u8) -> ScannerView {
        if self.escape {
            ScannerView { escape: false, token: kept_token(self.token, b), ..self }
        } else if b == ascii::BACKSLASH {
            ScannerView { escape: true, ..self }
        } else if b == ascii::QUOTE {
            ScannerView {
                string: false,
                was_string: true,
                pending: text::lossy(self.token),
                ..self
            }
        } else {
            ScannerView { token: kept_token(self.token, b), ..self }
        }
    }

    /// The innermost container reads the member with a name.
    pub open spec fn naming(self, name: Seq<char>) -> ScannerView {
        ScannerView {
            stack: if self.stack.len() == 0 {
                self.stack
            } else {
                self.stack.drop_last().push((self.stack.last().0, name))
            },
            ..self
        }
    }

    /// The name under which a container that starts now stands.
    pub open spec fn key(self) -> Seq<char> {
        if self.stack.len() == 0 {
            Seq::empty()
        } else {
            self.stack.last().1
        }
    }

    /// An object that starts now is the one with the usage.
    pub open spec fn at_usage(self) -> bool {
        self.key() == "usage"@ && (self.stack.len() == 1 || (self.stack.len() == 2
            && self.stack[1].0 == "response"@))
    }

    /// A container starts.
    pub open spec fn opened(self, b: u8) -> ScannerView {
        ScannerView {
            stack: self.stack.push((self.key(), Seq::empty())),
            capture: if b == ascii::OPEN_OBJECT && self.at_usage() {
                Some((self.stack.len() + 1, seq![b]))
            } else {
                self.capture
            },
            was_string: false,
            ..self
        }
    }

    /// A container ends.
    pub open spec fn closed(self) -> ScannerView {
        let popped = ScannerView {
            stack: if self.stack.len() == 0 {
                self.stack
            } else {
                self.stack.drop_last()
            },
            was_string: false,
            ..self
        };
        match self.capture {
            Some((depth, raw)) => if depth == self.stack.len() {
                ScannerView {
                    capture: None,
                    found: match json::parsed(raw) {
                        Some(v) => Tokens::reported(v),
                        None => self.found,
                    },
                    ..popped
                }
            } else {
                popped
            },
            None => popped,
        }
    }

    /// A byte outside of strings.
    pub open spec fn between(self, b: u8) -> ScannerView {
        if b == ascii::QUOTE {
            ScannerView { string: true, token: Seq::empty(), ..self }
        } else if b == ascii::COLON {
            if self.was_string && self.stack.len() > 0 {
                ScannerView {
                    pending: Seq::empty(),
                    was_string: false,
                    ..self.naming(self.pending)
                }
            } else {
                ScannerView { was_string: false, ..self }
            }
        } else if b == ascii::OPEN_OBJECT || b == ascii::OPEN_ARRAY {
            self.opened(b)
        } else if b == ascii::CLOSE_OBJECT || b == ascii::CLOSE_ARRAY {
            self.closed()
        } else if b == ascii::COMMA {
            ScannerView { was_string: false, ..self.naming(Seq::empty()) }
        } else {
            self
        }
    }

    /// The scanner after one more byte.
    pub open spec fn step(self, b: u8) -> ScannerView {
        if self.invalid {
            self
        } else if self.stack.len() > 128 {
            ScannerView { invalid: true, capture: None, stack: Seq::empty(), ..self }
        } else if self.string {
            self.captured(b).in_string(b)
        } else {
            self.captured(b).between(b)
        }
    }

    /// The scanner after several more bytes.
    pub open spec fn scan(self, bytes: Seq<u8>) -> ScannerView
        decreases bytes.len(),
    {
        if bytes.len() == 0 {
            self
        } else {
            self.scan(bytes.drop_last()).step(bytes.last())
        }
    }

    /// The container at a depth is `/usage` or `/response/usage`.
    pub open spec fn usage_path(self, depth: nat) -> bool {
        &&& depth <= self.stack.len()
        &&& depth == 2 || depth == 3
        &&& depth == 2 ==> self.stack[1].0 == "usage"@
        &&& depth == 3 ==> self.stack[1].0 == "response"@ && self.stack[2].0 == "usage"@
    }

    /// Everything that the scanner holds is bounded, and it captures only where the usage stands.
    pub open spec fn sound(self) -> bool {
        &&& self.stack.len() <= 129
        &&& self.token.len() <= 128
        &&& match self.capture {
            Some((depth, raw)) => raw.len() <= 16384 && self.usage_path(depth),
            None => true,
        }
    }
}

impl Default for Scanner {
    fn default() -> (r: Self)
        ensures
            r@ == ScannerView::fresh(),
    {
        let r = Scanner {
            invalid: false,
            stack: Vec::new(),
            token: Vec::new(),
            string: false,
            escape: false,
            was_string: false,
            pending: String::new(),
            capture: None,
            found: None,
        };
        assert(r@.stack =~= Seq::empty());
        assert(r@.token =~= Seq::empty());
        assert(r@.pending =~= Seq::empty());
        r
    }
}

impl Scanner {
    fn keep(&mut self, b: u8)
        ensures
            final(self)@ == (ScannerView { token: kept_token(old(self)@.token, b), ..old(self)@ }),
    {
        if self.token.len() < 128 {
            self.token.push(b);
        }
    }

    fn capture_byte(&mut self, b: u8)
        ensures
            final(self)@ == old(self)@.captured(b),
    {
        let capture = self.capture.take();
        match capture {
            Some((depth, mut raw)) => {
                if raw.len() < 16384 {
                    raw.push(b);
                    self.capture = Some((depth, raw));
                }
            },
            None => {},
        }
    }

    fn name(&mut self, name: String)
        ensures
            final(self)@ == old(self)@.naming(name@),
    {
        match self.stack.pop() {
            Some((own, _)) => {
                self.stack.push((own, name));
                assert(self@.stack =~= old(self)@.naming(name@).stack);
            },
            None => {
                assert(self@.stack =~= old(self)@.stack);
            },
        }
    }

    fn open(&mut self, b: u8)
        requires
            old(self)@.stack.len() <= 128,
        ensures
            final(self)@ == old(self)@.opened(b),
    {
        let n = self.stack.len();
        let key = if n == 0 {
            let empty = String::new();
            assert(empty@ =~= Seq::empty());
            empty
        } else {
            self.stack[n - 1].1.clone()
        };
        assert(key@ == self@.key());
        let target = b == ascii::OPEN_OBJECT && same(&key, "usage") && (n == 1 || (n == 2 && same(
            &self.stack[1].0,
            "response",
        )));
        let empty = String::new();
        assert(empty@ =~= Seq::empty());
        self.stack.push((key, empty));
        assert(self@.stack =~= old(self)@.opened(b).stack);
        if target {
            let mut raw: Vec<u8> = Vec::new();
            raw.push(b);
            assert(raw@ =~= seq![b]);
            self.capture = Some((n + 1, raw));
        }
        self.was_string = false;
    }

    fn close(&mut self)
        ensures
            final(self)@ == old(self)@.closed(),
    {
        let capture = self.capture.take();
        match capture {
            Some((depth, raw)) => {
                if depth == self.stack.len() {
                    match json::parse(raw.as_slice()) {
                        Some(v) => {
                            self.found = Tokens::parse(Some(&v));
                        },
                        None => {},
                    }
                } else {
                    self.capture = Some((depth, raw));
                }
            },
            None => {},
        }
        self.stack.pop();
        self.was_string = false;
        assert(self@.stack =~= old(self)@.closed().stack);
    }

    /// Takes the next byte of the document.
    pub fn byte(&mut self, b: u8)
        ensures
            final(self)@ == old(self)@.step(b),
    {
        if self.invalid {
            return;
        }
        if self.stack.len() > 128 {
            self.invalid = true;
            self.capture = None;
            self.stack.clear();
            assert(self@.stack =~= Seq::empty());
            return;
        }
        self.capture_byte(b);
        if self.string {
            if self.escape {
                self.escape = false;
                self.keep(b);
            } else if b == ascii::BACKSLASH {
                self.escape = true;
            } else if b == ascii::QUOTE {
                self.string = false;
                self.was_string = true;
                self.pending = from_utf8_lossy(self.token.as_slice());
            } else {
                self.keep(b);
            }
            return;
        }
        if b == ascii::QUOTE {
            self.string = true;
            self.token.clear();
            assert(self@.token =~= Seq::empty());
        } else if b == ascii::COLON {
            if self.was_string && self.stack.len() > 0 {
                let mut name = String::new();
                assert(name@ =~= Seq::empty());
                std::mem::swap(&mut name, &mut self.pending);
                self.name(name);
            }
            self.was_string = false;
        } else if b == ascii::OPEN_OBJECT || b == ascii::OPEN_ARRAY {
            self.open(b);
        } else if b == ascii::CLOSE_OBJECT || b == ascii::CLOSE_ARRAY {
            self.close();
        } else if b == ascii::COMMA {
            let empty = String::new();
            assert(empty@ =~= Seq::empty());
            self.name(empty);
            self.was_string = false;
        }
    }
}

/// Whatever bytes a scanner has taken, what it holds is bounded and it captures only the object at
/// `/usage` or `/response/usage`.
pub proof fn scanner_stays_sound(bytes: Seq<u8>)
    ensures
        ScannerView::fresh().scan(bytes).sound(),
    decreases bytes.len(),
{
    if bytes.len() > 0 {
        scanner_stays_sound(bytes.drop_last());
        step_keeps_sound(ScannerView::fresh().scan(bytes.drop_last()), bytes.last());
    }
}

/// One byte keeps a scanner sound.
pub proof fn step_keeps_sound(s: ScannerView, b: u8)
    requires
        s.sound(),
    ensures
        s.step(b).sound(),
{
    reveal_strlit("usage");
    reveal_strlit("response");
}

/// What a scanner found changes only where the captured object ends, and is then what that object
/// reports.
pub proof fn usage_comes_from_its_place(s: ScannerView, b: u8)
    requires
        s.sound(),
        s.step(b).found != s.found,
    ensures
        b == ascii::CLOSE_OBJECT || b == ascii::CLOSE_ARRAY,
        match s.capture {
            Some((depth, raw)) => {
                &&& depth == s.stack.len()
                &&& s.usage_path(depth)
                &&& json::parsed(raw.push(b)) is Some
                &&& s.step(b).found == Tokens::reported(json::parsed(raw.push(b))->0)
            },
            None => false,
        },
{
}

/// Scanning in two parts is scanning at once.
pub proof fn scan_in_parts(s: ScannerView, a: Seq<u8>, b: Seq<u8>)
    ensures
        s.scan(a + b) == s.scan(a).scan(b),
    decreases b.len(),
{
    if b.len() == 0 {
        assert(a + b =~= a);
    } else {
        assert((a + b).drop_last() =~= a + b.drop_last());
        scan_in_parts(s, a, b.drop_last());
    }
}

/// Tokens are reported where both input and output are, as natural numbers; cached ones count as none
/// where they are not.
pub proof fn tokens_are_read(v: JsonView)
    ensures
        ({
            let input = v.at("input_tokens"@).as_uint();
            let output = v.at("output_tokens"@).as_uint();
            let cached = v.at("input_tokens_details"@).at("cached_tokens"@).as_uint();
            let t = Tokens::reported(v);
            &&& t is Some <==> input is Some && output is Some
            &&& t is Some ==> t->0.input == input->0 && t->0.output == output->0
            &&& t is Some && cached is Some ==> t->0.cached == cached->0
            &&& t is Some && cached is None ==> t->0.cached == 0
        }),
{
}

/// A local day runs for twenty-four hours, and starts at four in the afternoon of the day before in
/// Greenwich.
pub proof fn days_start_in_the_afternoon(t: int)
    ensures
        clock::local_day(t) * 86400 <= t + 28800 < (clock::local_day(t) + 1) * 86400,
{
}

/// A client is kept exactly while it used something on one of the five days that end with the present
/// one, with exactly those of its days, as they were.
pub proof fn five_days_are_kept(l: Map<Seq<char>, ClientView>, today: int, id: Seq<char>, d: i64)
    ensures
        pruned(l, today).contains_key(id) <==> l.contains_key(id) && exists|k: i64|
            today - 4 <= k <= today && #[trigger] l[id].days.contains_key(k),
        pruned(l, today).contains_key(id) ==> ({
            let c = pruned(l, today)[id];
            &&& c.name == l[id].name && c.last_used == l[id].last_used
            &&& c.days.contains_key(d) <==> l[id].days.contains_key(d) && today - 4 <= d <= today
            &&& c.days.contains_key(d) ==> c.days[d] == l[id].days[d]
        }),
{
    if l.contains_key(id) {
        if active(l[id].days, today) {
            let k = choose|k: i64| recent(k as int, today) && #[trigger] l[id].days.contains_key(k);
            assert(today - 4 <= k <= today);
        }
        if exists|k: i64| today - 4 <= k <= today && #[trigger] l[id].days.contains_key(k) {
            let k = choose|k: i64| today - 4 <= k <= today && #[trigger] l[id].days.contains_key(k);
            assert(recent(k as int, today));
        }
    }
}

/// Tokens of attempts add up one by one, and stay at the largest number where they would pass it; an
/// attempt without usage adds none.
pub proof fn tokens_add_up(d: Daily, u: Seq<Option<Tokens>>, t: Tokens)
    ensures
        tally(d, Seq::empty()) == d,
        tally(d, u.push(None)) == tally(d, u),
        ({
            let a = tally(d, u);
            let b = tally(d, u.push(Some(t)));
            &&& a.input + t.input <= u64::MAX ==> b.input == a.input + t.input
            &&& a.input + t.input > u64::MAX ==> b.input == u64::MAX
            &&& a.cached + t.cached <= u64::MAX ==> b.cached == a.cached + t.cached
            &&& a.cached + t.cached > u64::MAX ==> b.cached == u64::MAX
            &&& a.output + t.output <= u64::MAX ==> b.output == a.output + t.output
            &&& a.output + t.output > u64::MAX ==> b.output == u64::MAX
            &&& b.requests == a.requests && b.missing == a.missing
        }),
{
    assert(u.push(None).drop_last() =~= u);
    assert(u.push(Some(t)).drop_last() =~= u);
}

/// A request counts as missing its usage where it made no attempt, or some attempt came without usage,
/// unless its model is of a family that is never accounted. Of such a model, written in whatever case,
/// no tokens are added either.
pub proof fn missing_usage_is_counted(d: Daily, model: Seq<char>, u: Seq<Option<Tokens>>)
    requires
        d.requests < u64::MAX,
        d.missing < u64::MAX,
    ensures
        ({
            let t = accounted(d, model, u);
            let ignored = text::contained(text::lowered(model), "glm"@) || text::contained(
                text::lowered(model),
                "deepseek"@,
            );
            let missing = u.len() == 0 || exists|i: int| 0 <= i < u.len() && #[trigger] u[i] is None;
            &&& t.requests == d.requests + 1
            &&& t.missing == if !ignored && missing {
                d.missing + 1
            } else {
                d.missing as int
            }
            &&& ignored ==> t.input == d.input && t.cached == d.cached && t.output == d.output
            &&& !ignored ==> t.input == tally(d, u).input && t.cached == tally(d, u).cached
                && t.output == tally(d, u).output
        }),
{
    tally_grows(Daily { requests: (d.requests + 1) as u64, ..d }, u);
    tally_grows(
        Daily { requests: (d.requests + 1) as u64, missing: (d.missing + 1) as u64, ..d },
        u,
    );
    same_tokens(d, Daily { requests: (d.requests + 1) as u64, ..d }, u);
    same_tokens(
        d,
        Daily { requests: (d.requests + 1) as u64, missing: (d.missing + 1) as u64, ..d },
        u,
    );
}

proof fn same_tokens(a: Daily, b: Daily, u: Seq<Option<Tokens>>)
    requires
        a.input == b.input,
        a.cached == b.cached,
        a.output == b.output,
    ensures
        tally(a, u).input == tally(b, u).input,
        tally(a, u).cached == tally(b, u).cached,
        tally(a, u).output == tally(b, u).output,
    decreases u.len(),
{
    if u.len() > 0 {
        same_tokens(a, b, u.drop_last());
    }
}

/// A request goes to the local day of its time, under the client's present name, and the last use is
/// the latest seen. One from before the days that are kept leaves no trace.
pub proof fn requests_go_to_their_day(
    l: Map<Seq<char>, ClientView>,
    now: int,
    id: Seq<char>,
    name: Seq<char>,
    at: i64,
    model: Seq<char>,
    u: Seq<Option<Tokens>>,
    d: i64,
)
    requires
        at + 28800 <= i64::MAX,
        0 <= now,
    ensures
        ({
            let today = clock::local_day(now);
            let own = clock::local_day(at as int);
            let before = client_of(pruned(l, today), id);
            let after = recorded(l, now, id, name, at, model, u);
            &&& own < today - 4 ==> after == pruned(l, today)
            &&& own >= today - 4 ==> {
                &&& after.contains_key(id)
                &&& after[id].name == name
                &&& after[id].last_used >= at && after[id].last_used >= before.last_used
                &&& after[id].last_used == at || after[id].last_used == before.last_used
                &&& after[id].days.contains_key(own as i64)
                &&& after[id].days[own as i64] == accounted(day_of(before, own as i64), model, u)
                &&& d != own ==> day_of(after[id], d) == day_of(before, d)
            }
        }),
{
}

/// What is read of usage is the object under `usage` of the document itself or of its `response`: at
/// its opening brace, and nowhere else, the scanner starts to keep bytes.
pub proof fn usage_objects_are_kept(s: ScannerView)
    requires
        !s.invalid,
        !s.string,
        s.stack.len() <= 128,
        s.capture is None,
    ensures
        s.step(ascii::OPEN_OBJECT).capture is Some <==> {
            ||| s.stack.len() == 1 && s.stack[0].1 == "usage"@
            ||| s.stack.len() == 2 && s.stack[1].1 == "usage"@ && s.stack[1].0 == "response"@
        },
        s.step(ascii::OPEN_OBJECT).capture is Some ==> s.step(ascii::OPEN_OBJECT).capture == Some(
            ((s.stack.len() + 1) as nat, seq![ascii::OPEN_OBJECT]),
        ),
        s.step(ascii::OPEN_ARRAY).capture is None,
        s.step(ascii::OPEN_OBJECT).stack.len() == s.stack.len() + 1,
        s.step(ascii::OPEN_ARRAY).stack.len() == s.stack.len() + 1,
        s.stack.len() > 0 ==> s.step(ascii::CLOSE_OBJECT).stack == s.stack.drop_last(),
{
}

/// At the end of the object that is kept, what it reports is found.
pub proof fn kept_usage_is_reported(s: ScannerView, raw: Seq<u8>)
    requires
        !s.invalid,
        !s.string,
        s.stack.len() <= 128,
        s.capture == Some((s.stack.len(), raw)),
        raw.len() < 16384,
        json::parsed(raw.push(ascii::CLOSE_OBJECT)) is Some,
    ensures
        s.step(ascii::CLOSE_OBJECT).found == Tokens::reported(
            json::parsed(raw.push(ascii::CLOSE_OBJECT))->0,
        ),
        s.step(ascii::CLOSE_OBJECT).capture is None,
{
}

/// The name of a member is the string before the colon, in the container that is open.
pub proof fn members_are_named(s: ScannerView)
    requires
        !s.invalid,
        !s.string,
        0 < s.stack.len() <= 128,
    ensures
        s.was_string ==> s.step(ascii::COLON).stack == s.stack.drop_last().push(
            (s.stack.last().0, s.pending),
        ),
        !s.was_string ==> s.step(ascii::COLON).stack == s.stack,
        s.step(ascii::COMMA).stack == s.stack.drop_last().push((s.stack.last().0, Seq::empty())),
        !s.step(ascii::COMMA).was_string && !s.step(ascii::COLON).was_string,
{
}

/// The bytes of a string become the name that is pending at its closing quote; escaped quotes do not
/// close it.
pub proof fn strings_are_pending(s: ScannerView, b: u8)
    requires
        !s.invalid,
        s.stack.len() <= 128,
    ensures
        !s.string ==> s.step(ascii::QUOTE).string && s.step(ascii::QUOTE).token.len() == 0,
        s.string && !s.escape ==> !s.step(ascii::QUOTE).string && s.step(ascii::QUOTE).was_string
            && s.step(ascii::QUOTE).pending == text::lossy(s.token),
        s.string && s.escape ==> s.step(ascii::QUOTE).string && !s.step(ascii::QUOTE).escape,
        s.string && !s.escape ==> s.step(ascii::BACKSLASH).escape && s.step(ascii::BACKSLASH).token
            == s.token,
        s.string && !s.escape && b != ascii::QUOTE && b != ascii::BACKSLASH && s.token.len() < 128
            ==> s.step(b).token == s.token.push(b) && s.step(b).string,
        s.string ==> s.step(b).stack == s.stack && s.step(b).found == s.found,
{
}

/// A container stands under the name that was read last in the one around it, and starts without a name
/// of its own.
pub proof fn containers_are_named(s: ScannerView)
    requires
        !s.invalid,
        !s.string,
        0 < s.stack.len() <= 128,
    ensures
        s.step(ascii::OPEN_OBJECT).stack == s.stack.push((s.stack.last().1, Seq::empty())),
        s.step(ascii::OPEN_ARRAY).stack == s.stack.push((s.stack.last().1, Seq::empty())),
        s.step(ascii::CLOSE_ARRAY).stack == s.stack.drop_last(),
{
}

/// Every byte of the object that is kept is kept, up to sixteen kibibytes; a longer one is given up.
pub proof fn kept_bytes_are_kept(s: ScannerView, b: u8, depth: nat, raw: Seq<u8>)
    requires
        !s.invalid,
        s.stack.len() <= 128,
        s.capture == Some((depth, raw)),
        s.string || b != ascii::OPEN_OBJECT && b != ascii::CLOSE_OBJECT && b != ascii::CLOSE_ARRAY,
    ensures
        raw.len() < 16384 ==> s.step(b).capture == Some((depth, raw.push(b))),
        raw.len() >= 16384 ==> s.step(b).capture is None,
        s.step(b).found == s.found,
{
}

/// An object that is kept but reads as no document leaves what was found before.
pub proof fn unreadable_usage_is_ignored(s: ScannerView, raw: Seq<u8>)
    requires
        !s.invalid,
        !s.string,
        s.stack.len() <= 128,
        s.capture == Some((s.stack.len(), raw)),
        raw.len() < 16384,
        json::parsed(raw.push(ascii::CLOSE_OBJECT)) is None,
    ensures
        s.step(ascii::CLOSE_OBJECT).found == s.found,
        s.step(ascii::CLOSE_OBJECT).capture is None,
{
}

/// A document of more than a hundred and twenty-eight levels is given up for good.
pub proof fn deep_documents_are_given_up(s: ScannerView, b: u8)
    ensures
        s.invalid ==> s.step(b) == s,
        !s.invalid && s.stack.len() > 128 ==> s.step(b).invalid && s.step(b).capture is None && s.step(
            b,
        ).found == s.found,
        !s.invalid && s.stack.len() <= 128 ==> !s.step(b).invalid,
{
}

/// Who was never seen used nothing yet.
pub proof fn unknown_clients_used_nothing(l: Map<Seq<char>, ClientView>, id: Seq<char>, d: i64)
    requires
        !l.contains_key(id),
    ensures
        ({
            let day = day_of(client_of(l, id), d);
            &&& day.requests == 0 && day.missing == 0
            &&& day.input == 0 && day.cached == 0 && day.output == 0
            &&& client_of(l, id).last_used == 0
        }),
{
}

} // verus!
