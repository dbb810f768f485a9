//! Administration: who is let in, what is shown, and what a saved configuration changes.
use crate::balance::{Adapter, Allowance, AllowanceView};
use crate::clock;
use crate::config;
use crate::config::{Channel, Config, Key, Model, Monitor, MonitorPeriod};
use crate::json;
use crate::json::{at, bool_of, member, object, str_of, Json, JsonView};
use crate::monitor;
use crate::random;
use crate::scheduler::Place;
use crate::secret;
use crate::state;
use crate::state::{KeyView, Notice, NoticeView, Quality, QualityView, State};
use crate::table::Table;
use crate::text;
use crate::text::{is_empty, same, size, split, strip_prefix, trim};
use std::collections::VecDeque;
use vstd::prelude::*;
use vstd::string::*;

verus! {

/// The session that the first pieces of a cookie name.
pub open spec fn session_in(pieces: Seq<Seq<char>>) -> Option<Seq<char>>
    decreases pieces.len(),
{
    if pieces.len() == 0 {
        None
    } else {
        match session_in(pieces.drop_last()) {
            Some(t) => Some(t),
            None => text::after(text::trimmed(pieces.last()), "forest_session="@),
        }
    }
}

/// The session that a cookie names.
pub open spec fn session_of(cookie: Seq<char>) -> Option<Seq<char>> {
    session_in(text::pieces(cookie, ';'))
}

proof fn session_stays(s: Seq<Seq<char>>, n: int)
    requires
        0 <= n <= s.len(),
        session_in(s.take(n)) is Some,
    ensures
        session_in(s) == session_in(s.take(n)),
    decreases s.len(),
{
    if n == s.len() {
        assert(s.take(n) =~= s);
    } else {
        assert(s.drop_last().take(n) =~= s.take(n));
        session_stays(s.drop_last(), n);
    }
}

/// The session that a cookie names.
pub fn session_token(cookie: &str) -> (r: Option<String>)
    ensures
        text::opt_view(r) == session_of(cookie@),
{
    let parts = split(cookie, ';');
    let ghost s = text::views(parts@);
    assert(s.len() == parts@.len());
    assert(s.take(0) =~= Seq::empty());
    let mut i: usize = 0;
    while i < parts.len()
        invariant
            i <= parts@.len(),
            s == text::views(parts@),
            s == text::pieces(cookie@, ';'),
            session_in(s.take(i as int)) is None,
        decreases parts@.len() - i,
    {
        assert(s.take(i + 1).drop_last() =~= s.take(i as int));
        assert(s[i as int] == parts@[i as int]@);
        match strip_prefix(trim(parts[i].as_str()).as_str(), "forest_session=") {
            Some(t) => {
                proof {
                    session_stays(s, i + 1);
                }
                return Some(t);
            },
            None => {},
        }
        i = i + 1;
    }
    assert(s.take(s.len() as int) =~= s);
    None
}

/// Open sessions, each with the time at which it ends.
pub struct Sessions {
    pub open: Table<i64>,
}

/// The sessions that have not ended.
pub open spec fn live(m: Map<Seq<char>, i64>, now: i64) -> Map<Seq<char>, i64> {
    m.restrict(Set::new(|t: Seq<char>| m.contains_key(t) && m[t] > now))
}

/// A session ends before all others, or with them.
pub open spec fn ends_first(m: Map<Seq<char>, i64>, t: Seq<char>) -> bool {
    m.contains_key(t) && forall|u: Seq<char>| #[trigger] m.contains_key(u) ==> m[t] <= m[u]
}

/// A session was opened among those that had not ended. The sixteenth takes the place of one that would
/// have ended first.
pub open spec fn opened(
    before: Map<Seq<char>, i64>,
    after: Map<Seq<char>, i64>,
    token: Seq<char>,
    now: i64,
) -> bool {
    let kept = live(before, now);
    let end = (now + 43200) as i64;
    if kept.dom().len() >= 16 {
        exists|t: Seq<char>| #[trigger]
            ends_first(kept, t) && after == kept.remove(t).insert(token, end)
    } else {
        after == kept.insert(token, end)
    }
}

impl Sessions {
    /// No session is open.
    pub fn new() -> (r: Self)
        ensures
            r.open@ == Map::<Seq<char>, i64>::empty(),
    {
        Sessions { open: Table::new() }
    }

    fn drop_ended(&mut self, now: i64)
        ensures
            final(self).open@ == live(old(self).open@, now),
    {
        let ghost before = self.open@;
        let alive = |_t: &String, end: &i64| -> (r: bool)
            ensures
                r == (*end > now),
            { *end > now };
        self.open.retain(alive);
        assert(self.open@ =~= live(before, now));
    }

    /// Whether a cookie names a session that has not ended by a time. Ended ones are forgotten.
    pub fn authorized_at(&mut self, cookie: Option<&str>, now: i64) -> (r: bool)
        ensures
            match cookie {
                Some(c) => match session_of(c@) {
                    Some(t) => {
                        &&& final(self).open@ == live(old(self).open@, now)
                        &&& r == live(old(self).open@, now).contains_key(t)
                    },
                    None => !r && *final(self) == *old(self),
                },
                None => !r && *final(self) == *old(self),
            },
    {
        match cookie {
            Some(c) => match session_token(c) {
                Some(t) => {
                    self.drop_ended(now);
                    self.open.contains(t.as_str())
                },
                None => false,
            },
            None => false,
        }
    }

    /// Whether a cookie names a session that has not ended.
    pub fn authorized(&mut self, cookie: Option<&str>) -> (r: bool)
        ensures
            match cookie {
                Some(c) => match session_of(c@) {
                    Some(t) => exists|now: i64|
                        {
                            &&& clock::reading(now as int)
                            &&& final(self).open@ == #[trigger] live(old(self).open@, now)
                            &&& r == live(old(self).open@, now).contains_key(t)
                        },
                    None => !r && *final(self) == *old(self),
                },
                None => !r && *final(self) == *old(self),
            },
    {
        let now = clock::now();
        self.authorized_at(cookie, now)
    }

    fn first_to_end(&self) -> (r: String)
        requires
            self.open@.dom().len() > 0,
        ensures
            ends_first(self.open@, r@),
    {
        let keys = self.open.keys();
        let mut best: usize = 0;
        assert(self.open@.contains_key(keys@[0]@));
        let mut end: i64 = match self.open.get(keys[0].as_str()) {
            Some(e) => *e,
            None => 0,
        };
        let mut i: usize = 1;
        while i < keys.len()
            invariant
                1 <= i <= keys@.len(),
                best < i,
                forall|k: int|
                    0 <= k < keys@.len() ==> self.open@.contains_key(#[trigger] keys@[k]@),
                end == self.open@[keys@[best as int]@],
                forall|k: int| 0 <= k < i ==> end <= self.open@[#[trigger] keys@[k]@],
            decreases keys@.len() - i,
        {
            assert(self.open@.contains_key(keys@[i as int]@));
            match self.open.get(keys[i].as_str()) {
                Some(e) => {
                    if *e < end {
                        end = *e;
                        best = i;
                    }
                },
                None => {},
            }
            i = i + 1;
        }
        let r = keys[best].clone();
        assert forall|u: Seq<char>| #[trigger] self.open@.contains_key(u) implies self.open@[r@]
            <= self.open@[u] by {
            let k = choose|k: int| 0 <= k < keys@.len() && #[trigger] keys@[k]@ == u;
            assert(end <= self.open@[keys@[k]@]);
        }
        r
    }

    /// Opens a session for twelve hours from a time.
    pub fn open_at(&mut self, token: String, now: i64)
        requires
            now + 43200 <= i64::MAX,
        ensures
            opened(old(self).open@, final(self).open@, token@, now),
    {
        self.drop_ended(now);
        let ghost kept = self.open@;
        if self.open.len() >= 16 {
            let t = self.first_to_end();
            self.open.remove(t.as_str());
            assert(ends_first(kept, t@));
        }
        self.open.insert(token, now + 43200);
    }

    /// Ends all sessions.
    pub fn clear(&mut self)
        ensures
            final(self).open@ == Map::<Seq<char>, i64>::empty(),
    {
        self.open = Table::new();
    }
}

/// Two hexadecimal digits for each of the first bytes.
pub open spec fn hex_of(bytes: Seq<u8>) -> Seq<char>
    decreases bytes.len(),
{
    if bytes.len() == 0 {
        Seq::empty()
    } else {
        hex_of(bytes.drop_last()) + text::hex(bytes.last() as nat, 2)
    }
}

/// Bytes in hexadecimal.
pub fn hex(bytes: &Vec<u8>) -> (r: String)
    ensures
        r@ == hex_of(bytes@),
{
    let mut r = String::new();
    let mut i: usize = 0;
    assert(r@ =~= hex_of(bytes@.take(0)));
    while i < bytes.len()
        invariant
            i <= bytes@.len(),
            r@ == hex_of(bytes@.take(i as int)),
        decreases bytes@.len() - i,
    {
        assert(bytes@.take(i + 1).drop_last() =~= bytes@.take(i as int));
        r.append(text::hexadecimal(bytes[i] as u128, 2).as_str());
        i = i + 1;
    }
    assert(bytes@.take(bytes@.len() as int) =~= bytes@);
    r
}

/// A token for a session: thirty-two random bytes in hexadecimal.
pub fn new_token() -> (r: String)
    ensures
        exists|bytes: Seq<u8>| bytes.len() == 32 && r@ == #[trigger] hex_of(bytes),
{
    let bytes = random::random_bytes();
    hex(&bytes)
}

/// The header that gives a browser its session.
pub open spec fn cookie_of(token: Seq<char>) -> Seq<char> {
    "forest_session="@ + token + "; HttpOnly; SameSite=Strict; Path=/; Max-Age=43200"@
}

/// The header that gives a browser its session.
pub fn session_cookie(token: &str) -> (r: String)
    ensures
        r@ == cookie_of(token@),
{
    "forest_session=".to_owned().concat(token).concat(
        "; HttpOnly; SameSite=Strict; Path=/; Max-Age=43200",
    )
}

/// Failed logins since the last good one, and until when no other is taken.
#[derive(Clone, Copy, Debug, PartialEq, Eq, Structural)]
pub struct LoginBrake {
    pub failures: u32,
    pub until: i64,
}

/// The seconds for which no login is taken after a number of failures.
pub open spec fn pause(failures: u32) -> int {
    if failures == 5 {
        1
    } else if failures == 6 {
        2
    } else if failures == 7 {
        4
    } else if failures == 8 {
        8
    } else if failures == 9 {
        16
    } else if failures == 10 {
        32
    } else {
        60
    }
}

impl LoginBrake {
    /// No login failed.
    pub fn new() -> (r: Self)
        ensures
            r == (LoginBrake { failures: 0, until: 0 }),
    {
        LoginBrake { failures: 0, until: 0 }
    }

    /// Whether no login is taken at a time.
    pub fn closed(&self, now: i64) -> (r: bool)
        ensures
            r == (self.until > now),
    {
        self.until > now
    }

    /// The brake after one more failed login.
    pub open spec fn failed(self, now: int) -> LoginBrake {
        let failures = if self.failures == u32::MAX {
            u32::MAX
        } else {
            (self.failures + 1) as u32
        };
        LoginBrake {
            failures,
            until: if failures >= 5 {
                (now + pause(failures)) as i64
            } else {
                self.until
            },
        }
    }

    /// Notes a failed login. From the fifth on each one holds logins off for longer, up to a minute.
    pub fn fail(&mut self, now: i64)
        requires
            now + 60 <= i64::MAX,
        ensures
            *final(self) == old(self).failed(now as int),
    {
        self.failures = self.failures.saturating_add(1);
        if self.failures >= 5 {
            let wait: i64 = match self.failures {
                5 => 1,
                6 => 2,
                7 => 4,
                8 => 8,
                9 => 16,
                10 => 32,
                _ => 60,
            };
            self.until = now + wait;
        }
    }
}

/// What becomes of a login.
#[derive(Clone, Copy, Debug, PartialEq, Eq, Structural)]
pub enum Login {
    /// The password is too long to be looked at.
    Refused,
    Wrong,
    Right,
}

/// The text of a member, or nothing.
pub open spec fn text_at(v: JsonView, key: Seq<char>) -> Seq<char> {
    match v.at(key).as_str() {
        Some(t) => t,
        None => ""@,
    }
}

fn text_of(v: &Json, key: &str) -> (r: String)
    ensures
        r@ == text_at(v@, key@),
{
    match str_of(at(Some(v), key)) {
        Some(t) => t.clone(),
        None => "".to_owned(),
    }
}

/// What becomes of a login whose password a hash accepts or not.
pub open spec fn login_of(password: Seq<char>, accepted: bool) -> Login {
    if text::bytes(password) > 1024 {
        Login::Refused
    } else if accepted {
        Login::Right
    } else {
        Login::Wrong
    }
}

/// Holds the password of a login against a hash.
pub fn check_login(hash: &str, v: &Json) -> (r: Login)
    ensures
        r == login_of(
            text_at(v@, "password"@),
            secret::accepts(hash@, text_at(v@, "password"@)),
        ),
{
    let password = text_of(v, "password");
    if size(password.as_str()) > 1024 {
        return Login::Refused;
    }
    if secret::password_accepted(hash, password.as_str()) {
        Login::Right
    } else {
        Login::Wrong
    }
}

/// The answer to a login.
pub enum LoginAnswer {
    Refused,
    Unauthorized,
    /// The header that gives the browser its session.
    Welcome(String),
}

/// Brings a login into the brake and the sessions, as of a time. `current` says that the password hash
/// is still the one that the password was held against.
pub fn settle_login_at(
    brake: &mut LoginBrake,
    sessions: &mut Sessions,
    login: Login,
    current: bool,
    token: String,
    now: i64,
) -> (r: LoginAnswer)
    requires
        now + 43200 <= i64::MAX,
    ensures
        match login {
            Login::Refused => r is Refused && *final(brake) == *old(brake) && *final(sessions) == *old(
                sessions,
            ),
            Login::Wrong => r is Unauthorized && *final(brake) == old(brake).failed(now as int)
                && *final(sessions) == *old(sessions),
            Login::Right => if current {
                &&& r is Welcome && r->Welcome_0@ == cookie_of(token@)
                &&& *final(brake) == (LoginBrake { failures: 0, until: 0 })
                &&& opened(old(sessions).open@, final(sessions).open@, token@, now)
            } else {
                r is Unauthorized && *final(brake) == *old(brake) && *final(sessions) == *old(
                    sessions,
                )
            },
        },
{
    match login {
        Login::Refused => LoginAnswer::Refused,
        Login::Wrong => {
            brake.fail(now);
            LoginAnswer::Unauthorized
        },
        Login::Right => {
            if !current {
                return LoginAnswer::Unauthorized;
            }
            *brake = LoginBrake::new();
            let cookie = session_cookie(token.as_str());
            sessions.open_at(token, now);
            LoginAnswer::Welcome(cookie)
        },
    }
}

/// Brings a login into the brake and the sessions.
pub fn settle_login(
    brake: &mut LoginBrake,
    sessions: &mut Sessions,
    login: Login,
    current: bool,
) -> (r: LoginAnswer)
    ensures
        login is Refused || login is Right && !current ==> *final(brake) == *old(brake)
            && *final(sessions) == *old(sessions),
        login is Refused ==> r is Refused,
        login is Wrong || login is Right && !current ==> r is Unauthorized,
        login is Wrong ==> *final(sessions) == *old(sessions) && exists|now: i64|
            clock::reading(now as int) && *final(brake) == #[trigger] old(brake).failed(now as int),
        login is Right && current ==> {
            &&& *final(brake) == (LoginBrake { failures: 0, until: 0 })
            &&& exists|now: i64, bytes: Seq<u8>|
                {
                    &&& clock::reading(now as int)
                    &&& bytes.len() == 32
                    &&& r is Welcome && r->Welcome_0@ == cookie_of(hex_of(bytes))
                    &&& #[trigger] opened(
                        old(sessions).open@,
                        final(sessions).open@,
                        hex_of(bytes),
                        now,
                    )
                }
        },
{
    let now = clock::now();
    let token = new_token();
    settle_login_at(brake, sessions, login, current, token, now)
}

/// A session that was opened lets its holder in for twelve hours, and no longer.
pub proof fn sessions_last_twelve_hours(
    before: Map<Seq<char>, i64>,
    after: Map<Seq<char>, i64>,
    token: Seq<char>,
    now: i64,
    later: i64,
)
    requires
        now + 43200 <= i64::MAX,
        opened(before, after, token, now),
    ensures
        live(after, later).contains_key(token) <==> later < now + 43200,
{
    assert(after.contains_key(token) && after[token] == now + 43200);
}

/// No more than sixteen sessions are open after one was opened.
pub proof fn sessions_are_bounded(
    before: Map<Seq<char>, i64>,
    after: Map<Seq<char>, i64>,
    token: Seq<char>,
    now: i64,
)
    requires
        before.dom().finite(),
        live(before, now).dom().len() <= 16,
        opened(before, after, token, now),
    ensures
        after.dom().finite(),
        after.dom().len() <= 16,
{
    let kept = live(before, now);
    assert(kept.dom().subset_of(before.dom()));
    vstd::set_lib::lemma_len_subset(kept.dom(), before.dom());
    if kept.dom().len() >= 16 {
        let t = choose|t: Seq<char>| #[trigger]
            ends_first(kept, t) && after == kept.remove(t).insert(token, (now + 43200) as i64);
        assert(after.dom() =~= kept.dom().remove(t).insert(token));
    } else {
        assert(after.dom() =~= kept.dom().insert(token));
    }
}

/// Four failures hold nothing off; from the fifth on logins wait for a while.
pub proof fn logins_wait_from_the_fifth_failure(g: LoginBrake, now: int)
    requires
        0 <= now,
        now + 60 <= i64::MAX,
        g.until <= now,
    ensures
        g.failures < 4 ==> g.failed(now).until <= now,
        g.failures >= 4 ==> now < g.failed(now).until <= now + 60,
{
}

/// A configuration as an administrator sees it: without the password hash, and with its revision.
pub open spec fn public_document(c: Config) -> JsonView {
    JsonView::Object(
        config::leading_members(c) + config::trailing_members(c) + seq![
            (
                "_revision"@,
                JsonView::Text(config::fingerprint_of(config::config_document(c))),
            ),
        ],
    )
}

/// A configuration as an administrator sees it: without the password hash, and with its revision.
pub fn public_config(c: &Config) -> (r: Json)
    ensures
        r@ == public_document(*c),
{
    let doc = c.to_json();
    let digest = c.digest();
    proof {
        json::composite(doc);
    }
    let mut members = match doc {
        Json::Object(m) => m,
        _ => Vec::new(),
    };
    let ghost before = json::all_members(members@);
    assert(before.len() == members@.len());
    assert(before.len() == 10);
    members.remove(2);
    let ghost after = json::all_members(members@);
    assert(after =~= config::leading_members(*c) + config::trailing_members(*c)) by {
        assert(after =~= before.remove(2));
        assert(before.remove(2) =~= config::leading_members(*c) + config::trailing_members(*c));
    }
    members.push(member("_revision", Json::text(digest.as_str())));
    let r = object(members);
    assert(r@->Object_0 =~= public_document(*c)->Object_0);
    r
}

proof fn member_names_differ()
    ensures
        "listen"@ != "admin_password_hash"@,
        "api_key"@ != "admin_password_hash"@,
        "webhook"@ != "admin_password_hash"@,
        "use_system_proxy"@ != "admin_password_hash"@,
        "notify_all_monitors"@ != "admin_password_hash"@,
        "employee_keys"@ != "admin_password_hash"@,
        "models"@ != "admin_password_hash"@,
        "monitors"@ != "admin_password_hash"@,
        "monitor_schedule"@ != "admin_password_hash"@,
        "_revision"@ != "admin_password_hash"@,
{
    reveal_strlit("listen");
    reveal_strlit("api_key");
    reveal_strlit("webhook");
    reveal_strlit("use_system_proxy");
    reveal_strlit("notify_all_monitors");
    reveal_strlit("employee_keys");
    reveal_strlit("models");
    reveal_strlit("monitors");
    reveal_strlit("monitor_schedule");
    reveal_strlit("_revision");
    reveal_strlit("admin_password_hash");
    assert("admin_password_hash"@.len() == 19);
    assert("listen"@.len() == 6);
    assert("api_key"@.len() == 7);
    assert("webhook"@.len() == 7);
    assert("use_system_proxy"@.len() == 16);
    assert("employee_keys"@.len() == 13);
    assert("models"@.len() == 6);
    assert("monitors"@.len() == 8);
    assert("monitor_schedule"@.len() == 16);
    assert("_revision"@.len() == 9);
    assert("notify_all_monitors"@[0] != "admin_password_hash"@[0]);
}

proof fn absent(s: Seq<(Seq<char>, JsonView)>, key: Seq<char>)
    requires
        forall|i: int| 0 <= i < s.len() ==> (#[trigger] s[i]).0 != key,
    ensures
        json::lookup(s, key) is None,
    decreases s.len(),
{
    if s.len() > 0 {
        assert(s[0].0 != key);
        let t = s.skip(1);
        assert forall|i: int| 0 <= i < t.len() implies (#[trigger] t[i]).0 != key by {
            assert(s[i + 1].0 != key);
        }
        absent(t, key);
    }
}

/// No password hash is shown.
pub proof fn password_hash_is_not_shown(c: Config)
    ensures
        public_document(c).member("admin_password_hash"@) is None,
{
    member_names_differ();
    absent(public_document(c)->Object_0, "admin_password_hash"@);
}

/// The place of the first channel of a model that may serve requests, among the first.
pub open spec fn first_ready(s: State, m: Model, now: int, n: int) -> Option<int>
    decreases n,
{
    if n <= 0 {
        None
    } else {
        match first_ready(s, m, now, n - 1) {
            Some(i) => Some(i),
            None => if s.ready(m.channels@[n - 1], now) {
                Some(n - 1)
            } else {
                None
            },
        }
    }
}

proof fn first_ready_stays(s: State, m: Model, now: int, n: int, total: int)
    requires
        n <= total,
        first_ready(s, m, now, n) is Some,
    ensures
        first_ready(s, m, now, total) == first_ready(s, m, now, n),
    decreases total - n,
{
    if n < total {
        first_ready_stays(s, m, now, n, total - 1);
    }
}

/// The place of the channel that a model's requests go to at a time.
pub fn preferred(s: &State, m: &Model, now: i64) -> (r: Option<usize>)
    ensures
        match r {
            Some(i) => first_ready(*s, *m, now as int, m.channels@.len() as int) == Some(i as int)
                && i < m.channels@.len(),
            None => first_ready(*s, *m, now as int, m.channels@.len() as int) is None,
        },
{
    let mut i: usize = 0;
    while i < m.channels.len()
        invariant
            i <= m.channels@.len(),
            first_ready(*s, *m, now as int, i as int) is None,
        decreases m.channels@.len() - i,
    {
        if s.channel_ready(&m.channels[i], now) {
            proof {
                first_ready_stays(*s, *m, now as int, i + 1, m.channels@.len() as int);
            }
            return Some(i);
        }
        i = i + 1;
    }
    None
}

/// Members without those under a name.
pub open spec fn without(s: Seq<(Seq<char>, JsonView)>, key: Seq<char>) -> Seq<
    (Seq<char>, JsonView),
>
    decreases s.len(),
{
    if s.len() == 0 {
        s
    } else {
        let rest = without(s.drop_last(), key);
        if s.last().0 == key {
            rest
        } else {
            rest.push(s.last())
        }
    }
}

fn cut(s: Vec<(String, Json)>, key: &str) -> (r: Vec<(String, Json)>)
    ensures
        json::all_members(r@) == without(json::all_members(s@), key@),
{
    let ghost all = json::all_members(s@);
    let mut r: Vec<(String, Json)> = Vec::new();
    let mut i: usize = 0;
    assert(json::all_members(r@) =~= without(all.take(0), key@));
    while i < s.len()
        invariant
            i <= s@.len(),
            all == json::all_members(s@),
            json::all_members(r@) == without(all.take(i as int), key@),
        decreases s@.len() - i,
    {
        let ghost before = json::all_members(r@);
        assert(all.take(i + 1).drop_last() =~= all.take(i as int));
        assert(all[i as int] == (s@[i as int].0@, s@[i as int].1@));
        if !same(s[i].0.as_str(), key) {
            r.push((s[i].0.clone(), s[i].1.copy()));
            assert(json::all_members(r@) =~= before.push(all[i as int]));
        }
        i = i + 1;
    }
    assert(all.take(all.len() as int) =~= all);
    r
}

/// Why a configuration is not saved.
#[derive(Clone, Copy, Debug, PartialEq, Eq, Structural)]
pub enum Rejection {
    NoObject,
    Stale,
    Malformed,
    LongPassword,
    NoHash,
    Listener,
    Slow,
    Unwritten,
    Busy,
}

impl Rejection {
    /// The status of the answer.
    pub open spec fn status_of(self) -> u16 {
        match self {
            Rejection::NoObject => 400,
            Rejection::Stale => 409,
            Rejection::Malformed => 400,
            Rejection::LongPassword => 400,
            Rejection::NoHash => 500,
            Rejection::Listener => 400,
            Rejection::Slow => 504,
            Rejection::Unwritten => 500,
            Rejection::Busy => 409,
        }
    }

    /// The text of the answer.
    pub open spec fn text_of(self) -> Seq<char> {
        match self {
            Rejection::NoObject => "配置必须为JSON对象"@,
            Rejection::Stale => "配置已被修改或缺少版本号，请刷新后重新编辑"@,
            Rejection::Malformed => "配置格式错误"@,
            Rejection::LongPassword => ""@,
            Rejection::NoHash => ""@,
            Rejection::Listener => "监听地址需修改文件并重启服务"@,
            Rejection::Slow => "配置验证超过60秒，未保存；请分批添加Key"@,
            Rejection::Unwritten => "配置写盘失败"@,
            Rejection::Busy => "另一个保存正在执行，请稍后重试"@,
        }
    }

    /// The status of the answer.
    pub fn status(&self) -> (r: u16)
        ensures
            r == self.status_of(),
    {
        match self {
            Rejection::NoObject => 400,
            Rejection::Stale => 409,
            Rejection::Malformed => 400,
            Rejection::LongPassword => 400,
            Rejection::NoHash => 500,
            Rejection::Listener => 400,
            Rejection::Slow => 504,
            Rejection::Unwritten => 500,
            Rejection::Busy => 409,
        }
    }

    /// The text of the answer.
    pub fn text(&self) -> (r: &'static str)
        ensures
            r@ == self.text_of(),
    {
        match self {
            Rejection::NoObject => "配置必须为JSON对象",
            Rejection::Stale => "配置已被修改或缺少版本号，请刷新后重新编辑",
            Rejection::Malformed => "配置格式错误",
            Rejection::LongPassword => "",
            Rejection::NoHash => "",
            Rejection::Listener => "监听地址需修改文件并重启服务",
            Rejection::Slow => "配置验证超过60秒，未保存；请分批添加Key",
            Rejection::Unwritten => "配置写盘失败",
            Rejection::Busy => "另一个保存正在执行，请稍后重试",
        }
    }
}

/// A configuration that is to be saved: its document, and a new password where one is set.
pub struct Draft {
    pub document: Json,
    pub password: Option<String>,
}

/// The revision of a configuration.
pub open spec fn revision_of(c: Config) -> Seq<char> {
    config::fingerprint_of(config::config_document(c))
}

/// The document that is read as the new configuration. The keys of employees stay where none are
/// sent, and the password hash stays whatever is sent.
pub open spec fn draft_members(o: Seq<(Seq<char>, JsonView)>, old: Config) -> Seq<
    (Seq<char>, JsonView),
> {
    let a = without(o, "_revision"@);
    let b = if json::lookup(o, "employee_keys"@) is None {
        a.push(("employee_keys"@, old.employee_keys@))
    } else {
        a
    };
    without(
        without(b, "admin_password_hash"@).push(
            ("admin_password_hash"@, JsonView::Text(old.admin_password_hash@)),
        ),
        "new_password"@,
    )
}

/// The new password of a document, where it is set.
pub open spec fn draft_password(v: JsonView) -> Option<Seq<char>> {
    match v.at("new_password"@).as_str() {
        Some(t) => if t.len() == 0 {
            None
        } else {
            Some(t)
        },
        None => None,
    }
}

/// Prepares a configuration to be saved over the one that its sender saw.
pub fn draft(v: Json, old: &Config) -> (r: Result<Draft, Rejection>)
    ensures
        match v@ {
            JsonView::Object(o) => if v@.at("_revision"@).as_str() == Some(revision_of(*old)) {
                &&& r is Ok
                &&& r->Ok_0.document@ == JsonView::Object(draft_members(o, *old))
                &&& text::opt_view(r->Ok_0.password) == draft_password(v@)
            } else {
                r == Err::<Draft, Rejection>(Rejection::Stale)
            },
            _ => r == Err::<Draft, Rejection>(Rejection::NoObject),
        },
{
    proof {
        json::composite(v);
    }
    let current = match str_of(at(Some(&v), "_revision")) {
        Some(t) => same(t.as_str(), old.digest().as_str()),
        None => false,
    };
    let employees = v.get("employee_keys").is_some();
    let password = match str_of(at(Some(&v), "new_password")) {
        Some(t) => if is_empty(t.as_str()) {
            None
        } else {
            Some(t.clone())
        },
        None => None,
    };
    match v {
        Json::Object(o) => {
            if !current {
                return Err(Rejection::Stale);
            }
            let mut a = cut(o, "_revision");
            if !employees {
                let ghost before = json::all_members(a@);
                a.push(member("employee_keys", old.employee_keys.copy()));
                assert(json::all_members(a@) =~= before.push(
                    ("employee_keys"@, old.employee_keys@),
                ));
            }
            let mut b = cut(a, "admin_password_hash");
            let ghost before = json::all_members(b@);
            b.push(
                member("admin_password_hash", Json::text(old.admin_password_hash.as_str())),
            );
            assert(json::all_members(b@) =~= before.push(
                ("admin_password_hash"@, JsonView::Text(old.admin_password_hash@)),
            ));
            let d = cut(b, "new_password");
            Ok(Draft { document: object(d), password })
        },
        _ => Err(Rejection::NoObject),
    }
}

/// Gives a configuration the hash of a new password, where one is set.
pub fn set_password(cfg: &mut Config, password: Option<String>) -> (r: Result<(), Rejection>)
    ensures
        *final(cfg) == (Config {
            admin_password_hash: final(cfg).admin_password_hash,
            ..*old(cfg)
        }),
        password is None ==> r is Ok && *final(cfg) == *old(cfg),
        r is Err ==> *final(cfg) == *old(cfg),
        password is Some && text::bytes(password->0@) > 1024 ==> r == Err::<(), Rejection>(
            Rejection::LongPassword,
        ),
        password is Some && text::bytes(password->0@) <= 1024 ==> r is Ok && secret::accepts(
            final(cfg).admin_password_hash@,
            password->0@,
        ),
{
    match password {
        Some(p) => {
            if size(p.as_str()) > 1024 {
                return Err(Rejection::LongPassword);
            }
            match secret::password_hash(p.as_str()) {
                Some(h) => {
                    cfg.admin_password_hash = h;
                    Ok(())
                },
                None => Err(Rejection::NoHash),
            }
        },
        None => Ok(()),
    }
}

/// A channel has a key with the identifier and the identity of another.
pub open spec fn key_same(m: Model, oc: Channel, model: Seq<char>, c: Channel, k: Key) -> bool {
    exists|i: int|
        0 <= i < oc.keys@.len() && (#[trigger] oc.keys@[i]).id@ == k.id@ && oc.identity_of(
            m.id@,
            oc.keys@[i],
        ) == c.identity_of(model, k)
}

/// A model has a key with the identifiers and the identity of another.
pub open spec fn model_same(m: Model, model: Seq<char>, c: Channel, k: Key) -> bool {
    exists|i: int|
        0 <= i < m.channels@.len() && (#[trigger] m.channels@[i]).id@ == c.id@ && key_same(
            m,
            m.channels@[i],
            model,
            c,
            k,
        )
}

/// A key was configured before as it is now.
pub open spec fn unchanged(old: Seq<Model>, model: Seq<char>, c: Channel, k: Key) -> bool {
    exists|i: int| 0 <= i < old.len() && model_same(#[trigger] old[i], model, c, k)
}

fn has_same_key(m: &Model, oc: &Channel, model: &str, c: &Channel, k: &Key) -> (r: bool)
    ensures
        r == key_same(*m, *oc, model@, *c, *k),
{
    let identity = c.key_identity(model, k);
    let mut i: usize = 0;
    while i < oc.keys.len()
        invariant
            i <= oc.keys@.len(),
            identity@ == c.identity_of(model@, *k),
            forall|j: int|
                0 <= j < i ==> !((#[trigger] oc.keys@[j]).id@ == k.id@ && oc.identity_of(
                    m.id@,
                    oc.keys@[j],
                ) == identity@),
        decreases oc.keys@.len() - i,
    {
        let o = &oc.keys[i];
        if same(o.id.as_str(), k.id.as_str()) {
            let before = oc.key_identity(m.id.as_str(), o);
            if same(before.as_str(), identity.as_str()) {
                return true;
            }
        }
        i = i + 1;
    }
    false
}

fn model_has_same(m: &Model, model: &str, c: &Channel, k: &Key) -> (r: bool)
    ensures
        r == model_same(*m, model@, *c, *k),
{
    let mut i: usize = 0;
    while i < m.channels.len()
        invariant
            i <= m.channels@.len(),
            forall|j: int|
                0 <= j < i ==> !((#[trigger] m.channels@[j]).id@ == c.id@ && key_same(
                    *m,
                    m.channels@[j],
                    model@,
                    *c,
                    *k,
                )),
        decreases m.channels@.len() - i,
    {
        let oc = &m.channels[i];
        if same(oc.id.as_str(), c.id.as_str()) && has_same_key(m, oc, model, c, k) {
            return true;
        }
        i = i + 1;
    }
    false
}

fn is_unchanged(old: &Vec<Model>, model: &str, c: &Channel, k: &Key) -> (r: bool)
    ensures
        r == unchanged(old@, model@, *c, *k),
{
    let mut i: usize = 0;
    while i < old.len()
        invariant
            i <= old@.len(),
            forall|j: int| 0 <= j < i ==> !model_same(#[trigger] old@[j], model@, *c, *k),
        decreases old@.len() - i,
    {
        if model_has_same(&old[i], model, c, k) {
            return true;
        }
        i = i + 1;
    }
    false
}

/// The new or changed keys among the first of a channel, in order.
pub open spec fn fresh_keys(old: Seq<Model>, m: Model, at: (int, int), n: int) -> Seq<Place>
    decreases n,
{
    let c = m.channels@[at.1];
    if n <= 0 {
        Seq::empty()
    } else {
        let rest = fresh_keys(old, m, at, n - 1);
        if unchanged(old, m.id@, c, c.keys@[n - 1]) {
            rest
        } else {
            rest.push((at.0 as usize, at.1 as usize, (n - 1) as usize))
        }
    }
}

/// The new or changed keys among the first channels of a model, in order.
pub open spec fn fresh_channels(old: Seq<Model>, m: Model, at: int, n: int) -> Seq<Place>
    decreases n,
{
    if n <= 0 {
        Seq::empty()
    } else {
        fresh_channels(old, m, at, n - 1) + fresh_keys(
            old,
            m,
            (at, n - 1),
            m.channels@[n - 1].keys@.len() as int,
        )
    }
}

/// The new or changed keys among the first models, in order.
pub open spec fn fresh_models(old: Seq<Model>, models: Seq<Model>, n: int) -> Seq<Place>
    decreases n,
{
    if n <= 0 {
        Seq::empty()
    } else {
        fresh_models(old, models, n - 1) + fresh_channels(
            old,
            models[n - 1],
            n - 1,
            models[n - 1].channels@.len() as int,
        )
    }
}

/// A place is that of a key.
pub open spec fn placed(models: Seq<Model>, p: Place) -> bool {
    &&& p.0 < models.len()
    &&& p.1 < models[p.0 as int].channels@.len()
    &&& p.2 < models[p.0 as int].channels@[p.1 as int].keys@.len()
}

fn find_fresh(old: &Vec<Model>, models: &Vec<Model>) -> (r: Vec<Place>)
    ensures
        r@ == fresh_models(old@, models@, models@.len() as int),
        forall|i: int| 0 <= i < r@.len() ==> placed(models@, #[trigger] r@[i]),
{
    let mut r: Vec<Place> = Vec::new();
    let mut m: usize = 0;
    while m < models.len()
        invariant
            m <= models@.len(),
            r@ == fresh_models(old@, models@, m as int),
            forall|i: int| 0 <= i < r@.len() ==> placed(models@, #[trigger] r@[i]),
        decreases models@.len() - m,
    {
        let model = &models[m];
        let ghost before = r@;
        assert(before + Seq::empty() =~= before);
        let mut c: usize = 0;
        while c < model.channels.len()
            invariant
                m < models@.len(),
                *model == models@[m as int],
                c <= model.channels@.len(),
                r@ == before + fresh_channels(old@, *model, m as int, c as int),
                forall|i: int| 0 <= i < r@.len() ==> placed(models@, #[trigger] r@[i]),
            decreases model.channels@.len() - c,
        {
            let channel = &model.channels[c];
            let ghost earlier = r@;
            assert(earlier + Seq::empty() =~= earlier);
            let mut k: usize = 0;
            while k < channel.keys.len()
                invariant
                    m < models@.len(),
                    *model == models@[m as int],
                    c < model.channels@.len(),
                    *channel == model.channels@[c as int],
                    k <= channel.keys@.len(),
                    r@ == earlier + fresh_keys(old@, *model, (m as int, c as int), k as int),
                    forall|i: int| 0 <= i < r@.len() ==> placed(models@, #[trigger] r@[i]),
                decreases channel.keys@.len() - k,
            {
                if !is_unchanged(old, model.id.as_str(), channel, &channel.keys[k]) {
                    r.push((m, c, k));
                    assert(r@ =~= earlier + fresh_keys(
                        old@,
                        *model,
                        (m as int, c as int),
                        k + 1,
                    ));
                }
                k = k + 1;
            }
            assert(r@ =~= before + fresh_channels(old@, *model, m as int, c + 1));
            c = c + 1;
        }
        m = m + 1;
    }
    r
}

/// A key whose quota could be read.
pub struct Vetted {
    pub place: Place,
    pub id: String,
    pub adapter: Adapter,
    pub allowance: Allowance,
}

/// The mathematical model of [`Vetted`].
pub struct VettedView {
    pub place: Place,
    pub id: Seq<char>,
    pub adapter: Adapter,
    pub allowance: AllowanceView,
}

impl View for Vetted {
    type V = VettedView;

    open spec fn view(&self) -> VettedView {
        VettedView {
            place: self.place,
            id: self.id@,
            adapter: self.adapter,
            allowance: self.allowance@,
        }
    }
}

/// The models of several vetted keys.
pub open spec fn vetted_views(s: Seq<Vetted>) -> Seq<VettedView> {
    s.map_values(|v: Vetted| v@)
}

/// The interface that the vetted keys of a channel have, or another.
pub open spec fn adopted(s: Seq<VettedView>, m: int, c: int, other: Adapter) -> Adapter
    decreases s.len(),
{
    if s.len() == 0 {
        other
    } else if s.last().place.0 == m && s.last().place.1 == c {
        s.last().adapter
    } else {
        adopted(s.drop_last(), m, c, other)
    }
}

/// The search for a key's quota starts from the chosen interface only where that is a subscription;
/// else it is detected.
pub open spec fn vetting_kind(model: Seq<char>, adapter: Adapter) -> Adapter {
    Adapter::official(
        model,
        if adapter == Adapter::Subscription {
            Adapter::Subscription
        } else {
            Adapter::Auto
        },
    )
}

/// The look at new and changed keys that comes before a configuration is saved.
pub struct Vetting {
    /// The keys that are still to be looked at, the last one first.
    pub pending: Vec<Place>,
    pub verified: Vec<Vetted>,
}

impl Vetting {
    /// The keys that are still to be looked at, in order.
    pub open spec fn left(self) -> Seq<Place> {
        self.pending@.reverse()
    }

    /// All that is to be looked at are keys of a configuration.
    pub open spec fn fits(self, cfg: Config) -> bool {
        &&& forall|i: int| 0 <= i < self.left().len() ==> placed(cfg.models@, #[trigger] self.left()[i])
        &&& forall|i: int|
            0 <= i < self.verified@.len() ==> placed(
                cfg.models@,
                (#[trigger] self.verified@[i]).place,
            )
    }

    /// The look at a configuration that is to take the place of another.
    pub fn new(old: &Config, cfg: &Config) -> (r: Self)
        ensures
            r.left() == fresh_models(old.models@, cfg.models@, cfg.models@.len() as int),
            r.verified@ == Seq::<Vetted>::empty(),
            r.fits(*cfg),
    {
        let places = find_fresh(&old.models, &cfg.models);
        let ghost all = places@;
        let mut pending: Vec<Place> = Vec::new();
        let mut i: usize = places.len();
        while i > 0
            invariant
                i <= places@.len(),
                pending@ == places@.skip(i as int).reverse(),
            decreases i,
        {
            i = i - 1;
            pending.push(places[i]);
            assert(pending@ =~= places@.skip(i as int).reverse());
        }
        let r = Vetting { pending, verified: Vec::new() };
        assert(r.left() =~= all);
        assert(r.verified@ =~= Seq::<Vetted>::empty());
        r
    }

    /// The place of the key that is looked at next, and the interface that is asked.
    pub fn next(&self, cfg: &Config) -> (r: Option<(Place, Adapter)>)
        requires
            self.fits(*cfg),
        ensures
            match r {
                Some((p, kind)) => {
                    &&& self.left().len() > 0
                    &&& p == self.left()[0]
                    &&& placed(cfg.models@, p)
                    &&& kind == vetting_kind(
                        cfg.models@[p.0 as int].id@,
                        cfg.models@[p.0 as int].channels@[p.1 as int].adapter,
                    )
                },
                None => self.left().len() == 0,
            },
    {
        let n = self.pending.len();
        if n == 0 {
            return None;
        }
        let p = self.pending[n - 1];
        assert(p == self.left()[0]);
        assert(placed(cfg.models@, self.left()[0]));
        let model = &cfg.models[p.0];
        let configured = if model.channels[p.1].adapter == Adapter::Subscription {
            Adapter::Subscription
        } else {
            Adapter::Auto
        };
        Some((p, Adapter::for_model(model.id.as_str(), configured)))
    }

    /// Another key of the channel has another interface.
    pub open spec fn contradicts(self, p: Place, adapter: Adapter) -> bool {
        adopted(vetted_views(self.verified@), p.0 as int, p.1 as int, adapter) != adapter
    }

    /// Takes what was found of the next key, or says why the configuration is not saved.
    pub fn reply(&mut self, cfg: &Config, look: Result<(Adapter, Allowance), String>) -> (r: Result<
        (),
        String,
    >)
        requires
            old(self).fits(*cfg),
            old(self).left().len() > 0,
        ensures
            final(self).fits(*cfg),
            final(self).left() == old(self).left().skip(1),
            ({
                let p = old(self).left()[0];
                let c = cfg.models@[p.0 as int].channels@[p.1 as int];
                let k = c.keys@[p.2 as int];
                match look {
                    Ok((adapter, allowance)) => if old(self).contradicts(p, adapter) {
                        &&& r is Err && r->Err_0@ == "同渠道的Key返回不同平台类型"@
                        &&& final(self).verified@ == old(self).verified@
                    } else {
                        &&& r is Ok
                        &&& vetted_views(final(self).verified@) == vetted_views(
                            old(self).verified@,
                        ).push(
                            VettedView { place: p, id: k.id@, adapter, allowance: allowance@ },
                        )
                    },
                    Err(e) => {
                        &&& r is Err && r->Err_0@ == c.name@ + " / "@ + k.label@ + " 验证失败："@
                            + e@
                        &&& final(self).verified@ == old(self).verified@
                    },
                }
            }),
    {
        let ghost left = self.left();
        assert(placed(cfg.models@, left[0]));
        let ghost before = self.pending@;
        let p = match self.pending.pop() {
            Some(p) => p,
            None => (0, 0, 0),
        };
        assert(p == left[0]);
        assert(self.left() =~= left.skip(1));
        assert forall|i: int| 0 <= i < self.left().len() implies placed(
            cfg.models@,
            #[trigger] self.left()[i],
        ) by {
            assert(placed(cfg.models@, left[i + 1]));
        }
        let c = &cfg.models[p.0].channels[p.1];
        let k = &c.keys[p.2];
        match look {
            Ok((adapter, allowance)) => {
                if self.finds_other(p, adapter) {
                    return Err("同渠道的Key返回不同平台类型".to_owned());
                }
                let ghost verified = vetted_views(self.verified@);
                let v = Vetted { place: p, id: k.id.clone(), adapter, allowance };
                let ghost vv = v@;
                self.verified.push(v);
                assert(vetted_views(self.verified@) =~= verified.push(vv));
                Ok(())
            },
            Err(e) => Err(
                c.name.clone().concat(" / ").concat(k.label.as_str()).concat(
                    " 验证失败：",
                ).concat(e.as_str()),
            ),
        }
    }

    fn finds_other(&self, p: Place, adapter: Adapter) -> (r: bool)
        ensures
            r == self.contradicts(p, adapter),
    {
        let ghost s = vetted_views(self.verified@);
        let mut i: usize = self.verified.len();
        assert(s.take(s.len() as int) =~= s);
        while i > 0
            invariant
                i <= self.verified@.len(),
                s == vetted_views(self.verified@),
                adopted(s, p.0 as int, p.1 as int, adapter) == adopted(
                    s.take(i as int),
                    p.0 as int,
                    p.1 as int,
                    adapter,
                ),
            decreases i,
        {
            let v = &self.verified[i - 1];
            assert(s.take(i as int).last() == v@);
            assert(s.take(i as int).drop_last() =~= s.take(i - 1));
            if v.place.0 == p.0 && v.place.1 == p.1 {
                return v.adapter != adapter;
            }
            i = i - 1;
        }
        false
    }
}

/// A model is another with the interfaces that vetting found.
pub open spec fn model_adopted(after: Model, before: Model, s: Seq<VettedView>, m: int) -> bool {
    &&& after == (Model { channels: after.channels, ..before })
    &&& after.channels@.len() == before.channels@.len()
    &&& forall|c: int|
        0 <= c < before.channels@.len() ==> #[trigger] after.channels@[c] == (Channel {
            adapter: adopted(s, m, c, before.channels@[c].adapter),
            ..before.channels@[c]
        })
}

/// Models are others with the interfaces that vetting found.
pub open spec fn models_adopted(after: Seq<Model>, before: Seq<Model>, s: Seq<VettedView>) -> bool {
    after.len() == before.len() && forall|m: int|
        0 <= m < before.len() ==> model_adopted(#[trigger] after[m], before[m], s, m)
}

fn set_adapter(models: &mut Vec<Model>, m: usize, c: usize, adapter: Adapter)
    requires
        m < old(models)@.len(),
        c < old(models)@[m as int].channels@.len(),
    ensures
        final(models)@.len() == old(models)@.len(),
        forall|i: int|
            0 <= i < old(models)@.len() && i != m ==> #[trigger] final(models)@[i] == old(
                models,
            )@[i],
        final(models)@[m as int] == (Model {
            channels: final(models)@[m as int].channels,
            ..old(models)@[m as int]
        }),
        final(models)@[m as int].channels@ == old(models)@[m as int].channels@.update(
            c as int,
            Channel { adapter, ..old(models)@[m as int].channels@[c as int] },
        ),
{
    let model = &mut models[m];
    let channel = &mut model.channels[c];
    channel.adapter = adapter;
}

impl Vetting {
    /// Gives the channels of a configuration the interfaces that were found.
    pub fn adopt(&self, cfg: &mut Config)
        requires
            self.fits(*old(cfg)),
        ensures
            *final(cfg) == (Config { models: final(cfg).models, ..*old(cfg) }),
            models_adopted(
                final(cfg).models@,
                old(cfg).models@,
                vetted_views(self.verified@),
            ),
    {
        let ghost s = vetted_views(self.verified@);
        let ghost before = cfg.models@;
        let mut i: usize = 0;
        assert(s.take(0) =~= Seq::empty());
        while i < self.verified.len()
            invariant
                i <= self.verified@.len(),
                s == vetted_views(self.verified@),
                before == old(cfg).models@,
                *cfg == (Config { models: cfg.models, ..*old(cfg) }),
                self.fits(*old(cfg)),
                models_adopted(cfg.models@, before, s.take(i as int)),
            decreases self.verified@.len() - i,
        {
            let v = &self.verified[i];
            assert(placed(before, self.verified@[i as int].place));
            let ghost was = cfg.models@;
            let ghost m = v.place.0 as int;
            let ghost c = v.place.1 as int;
            assert(model_adopted(was[m], before[m], s.take(i as int), m));
            set_adapter(&mut cfg.models, v.place.0, v.place.1, v.adapter);
            proof {
                let t = s.take(i + 1);
                assert(t.drop_last() =~= s.take(i as int));
                assert(t.last() == v@);
                assert forall|j: int| 0 <= j < before.len() implies model_adopted(
                    #[trigger] cfg.models@[j],
                    before[j],
                    t,
                    j,
                ) by {
                    assert(model_adopted(was[j], before[j], s.take(i as int), j));
                    assert forall|d: int| 0 <= d < before[j].channels@.len() implies #[trigger]
                        cfg.models@[j].channels@[d] == (Channel {
                        adapter: adopted(t, j, d, before[j].channels@[d].adapter),
                        ..before[j].channels@[d]
                    }) by {
                        assert(was[j].channels@[d] == (Channel {
                            adapter: adopted(
                                s.take(i as int),
                                j,
                                d,
                                before[j].channels@[d].adapter,
                            ),
                            ..before[j].channels@[d]
                        }));
                    }
                }
            }
            i = i + 1;
        }
        assert(s.take(s.len() as int) =~= s);
    }
}

/// Notices as if they had never been tried.
pub open spec fn renewed(s: Seq<NoticeView>) -> Seq<NoticeView> {
    s.map_values(|n: NoticeView| NoticeView { attempts: 0, next_at: 0, ..n })
}

fn renew(notices: &mut VecDeque<Notice>)
    ensures
        state::notice_views(final(notices)@) == renewed(state::notice_views(old(notices)@)),
{
    let ghost all = state::notice_views(notices@);
    let total = notices.len();
    let mut i: usize = 0;
    let mut done: VecDeque<Notice> = VecDeque::new();
    assert(state::notice_views(done@) =~= renewed(all).take(0));
    assert(all.skip(0) =~= all);
    while i < total
        invariant
            i <= total,
            total == all.len(),
            state::notice_views(notices@) == all.skip(i as int),
            state::notice_views(done@) == renewed(all).take(i as int),
        decreases total - i,
    {
        let ghost left = notices@;
        let ghost before = state::notice_views(done@);
        assert(state::notice_views(left).len() == left.len());
        assert(all.skip(i as int)[0] == all[i as int]);
        match notices.pop_front() {
            Some(mut n) => {
                assert(state::notice_views(left)[0] == left[0]@);
                assert(state::notice_views(notices@) =~= state::notice_views(left).skip(1));
                assert(all.skip(i as int).skip(1) =~= all.skip(i + 1));
                n.attempts = 0;
                n.next_at = 0;
                let ghost nv = n@;
                done.push_back(n);
                assert(state::notice_views(done@) =~= before.push(nv));
                assert(renewed(all).take(i + 1) =~= renewed(all).take(i as int).push(nv));
            },
            None => {},
        }
        i = i + 1;
    }
    assert(renewed(all).take(total as int) =~= renewed(all));
    *notices = done;
}

/// Qualities with the next check at another time.
pub open spec fn rescheduled(m: Map<Seq<char>, QualityView>, next: i64) -> Map<
    Seq<char>,
    QualityView,
> {
    m.map_values(|q: QualityView| QualityView { next_at: next, ..q })
}

fn reschedule(quality: &mut Table<Quality>, next: i64)
    ensures
        state::quality_views(final(quality)@) == rescheduled(
            state::quality_views(old(quality)@),
            next,
        ),
{
    let ghost all = quality@;
    let keys = quality.keys();
    let mut i: usize = 0;
    while i < keys.len()
        invariant
            i <= keys@.len(),
            forall|a: int, b: int|
                0 <= a < b < keys@.len() ==> (#[trigger] keys@[a])@ != (#[trigger] keys@[b])@,
            forall|k: int| 0 <= k < keys@.len() ==> all.contains_key(#[trigger] keys@[k]@),
            quality@.dom() == all.dom(),
            forall|k: int|
                0 <= k < i ==> quality@[#[trigger] keys@[k]@]@ == (QualityView {
                    next_at: next,
                    ..all[keys@[k]@]@
                }),
            forall|k: int|
                i <= k < keys@.len() ==> quality@[#[trigger] keys@[k]@] == all[keys@[k]@],
        decreases keys@.len() - i,
    {
        let key = keys[i].as_str();
        assert(quality@.dom().contains(keys@[i as int]@));
        match quality.remove(key) {
            Some(mut q) => {
                q.next_at = next;
                quality.insert(key.to_owned(), q);
            },
            None => {},
        }
        assert(quality@.dom() =~= all.dom());
        i = i + 1;
    }
    proof {
        let now = state::quality_views(quality@);
        let goal = rescheduled(state::quality_views(all), next);
        assert forall|id: Seq<char>| #[trigger] now.contains_key(id) implies now[id]
            == goal[id] by {
            assert(all.dom().contains(id));
            assert(all.contains_key(id));
            let k = choose|k: int| 0 <= k < keys@.len() && #[trigger] keys@[k]@ == id;
            assert(quality@[keys@[k]@]@ == (QualityView { next_at: next, ..all[keys@[k]@]@ }));
        }
        assert(now.dom() =~= goal.dom());
        assert(now =~= goal);
    }
}

/// Keys after what vetting found of the first of them.
pub open spec fn keys_vetted(
    m: Map<Seq<char>, KeyView>,
    s: Seq<VettedView>,
    now: i64,
    n: int,
) -> Map<Seq<char>, KeyView>
    decreases n,
{
    if n <= 0 {
        m
    } else {
        let rest = keys_vetted(m, s, now, n - 1);
        let v = s[n - 1];
        let k = if rest.contains_key(v.id) {
            rest[v.id]
        } else {
            KeyView::blank()
        };
        rest.insert(
            v.id,
            KeyView {
                detected: Some(v.adapter),
                allowance: Some(v.allowance),
                balance_checked: now,
                ..k
            },
        )
    }
}

fn note_vetted(state: &mut State, verified: Vec<Vetted>, now: i64)
    ensures
        *final(state) == (State { keys: final(state).keys, ..*old(state) }),
        final(state).key_map() == keys_vetted(
            old(state).key_map(),
            vetted_views(verified@),
            now,
            verified@.len() as int,
        ),
{
    let ghost s = vetted_views(verified@);
    let ghost m = state.key_map();
    let total = verified.len();
    let mut left = verified;
    let mut done: usize = 0;
    let ghost all = left@;
    assert(all.skip(0) =~= all);
    while done < total
        invariant
            done <= total,
            total == all.len(),
            s == vetted_views(all),
            left@ == all.skip(done as int),
            *state == (State { keys: state.keys, ..*old(state) }),
            state.key_map() == keys_vetted(m, s, now, done as int),
        decreases total - done,
    {
        let v = left.remove(0);
        assert(v == all[done as int]);
        assert(s[done as int] == v@);
        assert(left@ =~= all.skip(done + 1));
        let ghost before = state.key_map();
        let Vetted { place: _, id, adapter, allowance } = v;
        let mut k = state.take_key(id.as_str());
        k.detected = Some(adapter);
        k.allowance = Some(allowance);
        k.balance_checked = now;
        let ghost kv = k@;
        state.put_key(id.as_str(), k);
        assert(state.key_map() =~= before.insert(id@, kv));
        done = done + 1;
    }
}

fn same_schedule(a: &Vec<MonitorPeriod>, b: &Vec<MonitorPeriod>) -> (r: bool)
    ensures
        r == (a@ == b@),
{
    if a.len() != b.len() {
        return false;
    }
    let mut i: usize = 0;
    while i < a.len()
        invariant
            i <= a@.len(),
            a@.len() == b@.len(),
            forall|j: int| 0 <= j < i ==> a@[j] == b@[j],
        decreases a@.len() - i,
    {
        if a[i] != b[i] {
            return false;
        }
        i = i + 1;
    }
    assert(a@ =~= b@);
    true
}

/// What a state goes through when a configuration takes the place of another: notices are tried anew
/// where they go elsewhere, the state comes under the new configuration, checks are scheduled anew where
/// the schedule changed, and what vetting found is noted.
pub open spec fn save_steps(
    before: State,
    a: State,
    b: State,
    c: State,
    d: State,
    e: State,
    after: State,
    old: Config,
    cfg: Config,
    s: Seq<VettedView>,
    now: i64,
) -> bool {
    &&& a == (State { notices: a.notices, ..before })
    &&& a.queue() == (if old.webhook@ == cfg.webhook@ {
        before.queue()
    } else {
        renewed(before.queue())
    })
    &&& b.reconciled_from(a, cfg)
    &&& c == (State { quality: c.quality, ..b })
    &&& state::quality_views(c.quality@) == (if old.monitor_schedule@ == cfg.monitor_schedule@ {
        state::quality_views(b.quality@)
    } else {
        rescheduled(
            state::quality_views(b.quality@),
            monitor::next_at(now as int, cfg.monitor_schedule@) as i64,
        )
    })
    &&& d == (State { keys: d.keys, config_digest: d.config_digest, ..c })
    &&& d.key_map() == keys_vetted(c.key_map(), s, now, s.len() as int)
    &&& d.config_digest@ == revision_of(cfg)
    &&& e.pruned_from(d, cfg)
    &&& e == (State {
        keys: e.keys,
        quality: e.quality,
        last_used: e.last_used,
        round_robin: e.round_robin,
        sticky_routes: e.sticky_routes,
        events: e.events,
        notices: e.notices,
        ..d
    })
    &&& after == (State { events: after.events, ..e })
    &&& after.log() == state::with_event(e.log(), now, "config"@, "配置已保存"@)
}

/// A state was brought from one configuration to another.
pub open spec fn saved(
    before: State,
    after: State,
    old: Config,
    cfg: Config,
    s: Seq<VettedView>,
    now: i64,
) -> bool {
    exists|a: State, b: State, c: State, d: State, e: State| #[trigger]
        save_steps(before, a, b, c, d, e, after, old, cfg, s, now)
}

/// Brings a state from one configuration to another, as of a time.
pub fn apply_at(state: &mut State, previous: &Config, cfg: &Config, verified: Vec<Vetted>, now: i64)
    requires
        previous.monitor_schedule@ == cfg.monitor_schedule@ || monitor::followable(
            now as int,
            cfg.monitor_schedule@,
        ),
    ensures
        saved(*old(state), *final(state), *previous, *cfg, vetted_views(verified@), now),
{
    if !same(previous.webhook.as_str(), cfg.webhook.as_str()) {
        renew(&mut state.notices);
    }
    let ghost a = *state;
    state.reconcile(cfg);
    let ghost b = *state;
    if !same_schedule(&previous.monitor_schedule, &cfg.monitor_schedule) {
        let next = monitor::next(now, cfg.monitor_schedule.as_slice());
        reschedule(&mut state.quality, next);
    }
    let ghost c = *state;
    let ghost s = vetted_views(verified@);
    note_vetted(state, verified, now);
    state.config_digest = cfg.digest();
    let ghost d = *state;
    state.prune(cfg);
    let ghost e = *state;
    state.event_at(now, "config", "配置已保存".to_owned());
    assert(save_steps(*old(state), a, b, c, d, e, *state, *previous, *cfg, s, now));
}

/// Brings a state from one configuration to another, as of a time, unless a new schedule gives no next
/// check that a date carries. That may be so at the end of the calendar: then nothing changes.
pub fn apply_by(
    state: &mut State,
    previous: &Config,
    cfg: &Config,
    verified: Vec<Vetted>,
    now: i64,
) -> (r: bool)
    requires
        monitor::placed(cfg.monitor_schedule@),
    ensures
        r == (previous.monitor_schedule@ == cfg.monitor_schedule@ || monitor::followable(
            now as int,
            cfg.monitor_schedule@,
        )),
        r ==> saved(
            *old(state),
            *final(state),
            *previous,
            *cfg,
            vetted_views(verified@),
            now,
        ),
        !r ==> *final(state) == *old(state),
{
    if !same_schedule(&previous.monitor_schedule, &cfg.monitor_schedule) && monitor::next_date(
        now,
        cfg.monitor_schedule.as_slice(),
    ).is_none() {
        return false;
    }
    apply_at(state, previous, cfg, verified, now);
    true
}

/// Brings a state from one configuration to another, unless a new schedule gives no next check that a
/// date carries.
pub fn apply(state: &mut State, previous: &Config, cfg: &Config, verified: Vec<Vetted>) -> (r: bool)
    requires
        monitor::placed(cfg.monitor_schedule@),
    ensures
        previous.monitor_schedule@ == cfg.monitor_schedule@ ==> r,
        exists|now: i64|
            {
                &&& #[trigger] clock::reading(now as int)
                &&& r == (previous.monitor_schedule@ == cfg.monitor_schedule@
                    || monitor::followable(now as int, cfg.monitor_schedule@))
                &&& r ==> saved(
                    *old(state),
                    *final(state),
                    *previous,
                    *cfg,
                    vetted_views(verified@),
                    now,
                )
                &&& !r ==> *final(state) == *old(state)
            },
{
    let now = clock::now();
    assert(clock::reading(now as int));
    apply_by(state, previous, cfg, verified, now)
}

/// Whether the listener stays where it is: that takes a change of the file and a restart.
pub fn check_listener(previous: &Config, cfg: &Config) -> (r: Result<(), Rejection>)
    ensures
        r == (if previous.listen@ == cfg.listen@ {
            Ok::<(), Rejection>(())
        } else {
            Err::<(), Rejection>(Rejection::Listener)
        }),
{
    if same(previous.listen.as_str(), cfg.listen.as_str()) {
        Ok(())
    } else {
        Err(Rejection::Listener)
    }
}

/// Whether all sessions end with a configuration, its password being another.
pub fn password_changed(previous: &Config, cfg: &Config) -> (r: bool)
    ensures
        r == (previous.admin_password_hash@ != cfg.admin_password_hash@),
{
    !same(previous.admin_password_hash.as_str(), cfg.admin_password_hash.as_str())
}

/// The answer to a saved configuration.
pub open spec fn saved_document(c: Config, reauthenticate: bool) -> JsonView {
    JsonView::Object(
        seq![
            ("ok"@, JsonView::Bool(true)),
            ("reauthenticate"@, JsonView::Bool(reauthenticate)),
            ("revision"@, JsonView::Text(revision_of(c))),
        ],
    )
}

/// The answer to a saved configuration.
pub fn saved_answer(c: &Config, reauthenticate: bool) -> (r: Json)
    ensures
        r@ == saved_document(*c, reauthenticate),
{
    let r = object(
        vec![
            member("ok", Json::Bool(true)),
            member("reauthenticate", Json::Bool(reauthenticate)),
            member("revision", Json::text(c.digest().as_str())),
        ],
    );
    assert(r@->Object_0 =~= saved_document(*c, reauthenticate)->Object_0);
    r
}

/// What is to be verified.
#[derive(Clone, Copy, Debug, PartialEq, Eq, Structural)]
pub enum Target {
    AllMonitors,
    /// The places of a model, of a channel in it, and of the monitor that the channel relies on; whether
    /// the history of failures is forgotten.
    Channel(usize, usize, Option<usize>, bool),
    Monitor(usize),
    Nothing,
}

/// The place of the first model with a channel under an identifier, or the number of models.
pub open spec fn owner(models: Seq<Model>, id: Seq<char>) -> int
    decreases models.len(),
{
    if models.len() == 0 {
        0
    } else {
        let k = owner(models.drop_last(), id);
        if k < models.len() - 1 || state::channel_index(models.last().channels@, id)
            < models.last().channels@.len() {
            k
        } else {
            models.len() as int
        }
    }
}

proof fn owner_stays(s: Seq<Model>, id: Seq<char>, n: int)
    requires
        0 <= n <= s.len(),
        owner(s.take(n), id) < n,
    ensures
        owner(s, id) == owner(s.take(n), id),
    decreases s.len(),
{
    if n == s.len() {
        assert(s.take(n) =~= s);
    } else {
        assert(s.drop_last().take(n) =~= s.take(n));
        owner_stays(s.drop_last(), id, n);
    }
}

fn find_owner(models: &Vec<Model>, id: &str) -> (r: Option<(usize, usize)>)
    ensures
        match r {
            Some((m, c)) => {
                &&& m == owner(models@, id@)
                &&& m < models@.len()
                &&& c == state::channel_index(models@[m as int].channels@, id@)
                &&& c < models@[m as int].channels@.len()
            },
            None => owner(models@, id@) == models@.len(),
        },
{
    let mut i: usize = 0;
    assert(models@.take(0) =~= Seq::empty());
    while i < models.len()
        invariant
            i <= models@.len(),
            owner(models@.take(i as int), id@) == i,
        decreases models@.len() - i,
    {
        assert(models@.take(i + 1).drop_last() =~= models@.take(i as int));
        let channels = &models[i].channels;
        let c = state::find_channel(channels, id);
        if c < channels.len() {
            proof {
                owner_stays(models@, id@, i + 1);
            }
            return Some((i, c));
        }
        i = i + 1;
    }
    assert(models@.take(models@.len() as int) =~= models@);
    None
}

/// The place of the first monitor under an identifier, or the number of monitors.
pub open spec fn monitor_index(s: Seq<Monitor>, id: Seq<char>) -> int
    decreases s.len(),
{
    if s.len() == 0 {
        0
    } else {
        let k = monitor_index(s.drop_last(), id);
        if k < s.len() - 1 || s.last().id@ == id {
            k
        } else {
            s.len() as int
        }
    }
}

proof fn monitor_stays(s: Seq<Monitor>, id: Seq<char>, n: int)
    requires
        0 <= n <= s.len(),
        monitor_index(s.take(n), id) < n,
    ensures
        monitor_index(s, id) == monitor_index(s.take(n), id),
    decreases s.len(),
{
    if n == s.len() {
        assert(s.take(n) =~= s);
    } else {
        assert(s.drop_last().take(n) =~= s.take(n));
        monitor_stays(s.drop_last(), id, n);
    }
}

fn find_monitor(s: &Vec<Monitor>, id: &str) -> (r: usize)
    ensures
        r == monitor_index(s@, id@),
        r <= s@.len(),
{
    let mut i: usize = 0;
    assert(s@.take(0) =~= Seq::empty());
    while i < s.len()
        invariant
            i <= s@.len(),
            monitor_index(s@.take(i as int), id@) == i,
        decreases s@.len() - i,
    {
        assert(s@.take(i + 1).drop_last() =~= s@.take(i as int));
        if same(s[i].id.as_str(), id) {
            proof {
                monitor_stays(s@, id@, i + 1);
            }
            return i;
        }
        i = i + 1;
    }
    assert(s@.take(s@.len() as int) =~= s@);
    i
}

/// The place of the monitor under an identifier, where there is one.
pub open spec fn monitor_place(s: Seq<Monitor>, id: Option<Seq<char>>) -> Option<usize> {
    match id {
        Some(t) => if monitor_index(s, t) < s.len() {
            Some(monitor_index(s, t) as usize)
        } else {
            None
        },
        None => None,
    }
}

fn place_monitor(s: &Vec<Monitor>, id: Option<&String>) -> (r: Option<usize>)
    ensures
        r == monitor_place(
            s@,
            match id {
                Some(t) => Some(t@),
                None => None,
            },
        ),
        r is Some ==> r->0 < s@.len(),
{
    match id {
        Some(t) => {
            let i = find_monitor(s, t.as_str());
            if i < s.len() {
                Some(i)
            } else {
                None
            }
        },
        None => None,
    }
}

/// What a request asks to verify: all monitors, a channel with what it relies on, or a monitor.
pub open spec fn target_of(cfg: Config, v: JsonView) -> Target {
    let id = text_at(v, "channel_id"@);
    let m = owner(cfg.models@, id);
    if v.at("all_monitors"@).as_bool() == Some(true) {
        Target::AllMonitors
    } else if m < cfg.models@.len() {
        let c = state::channel_index(cfg.models@[m].channels@, id);
        Target::Channel(
            m as usize,
            c as usize,
            monitor_place(
                cfg.monitors@,
                text::opt_view(cfg.models@[m].channels@[c].monitor_id),
            ),
            v.at("reset"@).as_bool() == Some(true),
        )
    } else {
        match monitor_place(cfg.monitors@, v.at("monitor_id"@).as_str()) {
            Some(i) => Target::Monitor(i),
            None => Target::Nothing,
        }
    }
}

/// What a request asks to verify.
pub fn target(cfg: &Config, v: &Json) -> (r: Target)
    ensures
        r == target_of(*cfg, v@),
        match r {
            Target::Channel(m, c, monitor, _) => {
                &&& m < cfg.models@.len()
                &&& c < cfg.models@[m as int].channels@.len()
                &&& monitor is Some ==> monitor->0 < cfg.monitors@.len()
            },
            Target::Monitor(i) => i < cfg.monitors@.len(),
            _ => true,
        },
{
    let all = match bool_of(at(Some(v), "all_monitors")) {
        Some(b) => b,
        None => false,
    };
    if all {
        return Target::AllMonitors;
    }
    let id = text_of(v, "channel_id");
    let reset = match bool_of(at(Some(v), "reset")) {
        Some(b) => b,
        None => false,
    };
    match find_owner(&cfg.models, id.as_str()) {
        Some((m, c)) => {
            let monitor = match &cfg.models[m].channels[c].monitor_id {
                Some(t) => place_monitor(&cfg.monitors, Some(t)),
                None => None,
            };
            Target::Channel(m, c, monitor, reset)
        },
        None => match place_monitor(&cfg.monitors, str_of(at(Some(v), "monitor_id"))) {
            Some(i) => Target::Monitor(i),
            None => Target::Nothing,
        },
    }
}

/// A question for the interface of an upstream.
pub struct Inquiry {
    pub base_url: String,
    pub key: String,
    pub kind: Adapter,
}

/// A question is short enough to be put.
pub open spec fn askable(v: JsonView) -> bool {
    &&& text::bytes(text_at(v, "base_url"@)) <= 2048
    &&& text::bytes(text_at(v, "key"@)) <= 4096
    &&& text_at(v, "key"@).len() > 0
}

/// The question that a request puts, where it can be.
pub fn inquiry(v: &Json) -> (r: Option<Inquiry>)
    ensures
        r is Some <==> askable(v@),
        r is Some ==> {
            &&& r->0.base_url@ == text_at(v@, "base_url"@)
            &&& r->0.key@ == text_at(v@, "key"@)
            &&& r->0.kind == Adapter::official(
                text_at(v@, "model"@),
                if v@.at("subscription"@).as_bool() == Some(true) {
                    Adapter::Subscription
                } else {
                    Adapter::Auto
                },
            )
        },
{
    let base_url = text_of(v, "base_url");
    let key = text_of(v, "key");
    let model = text_of(v, "model");
    if size(base_url.as_str()) > 2048 || size(key.as_str()) > 4096 || is_empty(key.as_str()) {
        return None;
    }
    let configured = match bool_of(at(Some(v), "subscription")) {
        Some(true) => Adapter::Subscription,
        _ => Adapter::Auto,
    };
    let kind = Adapter::for_model(model.as_str(), configured);
    Some(Inquiry { base_url, key, kind })
}

/// A key that is configured as it was needs no look before a configuration is saved.
pub proof fn unchanged_keys_are_not_vetted(models: Seq<Model>, m: int, c: int, k: int)
    requires
        0 <= m < models.len(),
        0 <= c < models[m].channels@.len(),
        0 <= k < models[m].channels@[c].keys@.len(),
    ensures
        unchanged(
            models,
            models[m].id@,
            models[m].channels@[c],
            models[m].channels@[c].keys@[k],
        ),
{
    let channel = models[m].channels@[c];
    assert(key_same(models[m], channel, models[m].id@, channel, channel.keys@[k]));
    assert(model_same(models[m], models[m].id@, channel, channel.keys@[k]));
}

proof fn lookup_after_push(s: Seq<(Seq<char>, JsonView)>, x: (Seq<char>, JsonView), key: Seq<char>)
    ensures
        json::lookup(s.push(x), key) == (match json::lookup(s, key) {
            Some(v) => Some(v),
            None => if x.0 == key {
                Some(x.1)
            } else {
                None
            },
        }),
    decreases s.len(),
{
    let t = s.push(x);
    if s.len() == 0 {
        assert(t[0] == x);
        assert(t.skip(1) =~= Seq::empty());
        assert(json::lookup(t.skip(1), key) is None);
    } else {
        assert(t[0] == s[0]);
        assert(t.skip(1) =~= s.skip(1).push(x));
        lookup_after_push(s.skip(1), x, key);
    }
}

proof fn lookup_without(s: Seq<(Seq<char>, JsonView)>, key: Seq<char>, other: Seq<char>)
    ensures
        json::lookup(without(s, key), other) == (if other == key {
            None
        } else {
            json::lookup(s, other)
        }),
    decreases s.len(),
{
    if s.len() > 0 {
        let t = s.drop_last();
        lookup_without(t, key, other);
        assert(t.push(s.last()) =~= s);
        lookup_after_push(t, s.last(), other);
        lookup_after_push(without(t, key), s.last(), other);
    }
}

/// A saved document sets everything but the password hash, which only a new password changes: what is
/// sent as the hash is ignored.
pub proof fn sent_hashes_are_ignored(
    o: Seq<(Seq<char>, JsonView)>,
    previous: Config,
    key: Seq<char>,
)
    ensures
        json::lookup(draft_members(o, previous), "admin_password_hash"@) == Some(
            JsonView::Text(previous.admin_password_hash@),
        ),
        key != "_revision"@ && key != "employee_keys"@ && key != "admin_password_hash"@ && key
            != "new_password"@ ==> json::lookup(draft_members(o, previous), key) == json::lookup(
            o,
            key,
        ),
        json::lookup(draft_members(o, previous), "employee_keys"@) == (match json::lookup(
            o,
            "employee_keys"@,
        ) {
            Some(v) => Some(v),
            None => Some(previous.employee_keys@),
        }),
{
    reveal_strlit("_revision");
    reveal_strlit("employee_keys");
    reveal_strlit("admin_password_hash");
    reveal_strlit("new_password");
    assert("_revision"@.len() == 9);
    assert("employee_keys"@.len() == 13);
    assert("admin_password_hash"@.len() == 19);
    assert("new_password"@.len() == 12);
    let a = without(o, "_revision"@);
    let kept = ("employee_keys"@, previous.employee_keys@);
    let b = if json::lookup(o, "employee_keys"@) is None {
        a.push(kept)
    } else {
        a
    };
    let c = without(b, "admin_password_hash"@);
    let hash = ("admin_password_hash"@, JsonView::Text(previous.admin_password_hash@));
    let d = c.push(hash);
    assert forall|k: Seq<char>|
        json::lookup(draft_members(o, previous), k) == (if k == "new_password"@ {
            None
        } else if k == "admin_password_hash"@ {
            Some(hash.1)
        } else {
            json::lookup(b, k)
        }) by {
        lookup_without(d, "new_password"@, k);
        lookup_after_push(c, hash, k);
        lookup_without(b, "admin_password_hash"@, k);
    }
    lookup_without(o, "_revision"@, key);
    lookup_without(o, "_revision"@, "employee_keys"@);
    lookup_after_push(a, kept, key);
    lookup_after_push(a, kept, "employee_keys"@);
}

/// A text of lowercase hexadecimal digits.
pub open spec fn is_hex(s: Seq<char>) -> bool {
    forall|i: int| 0 <= i < s.len() ==> ('0' <= #[trigger] s[i] <= '9' || 'a' <= s[i] <= 'f')
}

proof fn hex_is_hex(n: nat, width: nat)
    ensures
        is_hex(text::hex(n, width)),
        text::hex(n, width).len() == width,
    decreases width,
{
    if width > 0 {
        hex_is_hex(n / 16, (width - 1) as nat);
    }
}

/// Tokens are hexadecimal, two digits for each byte.
pub proof fn tokens_are_hexadecimal(bytes: Seq<u8>)
    ensures
        is_hex(hex_of(bytes)),
        hex_of(bytes).len() == 2 * bytes.len(),
    decreases bytes.len(),
{
    if bytes.len() > 0 {
        tokens_are_hexadecimal(bytes.drop_last());
        hex_is_hex(bytes.last() as nat, 2);
    }
}

proof fn one_piece(s: Seq<char>, c: char)
    requires
        !s.contains(c),
    ensures
        text::pieces(s, c) == seq![s],
    decreases s.len(),
{
    if s.len() > 0 {
        let t = s.drop_last();
        assert forall|x: char| t.contains(x) implies s.contains(x) by {
            let i = choose|i: int| 0 <= i < t.len() && t[i] == x;
            assert(s[i] == x);
        }
        one_piece(t, c);
        assert(s.contains(s.last())) by {
            assert(s[s.len() - 1] == s.last());
        }
        assert(seq![t].drop_last().push(t.push(s.last())) =~= seq![s]) by {
            assert(t.push(s.last()) =~= s);
        }
    }
}

proof fn first_piece(a: Seq<char>, b: Seq<char>, c: char)
    requires
        !a.contains(c),
    ensures
        text::pieces(a + seq![c] + b, c).len() >= 2,
        text::pieces(a + seq![c] + b, c)[0] == a,
    decreases b.len(),
{
    let s = a + seq![c] + b;
    if b.len() == 0 {
        assert(s.drop_last() =~= a);
        assert(s.last() == c);
        one_piece(a, c);
    } else {
        assert(s.drop_last() =~= a + seq![c] + b.drop_last());
        first_piece(a, b.drop_last(), c);
    }
}

/// The session that a login hands out is the one that its cookie names, with or without what else
/// stands in the header.
pub proof fn cookies_name_their_session(token: Seq<char>)
    requires
        is_hex(token),
    ensures
        session_of("forest_session="@ + token) == Some(token),
        session_of(cookie_of(token)) == Some(token),
{
    reveal_strlit("forest_session=");
    reveal_strlit("; HttpOnly; SameSite=Strict; Path=/; Max-Age=43200");
    let own = "forest_session="@ + token;
    let rest = "; HttpOnly; SameSite=Strict; Path=/; Max-Age=43200"@;
    assert(!own.contains(';'));
    assert(own[0] == 'f');
    assert(!text::whitespace(own[0]));
    assert(!text::whitespace(own.last())) by {
        if token.len() > 0 {
            assert(own.last() == token[token.len() - 1]);
        } else {
            assert(own =~= "forest_session="@);
            assert(own.last() == '=');
        }
    }
    assert(text::trimmed(own) == own);
    assert(own.take(15) =~= "forest_session="@);
    assert(own.skip(15) =~= token);
    assert(text::after(own, "forest_session="@) == Some(token));
    one_piece(own, ';');
    let alone = text::pieces(own, ';');
    assert(alone.drop_last() =~= Seq::empty());
    assert(session_in(alone.drop_last()) is None);
    assert(cookie_of(token) =~= own + seq![';'] + rest.skip(1));
    first_piece(own, rest.skip(1), ';');
    let s = text::pieces(cookie_of(token), ';');
    assert(s.take(1) =~= seq![own]);
    assert(s.take(1).drop_last() =~= Seq::empty());
    session_stays(s, 1);
}

/// A good login lets its holder in: for twelve hours the cookie that it hands out names a session that
/// has not ended.
pub proof fn logins_let_in(
    before: Map<Seq<char>, i64>,
    after: Map<Seq<char>, i64>,
    bytes: Seq<u8>,
    now: i64,
    later: i64,
)
    requires
        now + 43200 <= i64::MAX,
        opened(before, after, hex_of(bytes), now),
        later < now + 43200,
    ensures
        match session_of(cookie_of(hex_of(bytes))) {
            Some(t) => live(after, later).contains_key(t),
            None => false,
        },
{
    tokens_are_hexadecimal(bytes);
    cookies_name_their_session(hex_of(bytes));
    sessions_last_twelve_hours(before, after, hex_of(bytes), now, later);
}

/// The fifth failed login holds logins off for a second, and each one after it for twice as long as the
/// one before, but never for more than a minute. A good login forgets the failures.
pub proof fn pauses_double_up_to_a_minute(g: LoginBrake, now: int)
    requires
        0 <= now,
        now + 60 <= i64::MAX,
    ensures
        g.failures < u32::MAX ==> g.failed(now).failures == g.failures + 1,
        g.failures == u32::MAX ==> g.failed(now).failures == u32::MAX,
        g.failures < 4 ==> g.failed(now).until == g.until,
        g.failures == 4 ==> g.failed(now).until == now + 1,
        4 <= g.failures < 10 ==> g.failed(now).failed(now).until - now == (if 2 * (g.failed(now).until
            - now) > 60 {
            60
        } else {
            2 * (g.failed(now).until - now)
        }),
        g.failures >= 10 ==> g.failed(now).until == now + 60,
{
}

/// A password of more than 1024 bytes is not looked at. Any other opens the door exactly where it is
/// accepted.
pub proof fn accepted_passwords_open(password: Seq<char>, accepted: bool)
    ensures
        login_of(password, accepted) is Refused <==> text::bytes(password) > 1024,
        login_of(password, accepted) is Right <==> text::bytes(password) <= 1024 && accepted,
        login_of(password, accepted) is Wrong <==> text::bytes(password) <= 1024 && !accepted,
{
}

/// A session lasts until its end, and other sessions have no part in that.
pub proof fn sessions_live_until_their_end(m: Map<Seq<char>, i64>, now: i64, t: Seq<char>)
    ensures
        live(m, now).contains_key(t) <==> m.contains_key(t) && now < m[t],
        live(m, now).contains_key(t) ==> live(m, now)[t] == m[t],
{
}

/// A new session leaves the others as they are: all that have not ended, while there are fewer than
/// sixteen of them, and else all but one, which ends no later than any of those that stay.
pub proof fn other_sessions_stay(
    before: Map<Seq<char>, i64>,
    after: Map<Seq<char>, i64>,
    token: Seq<char>,
    now: i64,
    t: Seq<char>,
    u: Seq<char>,
)
    requires
        now + 43200 <= i64::MAX,
        opened(before, after, token, now),
        t != token,
        u != token,
    ensures
        after.contains_key(token) && after[token] == now + 43200,
        after.contains_key(t) ==> before.contains_key(t) && after[t] == before[t] && before[t] > now,
        live(before, now).dom().len() < 16 && before.contains_key(t) && before[t] > now
            ==> after.contains_key(t),
        before.contains_key(t) && before[t] > now && !after.contains_key(t) && before.contains_key(u)
            && before[u] > now && t != u ==> after.contains_key(u) && before[t] <= before[u],
{
    let kept = live(before, now);
    assert(kept.contains_key(t) <==> before.contains_key(t) && before[t] > now);
    assert(kept.contains_key(u) <==> before.contains_key(u) && before[u] > now);
    if kept.dom().len() >= 16 {
        let x = choose|x: Seq<char>| #[trigger]
            ends_first(kept, x) && after == kept.remove(x).insert(token, (now + 43200) as i64);
        assert(ends_first(kept, x));
    }
}

/// A piece of a cookie names a session.
pub open spec fn names_session(piece: Seq<char>, token: Seq<char>) -> bool {
    text::after(text::trimmed(piece), "forest_session="@) == Some(token)
}

/// The first piece of a cookie that names a session is the one that counts, whatever stands before and
/// after it. Where no piece names one, none is found.
pub proof fn first_named_sessions_count(cookie: Seq<char>, n: int, token: Seq<char>)
    requires
        0 <= n <= text::pieces(cookie, ';').len(),
        forall|i: int, t: Seq<char>|
            0 <= i < n ==> !#[trigger] names_session(text::pieces(cookie, ';')[i], t),
    ensures
        n < text::pieces(cookie, ';').len() && names_session(text::pieces(cookie, ';')[n], token)
            ==> session_of(cookie) == Some(token),
        n == text::pieces(cookie, ';').len() ==> session_of(cookie) is None,
{
    let s = text::pieces(cookie, ';');
    nothing_named(s, n);
    if n < s.len() && names_session(s[n], token) {
        assert(s.take(n + 1).drop_last() =~= s.take(n));
        assert(s.take(n + 1).last() == s[n]);
        session_stays(s, n + 1);
    }
    assert(s.take(s.len() as int) =~= s);
}

proof fn nothing_named(s: Seq<Seq<char>>, n: int)
    requires
        0 <= n <= s.len(),
        forall|i: int, t: Seq<char>| 0 <= i < n ==> !#[trigger] names_session(s[i], t),
    ensures
        session_in(s.take(n)) is None,
    decreases n,
{
    if n > 0 {
        nothing_named(s, n - 1);
        assert(s.take(n).drop_last() =~= s.take(n - 1));
        assert(s.take(n).last() == s[n - 1]);
        match text::after(text::trimmed(s[n - 1]), "forest_session="@) {
            Some(t) => {
                assert(names_session(s[n - 1], t));
            },
            None => {},
        }
    }
}

/// The requests of a model go to the first of its channels that may serve, and there is one as soon as
/// any of them may.
pub proof fn first_ready_channels_are_preferred(s: State, m: Model, now: int, n: int)
    requires
        0 <= n <= m.channels@.len(),
    ensures
        match first_ready(s, m, now, n) {
            Some(i) => {
                &&& 0 <= i < n
                &&& s.ready(m.channels@[i], now)
                &&& forall|j: int| 0 <= j < i ==> !#[trigger] s.ready(m.channels@[j], now)
            },
            None => forall|j: int| 0 <= j < n ==> !#[trigger] s.ready(m.channels@[j], now),
        },
    decreases n,
{
    if n > 0 {
        first_ready_channels_are_preferred(s, m, now, n - 1);
    }
}

/// Only a password that says something is set, and it is set as it was sent.
pub proof fn set_passwords_are_as_sent(v: JsonView, t: Seq<char>)
    ensures
        draft_password(v) == Some(t) <==> t.len() > 0 && v.at("new_password"@) == JsonView::Text(t),
{
}

/// What a saved document sets is neither its revision nor a new password.
pub proof fn revisions_and_passwords_are_left_out(o: Seq<(Seq<char>, JsonView)>, previous: Config)
    ensures
        json::lookup(draft_members(o, previous), "_revision"@) is None,
        json::lookup(draft_members(o, previous), "new_password"@) is None,
{
    reveal_strlit("_revision");
    reveal_strlit("employee_keys");
    reveal_strlit("admin_password_hash");
    reveal_strlit("new_password");
    assert("_revision"@.len() == 9);
    assert("employee_keys"@.len() == 13);
    assert("admin_password_hash"@.len() == 19);
    assert("new_password"@.len() == 12);
    let a = without(o, "_revision"@);
    let kept = ("employee_keys"@, previous.employee_keys@);
    let b = if json::lookup(o, "employee_keys"@) is None {
        a.push(kept)
    } else {
        a
    };
    let c = without(b, "admin_password_hash"@);
    let hash = ("admin_password_hash"@, JsonView::Text(previous.admin_password_hash@));
    lookup_without(c.push(hash), "new_password"@, "new_password"@);
    lookup_without(c.push(hash), "new_password"@, "_revision"@);
    lookup_after_push(c, hash, "_revision"@);
    lookup_without(b, "admin_password_hash"@, "_revision"@);
    lookup_after_push(a, kept, "_revision"@);
    lookup_without(o, "_revision"@, "_revision"@);
}

/// A key needs a look unless a channel under the same identifier had a key under the same identifier
/// and with the same identity.
pub proof fn changed_keys_are_vetted(
    old: Seq<Model>,
    model: Seq<char>,
    c: Channel,
    k: Key,
    i: int,
    j: int,
    l: int,
)
    requires
        0 <= i < old.len(),
        0 <= j < old[i].channels@.len(),
        0 <= l < old[i].channels@[j].keys@.len(),
    ensures
        ({
            let oc = old[i].channels@[j];
            oc.id@ == c.id@ && oc.keys@[l].id@ == k.id@ && oc.identity_of(old[i].id@, oc.keys@[l])
                == c.identity_of(model, k)
        }) ==> unchanged(old, model, c, k),
        unchanged(old, model, c, k) ==> exists|x: int, y: int, z: int| #[trigger]
            configured_at(old, x, y, z) && old[x].channels@[y].id@ == c.id@
                && old[x].channels@[y].keys@[z].id@ == k.id@ && old[x].channels@[y].identity_of(
                old[x].id@,
                old[x].channels@[y].keys@[z],
            ) == c.identity_of(model, k),
{
    let oc = old[i].channels@[j];
    if oc.id@ == c.id@ && oc.keys@[l].id@ == k.id@ && oc.identity_of(old[i].id@, oc.keys@[l])
        == c.identity_of(model, k) {
        assert(key_same(old[i], oc, model, c, k));
        assert(model_same(old[i], model, c, k));
    }
    if unchanged(old, model, c, k) {
        let x = choose|x: int| 0 <= x < old.len() && model_same(#[trigger] old[x], model, c, k);
        let y = choose|y: int|
            0 <= y < old[x].channels@.len() && (#[trigger] old[x].channels@[y]).id@ == c.id@
                && key_same(old[x], old[x].channels@[y], model, c, k);
        let oc = old[x].channels@[y];
        let z = choose|z: int|
            0 <= z < oc.keys@.len() && (#[trigger] oc.keys@[z]).id@ == k.id@ && oc.identity_of(
                old[x].id@,
                oc.keys@[z],
            ) == c.identity_of(model, k);
        assert(configured_at(old, x, y, z));
    }
}

/// There is a key at a place.
pub open spec fn configured_at(models: Seq<Model>, m: int, c: int, k: int) -> bool {
    &&& 0 <= m < models.len()
    &&& 0 <= c < models[m].channels@.len()
    &&& 0 <= k < models[m].channels@[c].keys@.len()
}

proof fn fresh_in_channel(old: Seq<Model>, m: Model, at: (int, int), n: int, k: int)
    requires
        0 <= at.0 <= usize::MAX,
        0 <= at.1 < m.channels@.len() <= usize::MAX,
        0 <= n <= m.channels@[at.1].keys@.len() <= usize::MAX,
        0 <= k < m.channels@[at.1].keys@.len(),
    ensures
        fresh_keys(old, m, at, n).contains((at.0 as usize, at.1 as usize, k as usize)) <==> k < n
            && !unchanged(old, m.id@, m.channels@[at.1], m.channels@[at.1].keys@[k]),
        forall|p: Place| #[trigger]
            fresh_keys(old, m, at, n).contains(p) ==> p.0 == at.0 && p.1 == at.1,
    decreases n,
{
    let all = fresh_keys(old, m, at, n);
    if n > 0 {
        let rest = fresh_keys(old, m, at, n - 1);
        let own = (at.0 as usize, at.1 as usize, (n - 1) as usize);
        fresh_in_channel(old, m, at, n - 1, k);
        if !unchanged(old, m.id@, m.channels@[at.1], m.channels@[at.1].keys@[n - 1]) {
            assert(all == rest.push(own));
            pushed_is_there(rest, own);
        }
    }
}

proof fn pushed_is_there(s: Seq<Place>, x: Place)
    ensures
        forall|p: Place| #[trigger] s.push(x).contains(p) <==> s.contains(p) || p == x,
{
    assert forall|p: Place| #[trigger] s.push(x).contains(p) <==> s.contains(p) || p == x by {
        if s.contains(p) {
            let i = choose|i: int| 0 <= i < s.len() && s[i] == p;
            assert(s.push(x)[i] == p);
        }
        if p == x {
            assert(s.push(x)[s.len() as int] == p);
        }
    }
}

proof fn joined_are_there(s: Seq<Place>, t: Seq<Place>)
    ensures
        forall|p: Place| #[trigger] (s + t).contains(p) <==> s.contains(p) || t.contains(p),
{
    assert forall|p: Place| #[trigger] (s + t).contains(p) <==> s.contains(p) || t.contains(p) by {
        if s.contains(p) {
            let i = choose|i: int| 0 <= i < s.len() && s[i] == p;
            assert((s + t)[i] == p);
        }
        if t.contains(p) {
            let i = choose|i: int| 0 <= i < t.len() && t[i] == p;
            assert((s + t)[s.len() + i] == p);
        }
    }
}

proof fn fresh_in_model(old: Seq<Model>, m: Model, at: int, n: int, c: int, k: int)
    requires
        0 <= at <= usize::MAX,
        0 <= n <= m.channels@.len(),
        0 <= c < m.channels@.len(),
        0 <= k < m.channels@[c].keys@.len(),
    ensures
        fresh_channels(old, m, at, n).contains((at as usize, c as usize, k as usize)) <==> c < n
            && !unchanged(old, m.id@, m.channels@[c], m.channels@[c].keys@[k]),
        forall|p: Place| #[trigger]
            fresh_channels(old, m, at, n).contains(p) ==> p.0 == at && p.1 < n,
    decreases n,
{
    assert(m.channels.len() == m.channels@.len());
    if n > 0 {
        fresh_in_model(old, m, at, n - 1, c, k);
        let keys = m.channels@[n - 1].keys;
        assert(keys.len() == keys@.len());
        let rest = fresh_channels(old, m, at, n - 1);
        let own = fresh_keys(old, m, (at, n - 1), keys@.len() as int);
        joined_are_there(rest, own);
        if c == n - 1 {
            fresh_in_channel(old, m, (at, n - 1), keys@.len() as int, k);
        } else if keys@.len() > 0 {
            fresh_in_channel(old, m, (at, n - 1), keys@.len() as int, 0);
        }
    }
}

/// Exactly the keys that were not configured so before are looked at before a configuration is saved.
pub proof fn new_keys_are_vetted(old: Seq<Model>, models: Seq<Model>, n: int, m: int, c: int, k: int)
    requires
        models.len() <= usize::MAX,
        0 <= n <= models.len(),
        configured_at(models, m, c, k),
    ensures
        fresh_models(old, models, n).contains((m as usize, c as usize, k as usize)) <==> m < n
            && !unchanged(
            old,
            models[m].id@,
            models[m].channels@[c],
            models[m].channels@[c].keys@[k],
        ),
        forall|p: Place| #[trigger] fresh_models(old, models, n).contains(p) ==> p.0 < n,
    decreases n,
{
    if n > 0 {
        new_keys_are_vetted(old, models, n - 1, m, c, k);
        let channels = models[n - 1].channels;
        let rest = fresh_models(old, models, n - 1);
        let own = fresh_channels(old, models[n - 1], n - 1, channels@.len() as int);
        joined_are_there(rest, own);
        if m == n - 1 {
            fresh_in_model(old, models[n - 1], n - 1, channels@.len() as int, c, k);
        } else {
            others_stay_elsewhere(old, models[n - 1], n - 1, channels@.len() as int);
        }
    }
}

proof fn others_stay_elsewhere(old: Seq<Model>, m: Model, at: int, n: int)
    requires
        0 <= at <= usize::MAX,
        0 <= n <= m.channels@.len(),
    ensures
        forall|p: Place| #[trigger] fresh_channels(old, m, at, n).contains(p) ==> p.0 == at,
    decreases n,
{
    assert(m.channels.len() == m.channels@.len());
    if n > 0 {
        others_stay_elsewhere(old, m, at, n - 1);
        let keys = m.channels@[n - 1].keys;
        assert(keys.len() == keys@.len());
        joined_are_there(
            fresh_channels(old, m, at, n - 1),
            fresh_keys(old, m, (at, n - 1), keys@.len() as int),
        );
        if keys@.len() > 0 {
            fresh_in_channel(old, m, (at, n - 1), keys@.len() as int, 0);
        }
    }
}

/// The answers to what is not saved: the sender's fault is a bad request, an edit that another one
/// overtook is a conflict, a look that takes too long is a timeout, and the rest is the service's own
/// fault.
pub proof fn rejections_have_statuses(r: Rejection)
    ensures
        r.status_of() == 400 <==> r is NoObject || r is Malformed || r is LongPassword || r is Listener,
        r.status_of() == 409 <==> r is Stale || r is Busy,
        r.status_of() == 500 <==> r is NoHash || r is Unwritten,
        r.status_of() == 504 <==> r is Slow,
        r is Stale ==> r.text_of() == "配置已被修改或缺少版本号，请刷新后重新编辑"@,
        r is Busy ==> r.text_of() == "另一个保存正在执行，请稍后重试"@,
        r is NoObject ==> r.text_of() == "配置必须为JSON对象"@,
        r is Malformed ==> r.text_of() == "配置格式错误"@,
        r is Listener ==> r.text_of() == "监听地址需修改文件并重启服务"@,
        r is Slow ==> r.text_of() == "配置验证超过60秒，未保存；请分批添加Key"@,
        r is Unwritten ==> r.text_of() == "配置写盘失败"@,
        r is LongPassword || r is NoHash ==> r.text_of() == ""@,
{
}

/// A channel takes the interface that its vetted keys have, whichever of them is looked at, and keeps
/// its own where none was vetted.
pub proof fn vetted_interfaces_are_adopted(s: Seq<VettedView>, m: int, c: int, other: Adapter, i: int)
    requires
        0 <= i < s.len(),
        s[i].place.0 == m,
        s[i].place.1 == c,
        forall|j: int|
            0 <= j < s.len() && (#[trigger] s[j]).place.0 == m && s[j].place.1 == c ==> s[j].adapter
                == s[i].adapter,
    ensures
        adopted(s, m, c, other) == s[i].adapter,
    decreases s.len(),
{
    let last = s[s.len() - 1];
    if !(last.place.0 == m && last.place.1 == c) {
        let t = s.drop_last();
        assert(t[i] == s[i]);
        assert forall|j: int|
            0 <= j < t.len() && (#[trigger] t[j]).place.0 == m && t[j].place.1 == c implies t[j].adapter
            == t[i].adapter by {
            assert(s[j] == t[j]);
        }
        vetted_interfaces_are_adopted(t, m, c, other, i);
    }
}

/// A channel without a vetted key keeps its interface.
pub proof fn unvetted_interfaces_stay(s: Seq<VettedView>, m: int, c: int, other: Adapter)
    requires
        forall|j: int|
            0 <= j < s.len() ==> !((#[trigger] s[j]).place.0 == m && s[j].place.1 == c),
    ensures
        adopted(s, m, c, other) == other,
    decreases s.len(),
{
    if s.len() > 0 {
        let t = s.drop_last();
        assert(!(s[s.len() - 1].place.0 == m && s[s.len() - 1].place.1 == c));
        assert forall|j: int| 0 <= j < t.len() implies !((#[trigger] t[j]).place.0 == m
            && t[j].place.1 == c) by {
            assert(s[j] == t[j]);
        }
        unvetted_interfaces_stay(t, m, c, other);
    }
}

/// A new key is asked through the subscription interface where its channel chose that, and else through
/// whichever is found, unless the model's family has an official one.
pub proof fn vetting_detects_interfaces(model: Seq<char>, adapter: Adapter)
    ensures
        text::contained(text::lowered(model), "deepseek"@) ==> vetting_kind(model, adapter)
            is Deepseek,
        !text::contained(text::lowered(model), "deepseek"@) && text::contained(
            text::lowered(model),
            "glm"@,
        ) ==> vetting_kind(model, adapter) is Glm,
        !text::contained(text::lowered(model), "deepseek"@) && !text::contained(
            text::lowered(model),
            "glm"@,
        ) ==> vetting_kind(model, adapter) == (if adapter is Subscription {
            Adapter::Subscription
        } else {
            Adapter::Auto
        }),
{
}

/// What vetting found of a key is what is known of its quota from then on, as of the time of the save.
/// Nothing else that is known of it changes, and no other key is touched.
pub proof fn vetted_quotas_are_noted(
    m: Map<Seq<char>, KeyView>,
    s: Seq<VettedView>,
    now: i64,
    n: int,
    i: int,
    id: Seq<char>,
)
    requires
        0 <= i < n <= s.len(),
        forall|j: int| i < j < n ==> (#[trigger] s[j]).id != s[i].id,
        forall|j: int| 0 <= j < n ==> (#[trigger] s[j]).id != id,
    ensures
        keys_vetted(m, s, now, n).contains_key(s[i].id),
        ({
            let was = if m.contains_key(s[i].id) {
                m[s[i].id]
            } else {
                KeyView::blank()
            };
            keys_vetted(m, s, now, n)[s[i].id] == KeyView {
                detected: Some(s[i].adapter),
                allowance: Some(s[i].allowance),
                balance_checked: now,
                ..was
            }
        }),
        keys_vetted(m, s, now, n).contains_key(id) <==> m.contains_key(id),
        m.contains_key(id) ==> keys_vetted(m, s, now, n)[id] == m[id],
    decreases n,
{
    others_are_untouched(m, s, now, n, id);
    last_vetting_counts(m, s, now, n, i);
}

proof fn others_are_untouched(
    m: Map<Seq<char>, KeyView>,
    s: Seq<VettedView>,
    now: i64,
    n: int,
    id: Seq<char>,
)
    requires
        0 <= n <= s.len(),
        forall|j: int| 0 <= j < n ==> (#[trigger] s[j]).id != id,
    ensures
        keys_vetted(m, s, now, n).contains_key(id) <==> m.contains_key(id),
        m.contains_key(id) ==> keys_vetted(m, s, now, n)[id] == m[id],
    decreases n,
{
    if n > 0 {
        assert(s[n - 1].id != id);
        others_are_untouched(m, s, now, n - 1, id);
    }
}

/// Only the quota of a vetted key is noted.
pub open spec fn noted_from(is: KeyView, was: KeyView) -> bool {
    is == (KeyView {
        detected: is.detected,
        allowance: is.allowance,
        balance_checked: is.balance_checked,
        ..was
    })
}

proof fn only_quotas_change(
    m: Map<Seq<char>, KeyView>,
    s: Seq<VettedView>,
    now: i64,
    n: int,
    id: Seq<char>,
)
    requires
        0 <= n <= s.len(),
    ensures
        m.contains_key(id) ==> keys_vetted(m, s, now, n).contains_key(id) && noted_from(
            keys_vetted(m, s, now, n)[id],
            m[id],
        ),
        !m.contains_key(id) && keys_vetted(m, s, now, n).contains_key(id) ==> noted_from(
            keys_vetted(m, s, now, n)[id],
            KeyView::blank(),
        ),
    decreases n,
{
    if n > 0 {
        only_quotas_change(m, s, now, n - 1, id);
    }
}

proof fn last_vetting_counts(
    m: Map<Seq<char>, KeyView>,
    s: Seq<VettedView>,
    now: i64,
    n: int,
    i: int,
)
    requires
        0 <= i < n <= s.len(),
        forall|j: int| i < j < n ==> (#[trigger] s[j]).id != s[i].id,
    ensures
        keys_vetted(m, s, now, n).contains_key(s[i].id),
        ({
            let is = keys_vetted(m, s, now, n)[s[i].id];
            &&& is.detected == Some(s[i].adapter)
            &&& is.allowance == Some(s[i].allowance)
            &&& is.balance_checked == now
            &&& noted_from(
                is,
                if m.contains_key(s[i].id) {
                    m[s[i].id]
                } else {
                    KeyView::blank()
                },
            )
        }),
    decreases n,
{
    if i == n - 1 {
        only_quotas_change(m, s, now, n - 1, s[i].id);
    } else {
        assert(s[n - 1].id != s[i].id);
        last_vetting_counts(m, s, now, n - 1, i);
    }
}

/// A model has a channel under an identifier.
pub open spec fn owns(m: Model, id: Seq<char>) -> bool {
    exists|c: int| 0 <= c < m.channels@.len() && (#[trigger] m.channels@[c]).id@ == id
}

proof fn owned_or_not(m: Model, id: Seq<char>)
    ensures
        owns(m, id) <==> state::channel_index(m.channels@, id) < m.channels@.len(),
        0 <= state::channel_index(m.channels@, id) <= m.channels@.len(),
        state::channel_index(m.channels@, id) < m.channels@.len() ==> m.channels@[state::channel_index(
            m.channels@,
            id,
        )].id@ == id,
{
    indexed(m.channels@, id);
}

proof fn indexed(s: Seq<Channel>, id: Seq<char>)
    ensures
        0 <= state::channel_index(s, id) <= s.len(),
        state::channel_index(s, id) < s.len() ==> s[state::channel_index(s, id)].id@ == id,
        forall|j: int| 0 <= j < state::channel_index(s, id) ==> (#[trigger] s[j]).id@ != id,
    decreases s.len(),
{
    if s.len() > 0 {
        let t = s.drop_last();
        indexed(t, id);
        assert forall|j: int| 0 <= j < state::channel_index(s, id) implies (#[trigger] s[j]).id@
            != id by {
            if j < t.len() {
                assert(t[j] == s[j]);
            }
        }
    }
}

proof fn owned_in_order(models: Seq<Model>, id: Seq<char>)
    ensures
        0 <= owner(models, id) <= models.len(),
        owner(models, id) < models.len() ==> owns(models[owner(models, id)], id),
        forall|j: int| 0 <= j < owner(models, id) ==> !owns(#[trigger] models[j], id),
    decreases models.len(),
{
    if models.len() > 0 {
        let t = models.drop_last();
        owned_in_order(t, id);
        owned_or_not(models.last(), id);
        assert forall|j: int| 0 <= j < owner(models, id) implies !owns(#[trigger] models[j], id) by {
            if j < t.len() {
                assert(t[j] == models[j]);
            }
        }
    }
}

proof fn monitored_in_order(s: Seq<Monitor>, id: Seq<char>)
    ensures
        0 <= monitor_index(s, id) <= s.len(),
        monitor_index(s, id) < s.len() ==> s[monitor_index(s, id)].id@ == id,
        forall|j: int| 0 <= j < monitor_index(s, id) ==> (#[trigger] s[j]).id@ != id,
    decreases s.len(),
{
    if s.len() > 0 {
        let t = s.drop_last();
        monitored_in_order(t, id);
        assert forall|j: int| 0 <= j < monitor_index(s, id) implies (#[trigger] s[j]).id@ != id by {
            if j < t.len() {
                assert(t[j] == s[j]);
            }
        }
    }
}

/// A request for all monitors comes before anything else it names. A request that names a configured
/// channel is for that channel, with the monitor that the channel relies on, whatever monitor it names.
/// One that names no channel and a configured monitor is for that monitor. Any other is for nothing.
pub proof fn requests_are_for_what_they_name(cfg: Config, v: JsonView, id: Seq<char>)
    requires
        cfg.models@.len() <= usize::MAX,
        cfg.monitors@.len() <= usize::MAX,
        id == text_at(v, "channel_id"@),
    ensures
        target_of(cfg, v) is AllMonitors <==> v.at("all_monitors"@) == JsonView::Bool(true),
        v.at("all_monitors"@) != JsonView::Bool(true) ==> match target_of(cfg, v) {
            Target::AllMonitors => false,
            Target::Channel(m, c, w, reset) => {
                &&& m < cfg.models@.len()
                &&& c < cfg.models@[m as int].channels@.len()
                &&& cfg.models@[m as int].channels@[c as int].id@ == id
                &&& forall|j: int| 0 <= j < m ==> !owns(#[trigger] cfg.models@[j], id)
                &&& reset <==> v.at("reset"@) == JsonView::Bool(true)
                &&& match cfg.models@[m as int].channels@[c as int].monitor_id {
                    Some(t) => match w {
                        Some(i) => i < cfg.monitors@.len() && cfg.monitors@[i as int].id@ == t@,
                        None => !config::has_monitor(cfg.monitors@, t@),
                    },
                    None => w is None,
                }
            },
            Target::Monitor(i) => {
                &&& forall|j: int| 0 <= j < cfg.models@.len() ==> !owns(#[trigger] cfg.models@[j], id)
                &&& i < cfg.monitors@.len()
                &&& v.at("monitor_id"@) == JsonView::Text(cfg.monitors@[i as int].id@)
            },
            Target::Nothing => {
                &&& forall|j: int| 0 <= j < cfg.models@.len() ==> !owns(#[trigger] cfg.models@[j], id)
                &&& forall|j: int|
                    0 <= j < cfg.monitors@.len() ==> v.at("monitor_id"@) != JsonView::Text(
                        (#[trigger] cfg.monitors@[j]).id@,
                    )
            },
        },
{
    owned_in_order(cfg.models@, id);
    let m = owner(cfg.models@, id);
    if m < cfg.models@.len() {
        let channels = cfg.models@[m].channels;
        assert(channels.len() == channels@.len());
        owned_or_not(cfg.models@[m], id);
        indexed(channels@, id);
        match channels@[state::channel_index(channels@, id)].monitor_id {
            Some(t) => monitored_in_order(cfg.monitors@, t@),
            None => {},
        }
    } else {
        match v.at("monitor_id"@).as_str() {
            Some(t) => monitored_in_order(cfg.monitors@, t),
            None => {},
        }
    }
}

/// A question can be put exactly where it has a key of at most 4096 bytes, which says something, and an
/// address of at most 2048.
pub proof fn short_questions_can_be_put(v: JsonView, url: Seq<char>, key: Seq<char>)
    requires
        v.at("base_url"@) == JsonView::Text(url),
        v.at("key"@) == JsonView::Text(key),
    ensures
        askable(v) <==> 0 < key.len() && text::bytes(key) <= 4096 && text::bytes(url) <= 2048,
{
}

/// A document without a key puts no question.
pub proof fn questions_need_a_key(v: JsonView)
    requires
        !(v.at("key"@) is Text),
    ensures
        !askable(v),
{
    reveal_strlit("");
}

/// Where notices go elsewhere all of them are tried anew, each with what it says; else they stay as they
/// are.
pub proof fn notices_are_tried_anew(s: Seq<NoticeView>, i: int)
    requires
        0 <= i < s.len(),
    ensures
        renewed(s).len() == s.len(),
        renewed(s)[i].attempts == 0,
        renewed(s)[i].next_at == 0,
        renewed(s)[i] == (NoticeView {
            attempts: renewed(s)[i].attempts,
            next_at: renewed(s)[i].next_at,
            ..s[i]
        }),
{
}

/// A new schedule sets the time of the next check of every upstream, and nothing else that is known of
/// one.
pub proof fn new_schedules_hold_for_all(m: Map<Seq<char>, QualityView>, next: i64, id: Seq<char>)
    ensures
        rescheduled(m, next).contains_key(id) <==> m.contains_key(id),
        m.contains_key(id) ==> rescheduled(m, next)[id].next_at == next && rescheduled(m, next)[id]
            == (QualityView { next_at: rescheduled(m, next)[id].next_at, ..m[id] }),
{
}

/// An administrator sees every setting but the password hash, and the revision to save over.
pub proof fn settings_are_shown(c: Config)
    ensures
        ({
            let v = public_document(c);
            &&& v.at("listen"@) == JsonView::Text(c.listen@)
            &&& v.at("api_key"@) == JsonView::Text(c.api_key@)
            &&& v.at("webhook"@) == JsonView::Text(c.webhook@)
            &&& v.at("use_system_proxy"@) == JsonView::Bool(c.use_system_proxy)
            &&& v.at("notify_all_monitors"@) == JsonView::Bool(c.notify_all_monitors)
            &&& v.at("employee_keys"@) == c.employee_keys@
            &&& v.at("models"@) == config::config_document(c).at("models"@)
            &&& v.at("monitors"@) == config::config_document(c).at("monitors"@)
            &&& v.at("monitor_schedule"@) == config::config_document(c).at("monitor_schedule"@)
            &&& v.at("_revision"@) == JsonView::Text(revision_of(c))
        }),
{
    config::files_hold_all_settings(c);
    reveal_strlit("listen");
    reveal_strlit("api_key");
    reveal_strlit("webhook");
    reveal_strlit("use_system_proxy");
    reveal_strlit("notify_all_monitors");
    reveal_strlit("employee_keys");
    reveal_strlit("models");
    reveal_strlit("monitors");
    reveal_strlit("monitor_schedule");
    reveal_strlit("_revision");
    reveal_strlit("admin_password_hash");
    assert("listen"@.len() == 6 && "listen"@[0] == 'l');
    assert("api_key"@.len() == 7 && "api_key"@[0] == 'a');
    assert("webhook"@.len() == 7 && "webhook"@[0] == 'w');
    assert("use_system_proxy"@.len() == 16 && "use_system_proxy"@[0] == 'u');
    assert("notify_all_monitors"@.len() == 19 && "notify_all_monitors"@[0] == 'n');
    assert("admin_password_hash"@.len() == 19 && "admin_password_hash"@[0] == 'a');
    assert("employee_keys"@.len() == 13);
    assert("models"@.len() == 6 && "models"@[0] == 'm');
    assert("monitors"@.len() == 8);
    assert("monitor_schedule"@.len() == 16 && "monitor_schedule"@[0] == 'm');
    assert("_revision"@.len() == 9);
    let o = public_document(c)->Object_0;
    let f = config::config_document(c)->Object_0;
    assert(o.len() == 10);
    json::members_are_found(o, 0, "listen"@);
    json::members_are_found(o, 1, "api_key"@);
    json::members_are_found(o, 2, "webhook"@);
    json::members_are_found(o, 3, "use_system_proxy"@);
    json::members_are_found(o, 4, "notify_all_monitors"@);
    json::members_are_found(o, 5, "employee_keys"@);
    json::members_are_found(o, 6, "models"@);
    json::members_are_found(o, 7, "monitors"@);
    json::members_are_found(o, 8, "monitor_schedule"@);
    json::members_are_found(o, 9, "_revision"@);
    json::members_are_found(f, 7, "models"@);
    json::members_are_found(f, 8, "monitors"@);
    json::members_are_found(f, 9, "monitor_schedule"@);
}

/// A save leaves a state that knows the saved configuration and says in the log that it was saved. What
/// was counted stays.
pub proof fn saves_are_noted(
    before: State,
    after: State,
    previous: Config,
    cfg: Config,
    s: Seq<VettedView>,
    now: i64,
    id: Seq<char>,
)
    requires
        saved(before, after, previous, cfg, s, now),
    ensures
        after.telemetry == before.telemetry,
        after.config_digest@ == config::fingerprint_of(config::config_document(cfg)),
        after.log().len() > 0,
        after.log().last().at == now,
        after.log().last().kind == "config"@,
        after.log().last().message == "配置已保存"@,
        after.keys@.contains_key(id) ==> state::known_key(cfg.models@, id),
        after.quality@.contains_key(id) ==> config::has_monitor(cfg.monitors@, id),
{
    let (a, b, c, d, e) = choose|a: State, b: State, c: State, d: State, e: State| #[trigger]
        save_steps(before, a, b, c, d, e, after, previous, cfg, s, now);
    let matched = choose|matched: State| #[trigger]
        matched.matched_from(a, cfg) && b.pruned_from(matched, cfg) && b == (State {
            keys: b.keys,
            quality: b.quality,
            last_used: b.last_used,
            round_robin: b.round_robin,
            sticky_routes: b.sticky_routes,
            events: b.events,
            notices: b.notices,
            ..matched
        });
    reveal_strlit("配置已保存");
    state::logs_keep_the_last(e.log(), now, "config"@, "配置已保存"@);
    state::pruned_states_are_configured(e, d, cfg, id);
}

/// The quota that vetting found of a key of the saved configuration is what is known of it after the
/// save.
pub proof fn saves_note_vetted_quotas(
    before: State,
    after: State,
    previous: Config,
    cfg: Config,
    s: Seq<VettedView>,
    now: i64,
    i: int,
)
    requires
        saved(before, after, previous, cfg, s, now),
        0 <= i < s.len(),
        forall|j: int| i < j < s.len() ==> (#[trigger] s[j]).id != s[i].id,
        state::known_key(cfg.models@, s[i].id),
    ensures
        after.key_map().contains_key(s[i].id),
        after.key_map()[s[i].id].allowance == Some(s[i].allowance),
        after.key_map()[s[i].id].detected == Some(s[i].adapter),
        after.key_map()[s[i].id].balance_checked == now,
{
    let (a, b, c, d, e) = choose|a: State, b: State, c: State, d: State, e: State| #[trigger]
        save_steps(before, a, b, c, d, e, after, previous, cfg, s, now);
    last_vetting_counts(c.key_map(), s, now, s.len() as int, i);
    assert(d.key_map().contains_key(s[i].id));
    assert(d.keys@.contains_key(s[i].id));
    assert(e.keys@.contains_key(s[i].id));
    assert(e.keys@[s[i].id] == d.keys@[s[i].id]);
    assert(d.key_map()[s[i].id] == d.keys@[s[i].id]@);
    assert(after.key_map()[s[i].id] == after.keys@[s[i].id]@);
}

/// The answer to a save tells that it was done, whether to log in again, and the revision to save over
/// next.
pub proof fn saves_are_answered(c: Config, again: bool)
    ensures
        saved_document(c, again).at("ok"@) == JsonView::Bool(true),
        saved_document(c, again).at("reauthenticate"@) == JsonView::Bool(again),
        saved_document(c, again).at("revision"@) == JsonView::Text(
            config::fingerprint_of(config::config_document(c)),
        ),
        revision_of(c) == config::fingerprint_of(config::config_document(c)),
{
    reveal_strlit("ok");
    reveal_strlit("reauthenticate");
    reveal_strlit("revision");
    assert("ok"@.len() == 2 && "reauthenticate"@.len() == 14 && "revision"@.len() == 8);
    let o = saved_document(c, again)->Object_0;
    json::members_are_found(o, 0, "ok"@);
    json::members_are_found(o, 1, "reauthenticate"@);
    json::members_are_found(o, 2, "revision"@);
}

/// A key contradicts the others of its channel exactly where those that were vetted have another
/// interface. Keys of other channels never matter.
pub proof fn contradictions_are_noticed(v: Vetting, p: Place, adapter: Adapter, i: int)
    ensures
        (forall|j: int|
            0 <= j < v.verified@.len() ==> !((#[trigger] v.verified@[j]).place.0 == p.0
                && v.verified@[j].place.1 == p.1)) ==> !v.contradicts(p, adapter),
        0 <= i < v.verified@.len() && v.verified@[i].place.0 == p.0 && v.verified@[i].place.1 == p.1 && (
        forall|j: int|
            0 <= j < v.verified@.len() && (#[trigger] v.verified@[j]).place.0 == p.0
                && v.verified@[j].place.1 == p.1 ==> v.verified@[j].adapter
                == v.verified@[i].adapter) ==> (v.contradicts(p, adapter) <==> v.verified@[i].adapter
            != adapter),
{
    let s = vetted_views(v.verified@);
    assert(forall|j: int| 0 <= j < s.len() ==> #[trigger] s[j] == v.verified@[j]@);
    if forall|j: int|
        0 <= j < v.verified@.len() ==> !((#[trigger] v.verified@[j]).place.0 == p.0
            && v.verified@[j].place.1 == p.1) {
        assert forall|j: int| 0 <= j < s.len() implies !((#[trigger] s[j]).place.0 == p.0
            && s[j].place.1 == p.1) by {
            assert(s[j] == v.verified@[j]@);
        }
        unvetted_interfaces_stay(s, p.0 as int, p.1 as int, adapter);
    }
    if 0 <= i < v.verified@.len() && v.verified@[i].place.0 == p.0 && v.verified@[i].place.1 == p.1 && (
    forall|j: int|
        0 <= j < v.verified@.len() && (#[trigger] v.verified@[j]).place.0 == p.0
            && v.verified@[j].place.1 == p.1 ==> v.verified@[j].adapter == v.verified@[i].adapter) {
        assert(s[i] == v.verified@[i]@);
        assert forall|j: int|
            0 <= j < s.len() && (#[trigger] s[j]).place.0 == p.0 && s[j].place.1 == p.1 implies s[j].adapter
            == s[i].adapter by {
            assert(s[j] == v.verified@[j]@);
        }
        vetted_interfaces_are_adopted(s, p.0 as int, p.1 as int, adapter, i);
    }
}

/// Vetting changes nothing of a configuration but the interfaces of its channels.
pub proof fn vetting_changes_interfaces_only(
    after: Seq<Model>,
    before: Seq<Model>,
    s: Seq<VettedView>,
    m: int,
    c: int,
)
    requires
        models_adopted(after, before, s),
        0 <= m < before.len(),
        0 <= c < before[m].channels@.len(),
    ensures
        after.len() == before.len(),
        after[m].id == before[m].id,
        after[m].channels@.len() == before[m].channels@.len(),
        ({
            let a = after[m].channels@[c];
            let b = before[m].channels@[c];
            &&& a.id == b.id && a.name == b.name && a.base_url == b.base_url
            &&& a.upstream_model == b.upstream_model && a.enabled == b.enabled
            &&& a.monitor_id == b.monitor_id && a.keys == b.keys
            &&& (forall|j: int|
                0 <= j < s.len() ==> !((#[trigger] s[j]).place.0 == m && s[j].place.1 == c))
                ==> a.adapter == b.adapter
        }),
{
    assert(model_adopted(after[m], before[m], s, m));
    assert(after[m].channels@[c] == (Channel {
        adapter: adopted(s, m, c, before[m].channels@[c].adapter),
        ..before[m].channels@[c]
    }));
    if forall|j: int| 0 <= j < s.len() ==> !((#[trigger] s[j]).place.0 == m && s[j].place.1 == c) {
        unvetted_interfaces_stay(s, m, c, before[m].channels@[c].adapter);
    }
}

} // verus!
