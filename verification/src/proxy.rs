//! The gateway: which requests are let in, which keys serve them, and what is learnt from replies.
use crate::balance::AllowanceView;
use crate::board;
use crate::clock;
use crate::config;
use crate::config::{Channel, Config, Key, Model};
use crate::errors;
use crate::json;
use crate::json::{array, at, member, object, quote, read_members, unquote, Json, JsonView};
use crate::random;
use crate::sse;
use crate::sse::{Observer, ObserverView};
use crate::state;
use crate::state::{find_channel, key_exists, KeyState, KeyView, State};
use crate::telemetry;
use crate::telemetry::Metrics;
use crate::text;
use crate::text::{number, parse_i64, same, split, starts_with, to_ascii_lowercase, trim};
use crate::usage::Tokens;
use vstd::prelude::*;
use vstd::string::*;
use vstd::utf8::encode_utf8;

verus! {

/// Why the router itself answers a request.
#[derive(Clone, Copy, Debug, PartialEq, Eq, Structural)]
pub enum Refusal {
    InvalidKey,
    Unreadable,
    Slow,
    InvalidJson,
    MissingModel,
    UnknownModel,
    History,
    BadResponse,
    EmptyResponse,
    NoChannel,
}

impl Refusal {
    /// The status of the answer.
    pub open spec fn status_of(self) -> u16 {
        match self {
            Refusal::InvalidKey => 401,
            Refusal::Unreadable => 400,
            Refusal::Slow => 408,
            Refusal::InvalidJson => 400,
            Refusal::MissingModel => 400,
            Refusal::UnknownModel => 404,
            Refusal::History => 400,
            Refusal::BadResponse => 502,
            Refusal::EmptyResponse => 502,
            Refusal::NoChannel => 503,
        }
    }

    /// The code in the answer.
    pub open spec fn code_of(self) -> Seq<char> {
        match self {
            Refusal::InvalidKey => "invalid_api_key"@,
            Refusal::Unreadable => "request_read_error"@,
            Refusal::Slow => "body_timeout"@,
            Refusal::InvalidJson => "invalid_json"@,
            Refusal::MissingModel => "missing_model"@,
            Refusal::UnknownModel => "model_not_found"@,
            Refusal::History => "nonportable_history"@,
            Refusal::BadResponse => "response_error"@,
            Refusal::EmptyResponse => "empty_upstream_response"@,
            Refusal::NoChannel => "no_available_channel"@,
        }
    }

    /// The message in the answer.
    pub open spec fn message_of(self) -> Seq<char> {
        match self {
            Refusal::InvalidKey => "公司 API Key 不正确"@,
            Refusal::Unreadable => "请求正文读取失败"@,
            Refusal::Slow => "读取请求超时"@,
            Refusal::InvalidJson => "请求必须是JSON对象"@,
            Refusal::MissingModel => "缺少模型"@,
            Refusal::UnknownModel => "模型未配置"@,
            Refusal::History => {
                "此网关需要完整请求历史，不支持 previous_response_id 或 conversation 跨渠道状态引用"@
            },
            Refusal::BadResponse => "响应构造失败"@,
            Refusal::EmptyResponse => "上游返回空SSE；当前请求未重放"@,
            Refusal::NoChannel => "当前没有可用渠道"@,
        }
    }

    /// The status of the answer.
    pub fn status(&self) -> (r: u16)
        ensures
            r == self.status_of(),
    {
        match self {
            Refusal::InvalidKey => 401,
            Refusal::Unreadable => 400,
            Refusal::Slow => 408,
            Refusal::InvalidJson => 400,
            Refusal::MissingModel => 400,
            Refusal::UnknownModel => 404,
            Refusal::History => 400,
            Refusal::BadResponse => 502,
            Refusal::EmptyResponse => 502,
            Refusal::NoChannel => 503,
        }
    }

    /// The code in the answer.
    pub fn code(&self) -> (r: &'static str)
        ensures
            r@ == self.code_of(),
    {
        match self {
            Refusal::InvalidKey => "invalid_api_key",
            Refusal::Unreadable => "request_read_error",
            Refusal::Slow => "body_timeout",
            Refusal::InvalidJson => "invalid_json",
            Refusal::MissingModel => "missing_model",
            Refusal::UnknownModel => "model_not_found",
            Refusal::History => "nonportable_history",
            Refusal::BadResponse => "response_error",
            Refusal::EmptyResponse => "empty_upstream_response",
            Refusal::NoChannel => "no_available_channel",
        }
    }

    /// The message in the answer.
    pub fn message(&self) -> (r: &'static str)
        ensures
            r@ == self.message_of(),
    {
        match self {
            Refusal::InvalidKey => "公司 API Key 不正确",
            Refusal::Unreadable => "请求正文读取失败",
            Refusal::Slow => "读取请求超时",
            Refusal::InvalidJson => "请求必须是JSON对象",
            Refusal::MissingModel => "缺少模型",
            Refusal::UnknownModel => "模型未配置",
            Refusal::History => {
                "此网关需要完整请求历史，不支持 previous_response_id 或 conversation 跨渠道状态引用"
            },
            Refusal::BadResponse => "响应构造失败",
            Refusal::EmptyResponse => "上游返回空SSE；当前请求未重放",
            Refusal::NoChannel => "当前没有可用渠道",
        }
    }

    /// The document of the answer.
    pub open spec fn document(self) -> JsonView {
        JsonView::Object(
            seq![
                (
                    "error"@,
                    JsonView::Object(
                        seq![
                            ("code"@, JsonView::Text(self.code_of())),
                            ("message"@, JsonView::Text(self.message_of())),
                            ("type"@, JsonView::Text("router_error"@)),
                        ],
                    ),
                ),
            ],
        )
    }

    /// The document of the answer.
    pub fn body(&self) -> (r: Json)
        ensures
            r@ == self.document(),
    {
        let inner = object(
            vec![
                member("code", Json::text(self.code())),
                member("message", Json::text(self.message())),
                member("type", Json::text("router_error")),
            ],
        );
        assert(inner@->Object_0 =~= seq![
            ("code"@, JsonView::Text(self.code_of())),
            ("message"@, JsonView::Text(self.message_of())),
            ("type"@, JsonView::Text("router_error"@)),
        ]);
        let r = object(vec![member("error", inner)]);
        assert(r@->Object_0 =~= self.document()->Object_0);
        r
    }
}

/// A model in the catalog.
pub open spec fn entry_of(id: Seq<char>) -> JsonView {
    JsonView::Object(
        seq![
            ("id"@, JsonView::Text(id)),
            ("object"@, JsonView::Text("model"@)),
            ("created"@, json::natural(0)),
            ("owned_by"@, JsonView::Text("forest-router"@)),
        ],
    )
}

/// The catalog of all models.
pub open spec fn catalog_of(models: Seq<Model>) -> JsonView {
    JsonView::Object(
        seq![
            ("object"@, JsonView::Text("list"@)),
            ("data"@, JsonView::Array(models.map_values(|m: Model| entry_of(m.id@)))),
        ],
    )
}

/// The catalog of all models. Whether one can be served is found when it is asked for.
pub fn catalog(cfg: &Config) -> (r: Json)
    ensures
        r@ == catalog_of(cfg.models@),
{
    let ghost goal = cfg.models@.map_values(|m: Model| entry_of(m.id@));
    let mut data: Vec<Json> = Vec::new();
    let mut i: usize = 0;
    while i < cfg.models.len()
        invariant
            i <= cfg.models@.len(),
            goal == cfg.models@.map_values(|m: Model| entry_of(m.id@)),
            data@.len() == i,
            forall|k: int| 0 <= k < i ==> (#[trigger] data@[k])@ == goal[k],
        decreases cfg.models@.len() - i,
    {
        let e = object(
            vec![
                member("id", Json::text(cfg.models[i].id.as_str())),
                member("object", Json::text("model")),
                member("created", Json::natural(0)),
                member("owned_by", Json::text("forest-router")),
            ],
        );
        assert(e@->Object_0 =~= entry_of(cfg.models@[i as int].id@)->Object_0);
        data.push(e);
        i = i + 1;
    }
    assert(json::all(data@) =~= goal);
    let r = object(vec![member("object", Json::text("list")), member("data", array(data))]);
    assert(r@->Object_0 =~= catalog_of(cfg.models@)->Object_0);
    r
}

/// The value of the first member with a name, as it was written.
pub open spec fn raw_of(s: Seq<(Seq<char>, Seq<char>)>, key: Seq<char>) -> Option<Seq<char>>
    decreases s.len(),
{
    if s.len() == 0 {
        None
    } else {
        match raw_of(s.drop_last(), key) {
            Some(v) => Some(v),
            None => if s.last().0 == key {
                Some(s.last().1)
            } else {
                None
            },
        }
    }
}

proof fn raw_stays(s: Seq<(Seq<char>, Seq<char>)>, key: Seq<char>, n: int)
    requires
        0 <= n <= s.len(),
        raw_of(s.take(n), key) is Some,
    ensures
        raw_of(s, key) == raw_of(s.take(n), key),
    decreases s.len(),
{
    if n == s.len() {
        assert(s.take(n) =~= s);
    } else {
        assert(s.drop_last().take(n) =~= s.take(n));
        raw_stays(s.drop_last(), key, n);
    }
}

fn find_raw<'a>(s: &'a Vec<(String, String)>, key: &str) -> (r: Option<&'a String>)
    ensures
        match r {
            Some(v) => raw_of(json::pair_views(s@), key@) == Some(v@),
            None => raw_of(json::pair_views(s@), key@) is None,
        },
{
    let ghost views = json::pair_views(s@);
    let mut i: usize = 0;
    assert(views.take(0) =~= Seq::empty());
    while i < s.len()
        invariant
            i <= s@.len(),
            views == json::pair_views(s@),
            raw_of(views.take(i as int), key@) is None,
        decreases s@.len() - i,
    {
        assert(views.take(i + 1).drop_last() =~= views.take(i as int));
        assert(views[i as int] == (s@[i as int].0@, s@[i as int].1@));
        if same(s[i].0.as_str(), key) {
            proof {
                raw_stays(views, key@, i + 1);
            }
            return Some(&s[i].1);
        }
        i = i + 1;
    }
    assert(views.take(views.len() as int) =~= views);
    None
}

/// A member is there and not null.
pub open spec fn refers(s: Seq<(Seq<char>, Seq<char>)>, key: Seq<char>) -> bool {
    raw_of(s, key) is Some && raw_of(s, key)->0 != "null"@
}

fn has_reference(s: &Vec<(String, String)>, key: &str) -> (r: bool)
    ensures
        r == refers(json::pair_views(s@), key@),
{
    match find_raw(s, key) {
        Some(v) => !same(v.as_str(), "null"),
        None => false,
    }
}

/// The place of the first model with an identifier, or the number of models.
pub open spec fn model_index(s: Seq<Model>, id: Seq<char>) -> int
    decreases s.len(),
{
    if s.len() == 0 {
        0
    } else {
        let k = model_index(s.drop_last(), id);
        if k < s.len() - 1 || s.last().id@ == id {
            k
        } else {
            s.len() as int
        }
    }
}

proof fn model_stays(s: Seq<Model>, id: Seq<char>, n: int)
    requires
        0 <= n <= s.len(),
        model_index(s.take(n), id) < n,
    ensures
        model_index(s, id) == model_index(s.take(n), id),
    decreases s.len(),
{
    if n == s.len() {
        assert(s.take(n) =~= s);
    } else {
        assert(s.drop_last().take(n) =~= s.take(n));
        model_stays(s.drop_last(), id, n);
    }
}

fn find_model(s: &Vec<Model>, id: &str) -> (r: usize)
    ensures
        r == model_index(s@, id@),
        r <= s@.len(),
        r < s@.len() ==> s@[r as int].id@ == id@,
{
    let mut i: usize = 0;
    assert(s@.take(0) =~= Seq::empty());
    while i < s.len()
        invariant
            i <= s@.len(),
            model_index(s@.take(i as int), id@) == i,
        decreases s@.len() - i,
    {
        assert(s@.take(i + 1).drop_last() =~= s@.take(i as int));
        if same(s[i].id.as_str(), id) {
            proof {
                model_stays(s@, id@, i + 1);
            }
            return i;
        }
        i = i + 1;
    }
    assert(s@.take(s@.len() as int) =~= s@);
    i
}

/// A request that was let in.
pub struct Accepted {
    /// The members of the request, as they were written.
    pub members: Vec<(String, String)>,
    pub model: String,
    /// The place of the model in the configuration.
    pub route: usize,
}

/// Why a request is refused, where it is: in order, it is no object, names no model, names one that is
/// not configured, or refers to history that only one vendor has.
pub open spec fn refusal_of(
    models: Seq<Model>,
    members: Option<Seq<(Seq<char>, Seq<char>)>>,
    model: Option<Seq<char>>,
) -> Option<Refusal> {
    match members {
        None => Some(Refusal::InvalidJson),
        Some(s) => match model {
            None => Some(Refusal::MissingModel),
            Some(m) => if model_index(models, m) == models.len() {
                Some(Refusal::UnknownModel)
            } else if refers(s, "previous_response_id"@) || refers(s, "conversation"@) {
                Some(Refusal::History)
            } else {
                None
            },
        },
    }
}

/// The model that members name.
pub open spec fn named_model(members: Option<Seq<(Seq<char>, Seq<char>)>>) -> Option<Seq<char>> {
    match members {
        Some(s) => match raw_of(s, "model"@) {
            Some(raw) => json::unquoted(raw),
            None => None,
        },
        None => None,
    }
}

/// The model of members, where there are any.
pub open spec fn members_view(m: Option<Vec<(String, String)>>) -> Option<
    Seq<(Seq<char>, Seq<char>)>,
> {
    match m {
        Some(s) => Some(json::pair_views(s@)),
        None => None,
    }
}

/// Lets a request in or refuses it, given its members and the model that they name.
pub fn accept_members(
    cfg: &Config,
    members: Option<Vec<(String, String)>>,
    model: Option<String>,
) -> (r: Result<Accepted, Refusal>)
    ensures
        match r {
            Ok(a) => {
                &&& refusal_of(cfg.models@, members_view(members), text::opt_view(model)) is None
                &&& members == Some(a.members)
                &&& text::opt_view(model) == Some(a.model@)
                &&& a.route == model_index(cfg.models@, a.model@)
                &&& a.route < cfg.models@.len()
                &&& cfg.models@[a.route as int].id@ == a.model@
            },
            Err(e) => refusal_of(cfg.models@, members_view(members), text::opt_view(model)) == Some(
                e,
            ),
        },
{
    let members = match members {
        Some(s) => s,
        None => {
            return Err(Refusal::InvalidJson);
        },
    };
    let model = match model {
        Some(m) => m,
        None => {
            return Err(Refusal::MissingModel);
        },
    };
    let route = find_model(&cfg.models, model.as_str());
    if route == cfg.models.len() {
        return Err(Refusal::UnknownModel);
    }
    if has_reference(&members, "previous_response_id") || has_reference(&members, "conversation") {
        return Err(Refusal::History);
    }
    Ok(Accepted { members, model, route })
}

/// Lets a request in or refuses it. All that it holds besides the model stays as it was written.
pub fn accept(cfg: &Config, body: &[u8]) -> (r: Result<Accepted, Refusal>)
    ensures
        match r {
            Ok(a) => {
                &&& refusal_of(
                    cfg.models@,
                    json::members(body@),
                    named_model(json::members(body@)),
                ) is None
                &&& json::members(body@) == Some(json::pair_views(a.members@))
                &&& json::rewritable(json::pair_views(a.members@))
                &&& raw_of(json::pair_views(a.members@), "model"@) is Some
                &&& named_model(json::members(body@)) == Some(a.model@)
                &&& a.route == model_index(cfg.models@, a.model@)
                &&& a.route < cfg.models@.len()
                &&& cfg.models@[a.route as int].id@ == a.model@
            },
            Err(e) => refusal_of(
                cfg.models@,
                json::members(body@),
                named_model(json::members(body@)),
            ) == Some(e),
        },
{
    let members = read_members(body);
    let model = match &members {
        Some(s) => match find_raw(s, "model") {
            Some(raw) => unquote(raw.as_str()),
            None => None,
        },
        None => None,
    };
    accept_members(cfg, members, model)
}

/// Members with another spelling of the model.
pub open spec fn with_model(s: Seq<(Seq<char>, Seq<char>)>, raw: Seq<char>) -> Seq<
    (Seq<char>, Seq<char>),
> {
    json::respelled(s, "model"@, raw)
}

/// The request as it goes to an upstream, under the upstream's own name of the model.
pub open spec fn outbound_of(s: Seq<(Seq<char>, Seq<char>)>, model: Seq<char>) -> Seq<char> {
    json::written(with_model(s, json::quoted(model)))
}

impl Accepted {
    /// The request as it goes to an upstream, under the upstream's own name of the model. What the
    /// upstream reads in it is what the client wrote, but for that name.
    pub fn outbound(&self, channel: &Channel) -> (r: String)
        ensures
            r@ == outbound_of(json::pair_views(self.members@), channel.upstream_model@),
            json::rewritable(json::pair_views(self.members@)) && raw_of(
                json::pair_views(self.members@),
                "model"@,
            ) is Some ==> {
                let read = json::members(encode_utf8(r@));
                &&& read is Some
                &&& named_model(read) == Some(channel.upstream_model@)
                &&& forall|key: Seq<char>|
                    key != "model"@ ==> #[trigger] raw_of(read->0, key) == raw_of(
                        json::pair_views(self.members@),
                        key,
                    )
            },
    {
        let raw = quote(channel.upstream_model.as_str());
        let ghost all = with_model(json::pair_views(self.members@), raw@);
        let mut r = "{".to_owned();
        let mut i: usize = 0;
        assert(all.take(0) =~= Seq::empty());
        assert(r@ =~= "{"@ + json::listed(all.take(0)));
        while i < self.members.len()
            invariant
                i <= self.members@.len(),
                all == with_model(json::pair_views(self.members@), raw@),
                r@ == "{"@ + json::listed(all.take(i as int)),
            decreases self.members@.len() - i,
        {
            let ghost next = all.take(i + 1);
            assert(next.drop_last() =~= all.take(i as int));
            let name = self.members[i].0.as_str();
            let value = if same(name, "model") {
                raw.as_str()
            } else {
                self.members[i].1.as_str()
            };
            assert(next.last() == (name@, value@));
            if i > 0 {
                r.append(",");
            }
            r.append(quote(name).as_str());
            r.append(":");
            r.append(value);
            assert(r@ =~= "{"@ + json::listed(next));
            i = i + 1;
        }
        assert(all.take(all.len() as int) =~= all);
        r.append("}");
        proof {
            let s = json::pair_views(self.members@);
            if json::rewritable(s) && raw_of(s, "model"@) is Some {
                assert(all == json::respelled(s, "model"@, json::quoted(channel.upstream_model@)));
                other_members_are_untouched(s, raw@, "model"@);
                assert forall|key: Seq<char>| key != "model"@ implies #[trigger] raw_of(all, key)
                    == raw_of(s, key) by {
                    other_members_are_untouched(s, raw@, key);
                }
            }
        }
        r
    }
}

/// Everything in a request but its model goes to the upstream as it was written.
pub proof fn other_members_are_untouched(
    s: Seq<(Seq<char>, Seq<char>)>,
    raw: Seq<char>,
    key: Seq<char>,
)
    ensures
        key != "model"@ ==> raw_of(with_model(s, raw), key) == raw_of(s, key),
        raw_of(s, "model"@) is Some ==> raw_of(with_model(s, raw), "model"@) == Some(raw),
    decreases s.len(),
{
    if s.len() > 0 {
        other_members_are_untouched(s.drop_last(), raw, key);
        assert(with_model(s, raw).drop_last() =~= with_model(s.drop_last(), raw));
        if raw_of(s.drop_last(), "model"@) is None {
            no_model_stays(s.drop_last(), raw);
        }
    }
}

proof fn no_model_stays(s: Seq<(Seq<char>, Seq<char>)>, raw: Seq<char>)
    requires
        raw_of(s, "model"@) is None,
    ensures
        raw_of(with_model(s, raw), "model"@) is None,
    decreases s.len(),
{
    if s.len() > 0 {
        assert(with_model(s, raw).drop_last() =~= with_model(s.drop_last(), raw));
        no_model_stays(s.drop_last(), raw);
    }
}

/// Headers of a request that do not reach an upstream: credentials, framing, and what belongs to one
/// connection.
pub open spec fn request_exclusions() -> Seq<Seq<char>> {
    seq![
        "authorization"@,
        "host"@,
        "content-length"@,
        "content-type"@,
        "connection"@,
        "transfer-encoding"@,
        "cookie"@,
        "proxy-authorization"@,
        "accept-encoding"@,
        "x-api-key"@,
        "api-key"@,
        "keep-alive"@,
        "te"@,
        "trailer"@,
        "upgrade"@,
        "openai-organization"@,
        "openai-project"@,
    ]
}

/// Headers of a response that do not reach a client: framing, cookies, and what belongs to one
/// connection.
pub open spec fn response_exclusions() -> Seq<Seq<char>> {
    seq![
        "connection"@,
        "transfer-encoding"@,
        "content-length"@,
        "set-cookie"@,
        "keep-alive"@,
        "proxy-authenticate"@,
        "upgrade"@,
        "trailer"@,
        "te"@,
    ]
}

/// A header is named by the header of the connection.
pub open spec fn hop_by_hop(connection: Seq<char>, name: Seq<char>) -> bool {
    exists|i: int|
        0 <= i < text::pieces(connection, ',').len() && text::lowered(
            text::trimmed(#[trigger] text::pieces(connection, ',')[i]),
        ) == name
}

/// A header is passed on.
pub open spec fn passes(connection: Seq<char>, name: Seq<char>, excluded: Seq<Seq<char>>) -> bool {
    !hop_by_hop(connection, name) && !excluded.contains(name)
}

fn is_hop_by_hop(connection: &str, name: &str) -> (r: bool)
    ensures
        r == hop_by_hop(connection@, name@),
{
    let parts = split(connection, ',');
    let ghost views = text::pieces(connection@, ',');
    assert(text::views(parts@).len() == parts@.len());
    let mut i: usize = 0;
    while i < parts.len()
        invariant
            i <= parts@.len(),
            views == text::pieces(connection@, ','),
            views == text::views(parts@),
            forall|j: int|
                0 <= j < i ==> text::lowered(text::trimmed(#[trigger] views[j])) != name@,
        decreases parts@.len() - i,
    {
        assert(views[i as int] == parts@[i as int]@);
        let token = to_ascii_lowercase(trim(parts[i].as_str()).as_str());
        if same(token.as_str(), name) {
            return true;
        }
        i = i + 1;
    }
    false
}

fn listed(words: &Vec<&str>, name: &str) -> (r: bool)
    ensures
        r == errors::words_of(words@).contains(name@),
{
    let mut i: usize = 0;
    while i < words.len()
        invariant
            i <= words@.len(),
            forall|j: int| 0 <= j < i ==> (#[trigger] words@[j])@ != name@,
        decreases words@.len() - i,
    {
        if same(words[i], name) {
            assert(errors::words_of(words@)[i as int] == name@);
            return true;
        }
        i = i + 1;
    }
    assert(forall|j: int| 0 <= j < words@.len() ==> errors::words_of(words@)[j] == words@[j]@);
    false
}

/// Whether a header of a request is passed on to an upstream.
pub fn forwards_request(connection: Option<&str>, name: &str) -> (r: bool)
    ensures
        r == passes(sse::text_or_empty(text::str_view(connection)), name@, request_exclusions()),
{
    let c = match connection {
        Some(c) => c,
        None => "",
    };
    let words: Vec<&str> = vec![
        "authorization",
        "host",
        "content-length",
        "content-type",
        "connection",
        "transfer-encoding",
        "cookie",
        "proxy-authorization",
        "accept-encoding",
        "x-api-key",
        "api-key",
        "keep-alive",
        "te",
        "trailer",
        "upgrade",
        "openai-organization",
        "openai-project",
    ];
    assert(errors::words_of(words@) =~= request_exclusions());
    !is_hop_by_hop(c, name) && !listed(&words, name)
}

/// Whether a header of a response is passed on to a client.
pub fn forwards_response(connection: Option<&str>, name: &str) -> (r: bool)
    ensures
        r == passes(sse::text_or_empty(text::str_view(connection)), name@, response_exclusions()),
{
    let c = match connection {
        Some(c) => c,
        None => "",
    };
    let words: Vec<&str> = vec![
        "connection",
        "transfer-encoding",
        "content-length",
        "set-cookie",
        "keep-alive",
        "proxy-authenticate",
        "upgrade",
        "trailer",
        "te",
    ];
    assert(errors::words_of(words@) =~= response_exclusions());
    !is_hop_by_hop(c, name) && !listed(&words, name)
}

/// No credential of a client reaches an upstream, and no cookie of an upstream a client.
pub proof fn credentials_are_not_forwarded(connection: Seq<char>)
    ensures
        !passes(connection, "authorization"@, request_exclusions()),
        !passes(connection, "cookie"@, request_exclusions()),
        !passes(connection, "x-api-key"@, request_exclusions()),
        !passes(connection, "api-key"@, request_exclusions()),
        !passes(connection, "proxy-authorization"@, request_exclusions()),
        !passes(connection, "set-cookie"@, response_exclusions()),
{
    assert(request_exclusions()[0] == "authorization"@);
    assert(request_exclusions()[6] == "cookie"@);
    assert(request_exclusions()[7] == "proxy-authorization"@);
    assert(request_exclusions()[9] == "x-api-key"@);
    assert(request_exclusions()[10] == "api-key"@);
    assert(response_exclusions()[3] == "set-cookie"@);
}

/// What makes two candidates one: where they are sent, for which model, under which credential.
pub type Identity = (Seq<char>, Seq<char>, Seq<char>);

/// The identity of a channel's key.
pub open spec fn identity_of(c: Channel, k: Key) -> Identity {
    (config::responses_url_of(c.base_url@), c.upstream_model@, k.secret@)
}

/// The identities of several candidates.
pub open spec fn identity_views(s: Seq<(String, String, String)>) -> Seq<Identity> {
    s.map_values(|p: (String, String, String)| (p.0@, p.1@, p.2@))
}

/// A search for a key that may serve a request.
pub struct Walk {
    /// The place of the present channel.
    pub channel: usize,
    /// Keys of the present channel were chosen.
    pub open: bool,
    pub keys: Vec<usize>,
    pub start: usize,
    pub offset: usize,
    /// Candidates that need no second look.
    pub attempted: Vec<(String, String, String)>,
}

/// The mathematical model of [`Walk`].
pub struct WalkView {
    pub channel: int,
    pub open: bool,
    pub keys: Seq<usize>,
    pub start: int,
    pub offset: int,
    pub attempted: Seq<Identity>,
}

impl View for Walk {
    type V = WalkView;

    open spec fn view(&self) -> WalkView {
        WalkView {
            channel: self.channel as int,
            open: self.open,
            keys: self.keys@,
            start: self.start as int,
            offset: self.offset as int,
            attempted: identity_views(self.attempted@),
        }
    }
}

/// The keys of a channel that may serve requests, by their places, among the first.
pub open spec fn eligible_keys(s: State, c: Channel, now: int, n: int) -> Seq<usize>
    decreases n,
{
    if n <= 0 {
        Seq::empty()
    } else {
        let rest = eligible_keys(s, c, now, n - 1);
        let k = c.keys@[n - 1];
        if k.enabled && s.key_ready(k.id@, now) {
            rest.push((n - 1) as usize)
        } else {
            rest
        }
    }
}

/// A channel is switched on and has a key that is.
pub open spec fn channel_has(c: Channel, channel: Seq<char>, key: Seq<char>) -> bool {
    c.id@ == channel && c.enabled && exists|k: int|
        0 <= k < c.keys@.len() && (#[trigger] c.keys@[k]).id@ == key && c.keys@[k].enabled
}

/// A model has a channel that is switched on, with a key that is.
pub open spec fn model_has(m: Model, channel: Seq<char>, key: Seq<char>) -> bool {
    exists|c: int|
        0 <= c < m.channels@.len() && channel_has(#[trigger] m.channels@[c], channel, key)
}

/// A key and its channel are switched on in a configuration.
pub open spec fn switched_on(models: Seq<Model>, channel: Seq<char>, key: Seq<char>) -> bool {
    exists|m: int| 0 <= m < models.len() && model_has(#[trigger] models[m], channel, key)
}

/// The channel's monitor, where it has one, finds it healthy.
pub open spec fn quality_ready(s: State, c: Channel, now: int) -> bool {
    match c.monitor_id {
        Some(id) => s.monitor_ready(id@, now),
        None => true,
    }
}

/// The place from which a channel's keys are tried this time.
pub open spec fn turn_of(turns: Map<Seq<char>, usize>, id: Seq<char>) -> usize {
    if turns.contains_key(id) {
        turns[id]
    } else {
        0
    }
}

/// The next turn.
pub open spec fn after_turn(n: usize) -> usize {
    if n == usize::MAX {
        0
    } else {
        (n + 1) as usize
    }
}

/// What a search goes by.
pub struct Scene {
    /// The model as it was when the request came.
    pub route: Model,
    /// The models as they are configured now.
    pub current: Seq<Model>,
    pub state: State,
    pub now: int,
    /// The request has taken too long.
    pub expired: bool,
}

/// What a search goes by, of a request for a model.
pub open spec fn scene(route: Model, current: Config, state: State, now: i64, expired: bool) -> Scene {
    Scene { route, current: current.models@, state, now: now as int, expired }
}

/// What a search has come to.
pub struct Sought {
    pub walk: WalkView,
    pub turns: Map<Seq<char>, usize>,
    /// The places of a channel and of a key in it.
    pub found: Option<(int, int)>,
}

impl WalkView {
    /// A search at its start.
    pub open spec fn fresh() -> WalkView {
        WalkView {
            channel: 0,
            open: false,
            keys: Seq::empty(),
            start: 0,
            offset: 0,
            attempted: Seq::empty(),
        }
    }

    /// On to the next channel.
    pub open spec fn passed(self) -> WalkView {
        WalkView { channel: self.channel + 1, open: false, keys: Seq::empty(), offset: 0, ..self }
    }

    /// The place of the key that is looked at.
    pub open spec fn key(self) -> int {
        self.keys[(self.start + self.offset) % (self.keys.len() as int)] as int
    }

    /// The places that the search holds are those of keys.
    pub open spec fn fits(self, route: Model) -> bool {
        &&& 0 <= self.channel <= route.channels@.len()
        &&& 0 <= self.offset <= self.keys.len()
        &&& 0 <= self.start
        &&& self.open ==> self.channel < route.channels@.len() && forall|i: int|
            0 <= i < self.keys.len() ==> (#[trigger] self.keys[i])
                < route.channels@[self.channel].keys@.len()
    }

    /// Goes on to the next key that may serve the request. Channels come in the order of the
    /// configuration and keys of a channel in turn; one candidate is tried once, however often it is
    /// configured; switches, quality and health are looked at again before every attempt.
    pub open spec fn seek(self, turns: Map<Seq<char>, usize>, e: Scene) -> Sought
        decreases
            e.route.channels@.len() - self.channel,
            if self.open {
                0int
            } else {
                1int
            },
            self.keys.len() - self.offset,
    {
        if self.channel < 0 || self.channel >= e.route.channels@.len() {
            Sought { walk: self, turns, found: None }
        } else {
            let c = e.route.channels@[self.channel];
            if !self.open {
                if !c.enabled || !quality_ready(e.state, c, e.now) {
                    self.passed().seek(turns, e)
                } else {
                    (WalkView {
                        open: true,
                        keys: eligible_keys(e.state, c, e.now, c.keys@.len() as int),
                        start: turn_of(turns, c.id@) as int,
                        offset: 0,
                        ..self
                    }).seek(turns.insert(c.id@, after_turn(turn_of(turns, c.id@))), e)
                }
            } else if self.offset < 0 || self.offset >= self.keys.len() {
                self.passed().seek(turns, e)
            } else if e.expired {
                Sought {
                    walk: WalkView {
                        channel: e.route.channels@.len() as int,
                        open: false,
                        keys: Seq::empty(),
                        offset: 0,
                        ..self
                    },
                    turns,
                    found: None,
                }
            } else {
                let k = c.keys@[self.key()];
                let next = WalkView { offset: self.offset + 1, ..self };
                let tried = WalkView {
                    attempted: self.attempted.push(identity_of(c, k)),
                    ..next
                };
                if self.attempted.contains(identity_of(c, k)) {
                    next.seek(turns, e)
                } else if !switched_on(e.current, c.id@, k.id@) {
                    tried.seek(turns, e)
                } else if !e.state.ready(c, e.now) {
                    tried.passed().seek(turns, e)
                } else if !e.state.key_ready(k.id@, e.now) {
                    tried.seek(turns, e)
                } else {
                    Sought { walk: tried, turns, found: Some((self.channel, self.key())) }
                }
            }
        }
    }
}

proof fn eligible_places(s: State, c: Channel, now: int, n: int)
    requires
        n <= c.keys@.len(),
    ensures
        forall|i: int|
            0 <= i < eligible_keys(s, c, now, n).len() ==> (#[trigger] eligible_keys(
                s,
                c,
                now,
                n,
            )[i]) < c.keys@.len(),
    decreases n,
{
    if n > 0 {
        assert(c.keys.len() == c.keys@.len());
        eligible_places(s, c, now, n - 1);
        let rest = eligible_keys(s, c, now, n - 1);
        assert forall|i: int| 0 <= i < eligible_keys(s, c, now, n).len() implies (
        #[trigger] eligible_keys(s, c, now, n)[i]) < c.keys@.len() by {
            if i < rest.len() {
                assert(rest[i] < c.keys@.len());
            }
        }
    }
}

fn choose_keys(s: &State, c: &Channel, now: i64) -> (r: Vec<usize>)
    ensures
        r@ == eligible_keys(*s, *c, now as int, c.keys@.len() as int),
{
    let mut r: Vec<usize> = Vec::new();
    let mut i: usize = 0;
    while i < c.keys.len()
        invariant
            i <= c.keys@.len(),
            r@ == eligible_keys(*s, *c, now as int, i as int),
        decreases c.keys@.len() - i,
    {
        let k = &c.keys[i];
        let ready = match s.keys.get(k.id.as_str()) {
            Some(state) => state.eligible(now),
            None => true,
        };
        if k.enabled && ready {
            r.push(i);
        }
        i = i + 1;
    }
    r
}

fn is_switched_on(models: &Vec<Model>, channel: &str, key: &str) -> (r: bool)
    ensures
        r == switched_on(models@, channel@, key@),
{
    let mut m: usize = 0;
    while m < models.len()
        invariant
            m <= models@.len(),
            forall|j: int| 0 <= j < m ==> !model_has(#[trigger] models@[j], channel@, key@),
        decreases models@.len() - m,
    {
        let channels = &models[m].channels;
        let mut c: usize = 0;
        while c < channels.len()
            invariant
                m < models@.len(),
                *channels == models@[m as int].channels,
                c <= channels@.len(),
                forall|j: int|
                    0 <= j < c ==> !channel_has(#[trigger] channels@[j], channel@, key@),
            decreases channels@.len() - c,
        {
            if channel_offers(&channels[c], channel, key) {
                assert(model_has(models@[m as int], channel@, key@));
                return true;
            }
            c = c + 1;
        }
        m = m + 1;
    }
    false
}

fn channel_offers(c: &Channel, channel: &str, key: &str) -> (r: bool)
    ensures
        r == channel_has(*c, channel@, key@),
{
    if !c.enabled || !same(c.id.as_str(), channel) {
        return false;
    }
    let mut i: usize = 0;
    while i < c.keys.len()
        invariant
            i <= c.keys@.len(),
            c.enabled,
            c.id@ == channel@,
            forall|j: int|
                0 <= j < i ==> !((#[trigger] c.keys@[j]).id@ == key@ && c.keys@[j].enabled),
        decreases c.keys@.len() - i,
    {
        if c.keys[i].enabled && same(c.keys[i].id.as_str(), key) {
            return true;
        }
        i = i + 1;
    }
    false
}

fn quality_allows(s: &State, c: &Channel, now: i64) -> (r: bool)
    ensures
        r == quality_ready(*s, *c, now as int),
{
    match &c.monitor_id {
        Some(id) => match s.quality.get(id.as_str()) {
            Some(q) => same(q.last_definite.as_str(), "healthy") && q.valid_until > now,
            None => false,
        },
        None => true,
    }
}

fn was_attempted(s: &Vec<(String, String, String)>, url: &str, model: &str, secret: &str) -> (r: bool)
    ensures
        r == identity_views(s@).contains((url@, model@, secret@)),
{
    let mut i: usize = 0;
    while i < s.len()
        invariant
            i <= s@.len(),
            forall|j: int|
                0 <= j < i ==> identity_views(s@)[j] != (url@, model@, secret@),
        decreases s@.len() - i,
    {
        let p = &s[i];
        assert(identity_views(s@)[i as int] == (p.0@, p.1@, p.2@));
        if same(p.0.as_str(), url) && same(p.1.as_str(), model) && same(p.2.as_str(), secret) {
            assert(identity_views(s@)[i as int] == (url@, model@, secret@));
            return true;
        }
        i = i + 1;
    }
    false
}

/// The remainder of a sum, which itself may be too large.
fn sum_modulo(a: usize, b: usize, n: usize) -> (r: usize)
    requires
        b < n,
    ensures
        r == (a as int + b as int) % (n as int),
{
    let s = a % n;
    proof {
        vstd::arithmetic::div_mod::lemma_add_mod_noop(a as int, b as int, n as int);
        vstd::arithmetic::div_mod::lemma_small_mod(b as nat, n as nat);
        assert((a as int + b as int) % (n as int) == (s as int + b as int) % (n as int));
    }
    if b < n - s {
        proof {
            vstd::arithmetic::div_mod::lemma_small_mod((s + b) as nat, n as nat);
        }
        s + b
    } else {
        proof {
            vstd::arithmetic::div_mod::lemma_mod_sub_multiples_vanish(s as int + b as int, n as int);
            vstd::arithmetic::div_mod::lemma_small_mod((b - (n - s)) as nat, n as nat);
        }
        b - (n - s)
    }
}

proof fn health_ignores_turns(a: State, b: State, c: Channel, now: int)
    requires
        a == (State { round_robin: a.round_robin, ..b }),
    ensures
        a.ready(c, now) == b.ready(c, now),
        quality_ready(a, c, now) == quality_ready(b, c, now),
        forall|id: Seq<char>| #[trigger] a.key_ready(id, now) == b.key_ready(id, now),
        eligible_keys(a, c, now, c.keys@.len() as int) == eligible_keys(
            b,
            c,
            now,
            c.keys@.len() as int,
        ),
{
    assert(a.some_key_ready(c.keys@, now) == b.some_key_ready(c.keys@, now)) by {
        if a.some_key_ready(c.keys@, now) {
            let i = choose|i: int|
                0 <= i < c.keys@.len() && (#[trigger] c.keys@[i]).enabled && a.key_ready(
                    c.keys@[i].id@,
                    now,
                );
            assert(b.key_ready(c.keys@[i].id@, now));
        }
        if b.some_key_ready(c.keys@, now) {
            let i = choose|i: int|
                0 <= i < c.keys@.len() && (#[trigger] c.keys@[i]).enabled && b.key_ready(
                    c.keys@[i].id@,
                    now,
                );
            assert(a.key_ready(c.keys@[i].id@, now));
        }
    }
    eligible_ignores_turns(a, b, c, now, c.keys@.len() as int);
}

proof fn eligible_ignores_turns(a: State, b: State, c: Channel, now: int, n: int)
    requires
        a == (State { round_robin: a.round_robin, ..b }),
    ensures
        eligible_keys(a, c, now, n) == eligible_keys(b, c, now, n),
    decreases n,
{
    if n > 0 {
        eligible_ignores_turns(a, b, c, now, n - 1);
        assert(a.key_ready(c.keys@[n - 1].id@, now) == b.key_ready(c.keys@[n - 1].id@, now));
    }
}

impl Walk {
    /// A search at its start.
    pub fn new() -> (r: Self)
        ensures
            r@ == WalkView::fresh(),
    {
        let r = Walk {
            channel: 0,
            open: false,
            keys: Vec::new(),
            start: 0,
            offset: 0,
            attempted: Vec::new(),
        };
        assert(r@.keys =~= Seq::empty());
        assert(r@.attempted =~= Seq::empty());
        r
    }

    fn pass(&mut self)
        requires
            old(self).channel < usize::MAX,
        ensures
            final(self)@ == old(self)@.passed(),
    {
        self.channel = self.channel + 1;
        self.open = false;
        self.keys = Vec::new();
        assert(self@.keys =~= Seq::empty());
        self.offset = 0;
    }

    fn take_turn(&mut self, state: &mut State, c: &Channel, now: i64)
        ensures
            final(self)@ == (WalkView {
                open: true,
                keys: eligible_keys(*old(state), *c, now as int, c.keys@.len() as int),
                start: turn_of(old(state).round_robin@, c.id@) as int,
                offset: 0,
                ..old(self)@
            }),
            *final(state) == (State { round_robin: final(state).round_robin, ..*old(state) }),
            final(state).round_robin@ == old(state).round_robin@.insert(
                c.id@,
                after_turn(turn_of(old(state).round_robin@, c.id@)),
            ),
    {
        let turn: usize = match state.round_robin.get(c.id.as_str()) {
            Some(n) => *n,
            None => 0,
        };
        self.open = true;
        self.keys = choose_keys(state, c, now);
        self.start = turn;
        self.offset = 0;
        let next: usize = if turn == usize::MAX {
            0
        } else {
            turn + 1
        };
        state.round_robin.insert(c.id.clone(), next);
    }

    fn remember(&mut self, url: String, model: String, secret: String)
        ensures
            final(self)@ == (WalkView {
                attempted: old(self)@.attempted.push((url@, model@, secret@)),
                ..old(self)@
            }),
    {
        let ghost before = identity_views(self.attempted@);
        let ghost id = (url@, model@, secret@);
        self.attempted.push((url, model, secret));
        assert(self@.attempted =~= before.push(id));
    }

    /// Goes on to the next key that may serve the request, as of a time.
    pub fn next_at(
        &mut self,
        route: &Model,
        current: &Config,
        state: &mut State,
        now: i64,
        expired: bool,
    ) -> (r: Option<(usize, usize)>)
        requires
            old(self)@.fits(*route),
        ensures
            final(self)@.fits(*route),
            ({
                let s = old(self)@.seek(
                    old(state).round_robin@,
                    scene(*route, *current, *old(state), now, expired),
                );
                &&& final(self)@ == s.walk
                &&& *final(state) == (State {
                    round_robin: final(state).round_robin,
                    ..*old(state)
                })
                &&& final(state).round_robin@ == s.turns
                &&& match r {
                    Some((c, k)) => s.found == Some((c as int, k as int)) && c
                        < route.channels@.len() && k < route.channels@[c as int].keys@.len(),
                    None => s.found is None,
                }
            }),
    {
        let ghost e = scene(*route, *current, *old(state), now, expired);
        let ghost goal = old(self)@.seek(old(state).round_robin@, e);
        let total = route.channels.len();
        while self.channel < total
            invariant
                total == route.channels@.len(),
                e == scene(*route, *current, *old(state), now, expired),
                self@.fits(*route),
                *state == (State { round_robin: state.round_robin, ..*old(state) }),
                self@.seek(state.round_robin@, e) == goal,
                goal == old(self)@.seek(old(state).round_robin@, e),
            decreases
                total - self.channel,
                if self.open {
                    0int
                } else {
                    1int
                },
                self.keys@.len() - self.offset,
        {
            let c = &route.channels[self.channel];
            proof {
                health_ignores_turns(*state, *old(state), *c, now as int);
            }
            if !self.open {
                if !c.enabled || !quality_allows(state, c, now) {
                    self.pass();
                } else {
                    proof {
                        eligible_places(*state, *c, now as int, c.keys@.len() as int);
                    }
                    self.take_turn(state, c, now);
                }
                continue;
            }
            if self.offset >= self.keys.len() {
                self.pass();
                continue;
            }
            if expired {
                self.channel = total;
                self.open = false;
                self.keys = Vec::new();
                assert(self@.keys =~= Seq::empty());
                self.offset = 0;
                return None;
            }
            let place = self.keys[sum_modulo(self.start, self.offset, self.keys.len())];
            assert(place == self@.key());
            let key = &c.keys[place];
            let ghost before = self@;
            self.offset = self.offset + 1;
            let url = config::responses_url(c.base_url.as_str());
            if was_attempted(
                &self.attempted,
                url.as_str(),
                c.upstream_model.as_str(),
                key.secret.as_str(),
            ) {
                continue;
            }
            self.remember(url, c.upstream_model.clone(), key.secret.clone());
            if !is_switched_on(&current.models, c.id.as_str(), key.id.as_str()) {
                continue;
            }
            if !state.channel_ready(c, now) {
                self.pass();
                continue;
            }
            let ready = match state.keys.get(key.id.as_str()) {
                Some(s) => s.eligible(now),
                None => true,
            };
            assert(ready == state.key_ready(key.id@, now as int));
            if !ready {
                continue;
            }
            return Some((self.channel, place));
        }
        None
    }
}

impl Walk {
    /// Goes on to the next key that may serve the request.
    pub fn next(
        &mut self,
        route: &Model,
        current: &Config,
        state: &mut State,
        expired: bool,
    ) -> (r: Option<(usize, usize)>)
        requires
            old(self)@.fits(*route),
        ensures
            final(self)@.fits(*route),
            *final(state) == (State { round_robin: final(state).round_robin, ..*old(state) }),
            exists|now: i64|
                {
                    let s = #[trigger] old(self)@.seek(
                        old(state).round_robin@,
                        scene(*route, *current, *old(state), now, expired),
                    );
                    &&& clock::reading(now as int)
                    &&& final(self)@ == s.walk
                    &&& final(state).round_robin@ == s.turns
                    &&& match r {
                        Some((c, k)) => s.found == Some((c as int, k as int)) && c
                            < route.channels@.len() && k < route.channels@[c as int].keys@.len(),
                        None => s.found is None,
                    }
                },
    {
        let now = clock::now();
        self.next_at(route, current, state, now, expired)
    }
}

/// A key that was found may serve: it was not tried before, is switched on, eligible, and of a channel
/// that is ready. What was tried stays remembered, the key with it.
pub proof fn found_keys_may_serve(w: WalkView, turns: Map<Seq<char>, usize>, e: Scene)
    ensures
        ({
            let s = w.seek(turns, e);
            &&& s.walk.channel >= w.channel
            &&& forall|id: Identity| #[trigger]
                w.attempted.contains(id) ==> s.walk.attempted.contains(id)
            &&& match s.found {
                Some((c, k)) => {
                    let channel = e.route.channels@[c];
                    let key = channel.keys@[k];
                    &&& 0 <= c < e.route.channels@.len()
                    &&& !e.expired
                    &&& !w.attempted.contains(identity_of(channel, key))
                    &&& s.walk.attempted.contains(identity_of(channel, key))
                    &&& switched_on(e.current, channel.id@, key.id@)
                    &&& e.state.ready(channel, e.now)
                    &&& e.state.key_ready(key.id@, e.now)
                },
                None => true,
            }
        }),
    decreases
        e.route.channels@.len() - w.channel,
        if w.open {
            0int
        } else {
            1int
        },
        w.keys.len() - w.offset,
{
    if 0 <= w.channel < e.route.channels@.len() {
        let c = e.route.channels@[w.channel];
        if !w.open {
            if !c.enabled || !quality_ready(e.state, c, e.now) {
                found_keys_may_serve(w.passed(), turns, e);
            } else {
                found_keys_may_serve(
                    WalkView {
                        open: true,
                        keys: eligible_keys(e.state, c, e.now, c.keys@.len() as int),
                        start: turn_of(turns, c.id@) as int,
                        offset: 0,
                        ..w
                    },
                    turns.insert(c.id@, after_turn(turn_of(turns, c.id@))),
                    e,
                );
            }
        } else if w.offset < 0 || w.offset >= w.keys.len() {
            found_keys_may_serve(w.passed(), turns, e);
        } else if !e.expired {
            let k = c.keys@[w.key()];
            let next = WalkView { offset: w.offset + 1, ..w };
            let tried = WalkView { attempted: w.attempted.push(identity_of(c, k)), ..next };
            assert forall|id: Identity| #[trigger] w.attempted.contains(id) implies
                tried.attempted.contains(id) by {
                let i = choose|i: int| 0 <= i < w.attempted.len() && w.attempted[i] == id;
                assert(tried.attempted[i] == id);
            }
            assert(tried.attempted[w.attempted.len() as int] == identity_of(c, k));
            if w.attempted.contains(identity_of(c, k)) {
                found_keys_may_serve(next, turns, e);
            } else if !switched_on(e.current, c.id@, k.id@) {
                found_keys_may_serve(tried, turns, e);
            } else if !e.state.ready(c, e.now) {
                found_keys_may_serve(tried.passed(), turns, e);
            } else if !e.state.key_ready(k.id@, e.now) {
                found_keys_may_serve(tried, turns, e);
            }
        }
    }
}

/// Once no key is found the search is over: it finds none later either.
pub proof fn ended_searches_stay_so(w: WalkView, turns: Map<Seq<char>, usize>, e: Scene, f: Scene)
    requires
        w.fits(e.route),
        f.route == e.route,
        w.seek(turns, e).found is None,
    ensures
        w.seek(turns, e).walk.seek(w.seek(turns, e).turns, f).found is None,
    decreases
        e.route.channels@.len() - w.channel,
        if w.open {
            0int
        } else {
            1int
        },
        w.keys.len() - w.offset,
{
    if 0 <= w.channel < e.route.channels@.len() {
        let c = e.route.channels@[w.channel];
        if !w.open {
            if !c.enabled || !quality_ready(e.state, c, e.now) {
                ended_searches_stay_so(w.passed(), turns, e, f);
            } else {
                eligible_places(e.state, c, e.now, c.keys@.len() as int);
                ended_searches_stay_so(
                    WalkView {
                        open: true,
                        keys: eligible_keys(e.state, c, e.now, c.keys@.len() as int),
                        start: turn_of(turns, c.id@) as int,
                        offset: 0,
                        ..w
                    },
                    turns.insert(c.id@, after_turn(turn_of(turns, c.id@))),
                    e,
                    f,
                );
            }
        } else if w.offset < 0 || w.offset >= w.keys.len() {
            ended_searches_stay_so(w.passed(), turns, e, f);
        } else if !e.expired {
            let k = c.keys@[w.key()];
            let next = WalkView { offset: w.offset + 1, ..w };
            let tried = WalkView { attempted: w.attempted.push(identity_of(c, k)), ..next };
            if w.attempted.contains(identity_of(c, k)) {
                ended_searches_stay_so(next, turns, e, f);
            } else if !switched_on(e.current, c.id@, k.id@) {
                ended_searches_stay_so(tried, turns, e, f);
            } else if !e.state.ready(c, e.now) {
                ended_searches_stay_so(tried.passed(), turns, e, f);
            } else if !e.state.key_ready(k.id@, e.now) {
                ended_searches_stay_so(tried, turns, e, f);
            }
        }
    }
}

/// What is said of a key by its channel's name and its identifier.
pub open spec fn label_of(name: Seq<char>, id: Seq<char>, what: Seq<char>) -> Seq<char> {
    name + " / "@ + id + "："@ + what
}

fn label(name: &str, id: &str, what: &str) -> (r: String)
    ensures
        r@ == label_of(name@, id@, what@),
{
    name.to_owned().concat(" / ").concat(id).concat("：").concat(what)
}

/// What a status is logged as.
pub open spec fn kind_of(status: u16) -> Seq<char> {
    if status == 401 {
        "credential"@
    } else if status == 402 {
        "balance"@
    } else if status == 429 {
        "rate_limit"@
    } else {
        "service"@
    }
}

/// Why a key is out of use.
pub open spec fn reason_of(suspect: bool, status: u16) -> Seq<char> {
    if suspect {
        "暂时异常，等待快速确认"@
    } else if status == 401 {
        "凭证失效"@
    } else if status == 402 {
        "额度耗尽"@
    } else if status == 429 {
        "上游限流，暂时跳过"@
    } else if status == 0 {
        "连接失败或流中断"@
    } else {
        "上游服务或未知协议错误，暂停路由并受限探测"@
    }
}

fn reason(suspect: bool, status: u16) -> (r: &'static str)
    ensures
        r@ == reason_of(suspect, status),
{
    if suspect {
        return "暂时异常，等待快速确认";
    }
    match status {
        401 => "凭证失效",
        402 => "额度耗尽",
        429 => "上游限流，暂时跳过",
        0 => "连接失败或流中断",
        _ => "上游服务或未知协议错误，暂停路由并受限探测",
    }
}

impl KeyView {
    /// The allowance was not known to be used up.
    pub open spec fn had_quota(self) -> bool {
        match self.allowance {
            Some(a) => !a.exhausted,
            None => true,
        }
    }

    /// The key after a request failed with a classified status, its reason apart.
    pub open spec fn struck(self, status: u16, now: i64) -> KeyView {
        if status == 401 {
            KeyView { credential_failed: true, revision: (self.revision + 1) as u64, ..self }
        } else if status == 402 {
            KeyView {
                request_exhausted: true,
                balance_checked: now,
                allowance: Some(
                    AllowanceView {
                        exhausted: true,
                        ..match self.allowance {
                            Some(a) => a,
                            None => AllowanceView::blank(),
                        }
                    },
                ),
                revision: (self.revision + 1) as u64,
                ..self
            }
        } else if status == 429 {
            KeyView {
                retry_at: (now + 60) as i64,
                revision: (self.revision + 1) as u64,
                ..self
            }
        } else {
            self.suspected(now)
        }
    }

    /// The key after a request failed with a classified status.
    pub open spec fn failing(self, status: u16, now: i64) -> KeyView {
        let s = self.struck(status, now);
        KeyView { reason: reason_of(s.suspect, status), ..s }
    }

    /// The failure is news.
    pub open spec fn news(self, status: u16, now: i64) -> bool {
        if status == 401 {
            !self.credential_failed
        } else if status == 402 {
            self.had_quota()
        } else if status == 429 {
            self.retry_at <= now
        } else {
            !self.suspect && !self.service_failed && self.again(now)
        }
    }

    /// What a failed request computes can be held.
    pub open spec fn strike_fits(self, status: u16, now: i64) -> bool {
        if status == 401 || status == 402 {
            self.revision < u64::MAX
        } else if status == 429 {
            self.revision < u64::MAX && now + 60 <= i64::MAX
        } else {
            self.suspicion_fits(now)
        }
    }
}

/// What operators are told of a failed request.
pub open spec fn failure_told(
    b: board::Board,
    s: KeyView,
    name: Seq<char>,
    id: Seq<char>,
    status: u16,
    webhook: bool,
    now: i64,
    notice: u64,
) -> board::Board {
    let news = s.news(status, now);
    b.event_if(
        s.struck(status, now).suspect && !s.suspect,
        now,
        "service"@,
        label_of(name, id, "暂时异常，等待快速确认"@),
    ).notice_if(
        news && status != 401 && status != 429 && webhook,
        now,
        notice,
        label_of(
            name,
            id,
            if status == 402 {
                "额度耗尽"@
            } else {
                "服务中断"@
            },
        ),
    ).event_if(
        news,
        now,
        kind_of(status),
        label_of(
            name,
            id,
            if status == 0 {
                "连接失败"@
            } else {
                "HTTP "@ + text::decimal(status as nat)
            },
        ),
    )
}

fn strike(s: &mut KeyState, status: u16, now: i64) -> (news: bool)
    requires
        old(s)@.strike_fits(status, now),
    ensures
        final(s)@ == old(s)@.struck(status, now),
        news == old(s)@.news(status, now),
{
    match status {
        401 => {
            let news = !s.credential_failed;
            s.credential_failed = true;
            s.revision = s.revision + 1;
            news
        },
        402 => {
            let news = match &s.allowance {
                Some(a) => !a.exhausted,
                None => true,
            };
            s.exhaust();
            s.request_exhausted = true;
            s.balance_checked = now;
            s.revision = s.revision + 1;
            news
        },
        429 => {
            let news = s.retry_at <= now;
            s.retry_at = now + 60;
            s.revision = s.revision + 1;
            news
        },
        _ => s.suspect_service(now),
    }
}

/// Brings a failed request into the state, as of a time: what a classified status says of the key, the
/// log, and a notice of what an operator should know. Keys that are not configured are left alone.
pub fn fail_at(
    state: &mut State,
    cfg: &Config,
    id: &str,
    name: &str,
    status: u16,
    now: i64,
    notice: u64,
)
    requires
        state::known_key(cfg.models@, id@) ==> old(state).key_at(id@).strike_fits(status, now),
    ensures
        !state::known_key(cfg.models@, id@) ==> *final(state) == *old(state),
        state::known_key(cfg.models@, id@) ==> {
            &&& final(state).key_changed(
                *old(state),
                id@,
                old(state).key_at(id@).failing(status, now),
            )
            &&& final(state).board() == failure_told(
                old(state).board(),
                old(state).key_at(id@),
                name@,
                id@,
                status,
                cfg.notifies(),
                now,
                notice,
            )
        },
{
    if !key_exists(&cfg.models, id) {
        return;
    }
    let ghost before = state.key_map();
    let mut s = state.take_key(id);
    let ghost sv = s@;
    let was_suspect = s.suspect;
    let news = strike(&mut s, status, now);
    let suspect = s.suspect;
    s.reason = reason(suspect, status).to_owned();
    let ghost after = s@;
    assert(after == sv.failing(status, now));
    state.put_key(id, s);
    assert(state.key_map() =~= before.insert(id@, after));
    state.event_if(
        suspect && !was_suspect,
        now,
        "service",
        label(name, id, "暂时异常，等待快速确认"),
    );
    let loss = if status == 402 {
        "额度耗尽"
    } else {
        "服务中断"
    };
    state.notice_if(
        news && status != 401 && status != 429 && cfg.has_webhook(),
        now,
        notice,
        label(name, id, loss),
    );
    let kind = match status {
        401 => "credential",
        402 => "balance",
        429 => "rate_limit",
        _ => "service",
    };
    let what = if status == 0 {
        "连接失败".to_owned()
    } else {
        "HTTP ".to_owned().concat(number(status as u64).as_str())
    };
    state.event_if(news, now, kind, label(name, id, what.as_str()));
}

/// Brings a failed request into the state.
pub fn fail(state: &mut State, cfg: &Config, id: &str, name: &str, status: u16)
    requires
        state::known_key(cfg.models@, id@) ==> forall|now: i64|
            clock::reading(now as int) ==> #[trigger] old(state).key_at(id@).strike_fits(
                status,
                now,
            ),
    ensures
        !state::known_key(cfg.models@, id@) ==> *final(state) == *old(state),
        state::known_key(cfg.models@, id@) ==> exists|now: i64, notice: u64|
            {
                &&& clock::reading(now as int)
                &&& final(state).key_changed(
                    *old(state),
                    id@,
                    old(state).key_at(id@).failing(status, now),
                )
                &&& final(state).board() == #[trigger] failure_told(
                    old(state).board(),
                    old(state).key_at(id@),
                    name@,
                    id@,
                    status,
                    cfg.notifies(),
                    now,
                    notice,
                )
            },
{
    let now = clock::now();
    let notice = random::random_u64();
    fail_at(state, cfg, id, name, status, now, notice);
}

/// The seconds that a throttling upstream asks to wait: a second to an hour, a minute where it does not
/// say.
pub open spec fn delay_of(retry_after: Option<Seq<char>>) -> i64 {
    let asked: int = match retry_after {
        Some(t) => match text::signed_value(t) {
            Some(n) => if i64::MIN <= n <= i64::MAX {
                n
            } else {
                60
            },
            None => 60,
        },
        None => 60,
    };
    if asked < 1 {
        1
    } else if asked > 3600 {
        3600
    } else {
        asked as i64
    }
}

fn delay(retry_after: Option<&str>) -> (r: i64)
    ensures
        r == delay_of(text::str_view(retry_after)),
        1 <= r <= 3600,
{
    let asked: i64 = match retry_after {
        Some(t) => match parse_i64(t) {
            Some(n) => n,
            None => 60,
        },
        None => 60,
    };
    if asked < 1 {
        1
    } else if asked > 3600 {
        3600
    } else {
        asked
    }
}

/// Leaves a throttled key alone for as long as its upstream asks, from a time on.
pub fn postpone_at(state: &mut State, id: &str, retry_after: Option<&str>, now: i64)
    requires
        now + 3600 <= i64::MAX,
    ensures
        !old(state).keys@.contains_key(id@) ==> *final(state) == *old(state),
        old(state).keys@.contains_key(id@) ==> {
            &&& final(state).key_changed(
                *old(state),
                id@,
                KeyView {
                    retry_at: (now + delay_of(text::str_view(retry_after))) as i64,
                    ..old(state).key_at(id@)
                },
            )
            &&& final(state).board() == old(state).board()
        },
{
    if state.keys.contains(id) {
        let ghost before = state.key_map();
        let mut s = state.take_key(id);
        s.retry_at = now + delay(retry_after);
        let ghost after = s@;
        state.put_key(id, s);
        assert(state.key_map() =~= before.insert(id@, after));
    }
}

/// Leaves a throttled key alone for as long as its upstream asks.
pub fn postpone(state: &mut State, id: &str, retry_after: Option<&str>)
    ensures
        !old(state).keys@.contains_key(id@) ==> *final(state) == *old(state),
        old(state).keys@.contains_key(id@) ==> final(state).board() == old(state).board()
            && exists|now: i64|
            {
                &&& #[trigger] clock::reading(now as int)
                &&& final(state).key_changed(
                    *old(state),
                    id@,
                    KeyView {
                        retry_at: (now + delay_of(text::str_view(retry_after))) as i64,
                        ..old(state).key_at(id@)
                    },
                )
            },
{
    let now = clock::now();
    assert(clock::reading(now as int));
    postpone_at(state, id, retry_after, now);
}

/// Notes that a key served. That is evidence of service, but clears no newer fault or cooldown.
pub fn record_success(state: &mut State, id: &str)
    ensures
        final(state).key_changed(
            *old(state),
            id@,
            KeyView { checked: true, ..old(state).key_at(id@) },
        ),
        final(state).board() == old(state).board(),
{
    let ghost before = state.key_map();
    let mut s = state.take_key(id);
    s.checked = true;
    let ghost after = s@;
    state.put_key(id, s);
    assert(state.key_map() =~= before.insert(id@, after));
}

/// What operators are told of a stream that ended without an end.
pub open spec fn warning_of(name: Seq<char>) -> Seq<char> {
    name + "：SSE正常关闭但未识别终态，保持原文，不判定Key故障"@
}

/// Notes once, as of a time, that a key's streams end without an end. The key is not at fault for it.
pub fn protocol_warning_at(state: &mut State, id: &str, name: &str, now: i64)
    ensures
        final(state).key_changed(
            *old(state),
            id@,
            KeyView { protocol_warning: true, ..old(state).key_at(id@) },
        ),
        final(state).board() == old(state).board().event_if(
            !old(state).key_at(id@).protocol_warning,
            now,
            "protocol"@,
            warning_of(name@),
        ),
{
    let ghost before = state.key_map();
    let mut s = state.take_key(id);
    let first = !s.protocol_warning;
    s.protocol_warning = true;
    let ghost after = s@;
    state.put_key(id, s);
    assert(state.key_map() =~= before.insert(id@, after));
    state.event_if(
        first,
        now,
        "protocol",
        name.to_owned().concat("：SSE正常关闭但未识别终态，保持原文，不判定Key故障"),
    );
}

/// Notes once that a key's streams end without an end.
pub fn protocol_warning(state: &mut State, id: &str, name: &str)
    ensures
        final(state).key_changed(
            *old(state),
            id@,
            KeyView { protocol_warning: true, ..old(state).key_at(id@) },
        ),
        exists|now: i64|
            #[trigger] clock::reading(now as int) && final(state).board() == old(
                state,
            ).board().event_if(
                !old(state).key_at(id@).protocol_warning,
                now,
                "protocol"@,
                warning_of(name@),
            ),
{
    let now = clock::now();
    assert(clock::reading(now as int));
    protocol_warning_at(state, id, name, now);
}

/// The place of a channel, where there is one with the identifier.
pub open spec fn place_of(s: Seq<Channel>, id: Seq<char>) -> Option<int> {
    if state::channel_index(s, id) < s.len() {
        Some(state::channel_index(s, id))
    } else {
        None
    }
}

/// A place comes before another; no place comes before any.
pub open spec fn comes_before(a: Option<int>, b: Option<int>) -> bool {
    match (a, b) {
        (Some(x), Some(y)) => x < y,
        (None, Some(_)) => true,
        (_, None) => false,
    }
}

/// A model goes back from one channel to a better one.
pub open spec fn goes_back(
    models: Seq<Model>,
    model: Seq<char>,
    id: Seq<char>,
    previous: Seq<char>,
) -> bool {
    let m = model_index(models, model);
    m < models.len() && comes_before(
        place_of(models[m].channels@, id),
        place_of(models[m].channels@, previous),
    )
}

fn is_back(models: &Vec<Model>, model: &str, id: &str, previous: &str) -> (r: bool)
    ensures
        r == goes_back(models@, model@, id@, previous@),
{
    let m = find_model(models, model);
    if m == models.len() {
        return false;
    }
    let s = &models[m].channels;
    let a = find_channel(s, id);
    let b = find_channel(s, previous);
    if b == s.len() {
        false
    } else {
        a == s.len() || a < b
    }
}

/// What operators are told of a route.
pub open spec fn route_line(model: Seq<char>, name: Seq<char>) -> Seq<char> {
    model + " → "@ + name + "（按优先级选择）"@
}

/// The channel that served a model last.
pub open spec fn last_of(state: State, model: Seq<char>) -> Option<Seq<char>> {
    if state.last_used@.contains_key(model) {
        Some(state.last_used@[model]@)
    } else {
        None
    }
}

/// A change of route, where there is one, can be counted.
pub open spec fn switch_fits(
    state: State,
    metrics: Metrics,
    cfg: Config,
    model: Seq<char>,
    id: Seq<char>,
) -> bool {
    match last_of(state, model) {
        Some(previous) => previous != id ==> metrics.today.route_switches < u64::MAX && (goes_back(
            cfg.models@,
            model,
            id,
            previous,
        ) ==> metrics.today.returns < u64::MAX),
        None => true,
    }
}

/// Notes which channel serves a model, as of a time; a change is counted and logged.
pub fn record_route_at(
    state: &mut State,
    metrics: &mut Metrics,
    cfg: &Config,
    model: &str,
    id: &str,
    name: &str,
    now: i64,
)
    requires
        now + 28800 <= i64::MAX,
        switch_fits(*old(state), *old(metrics), *cfg, model@, id@),
    ensures
        *final(state) == (State {
            last_used: final(state).last_used,
            events: final(state).events,
            ..*old(state)
        }),
        state::text_views(final(state).last_used@) == state::text_views(
            old(state).last_used@,
        ).insert(model@, id@),
        final(state).board() == old(state).board().event_if(
            last_of(*old(state), model@) != Some(id@),
            now,
            "route"@,
            route_line(model@, name@),
        ),
        final(metrics).model() == (match last_of(*old(state), model@) {
            Some(previous) => if previous != id@ {
                Metrics::switched(
                    old(metrics).model(),
                    now as int,
                    goes_back(cfg.models@, model@, id@, previous),
                )
            } else {
                old(metrics).model()
            },
            None => old(metrics).model(),
        }),
{
    let ghost before = state::text_views(state.last_used@);
    let previous = state.last_used.insert(model.to_owned(), id.to_owned());
    assert(state::text_views(state.last_used@) =~= before.insert(model@, id@));
    let changed = match &previous {
        Some(p) => !same(p.as_str(), id),
        None => true,
    };
    if changed {
        match &previous {
            Some(p) => {
                let back = is_back(&cfg.models, model, id, p.as_str());
                metrics.route_switch_at(now, back);
            },
            None => {},
        }
    }
    state.event_if(
        changed,
        now,
        "route",
        model.to_owned().concat(" → ").concat(name).concat("（按优先级选择）"),
    );
}

/// Notes which channel serves a model; a change is counted and logged.
pub fn record_route(
    state: &mut State,
    metrics: &mut Metrics,
    cfg: &Config,
    model: &str,
    id: &str,
    name: &str,
)
    requires
        switch_fits(*old(state), *old(metrics), *cfg, model@, id@),
    ensures
        *final(state) == (State {
            last_used: final(state).last_used,
            events: final(state).events,
            ..*old(state)
        }),
        state::text_views(final(state).last_used@) == state::text_views(
            old(state).last_used@,
        ).insert(model@, id@),
        exists|now: i64|
            {
                &&& #[trigger] clock::reading(now as int)
                &&& final(state).board() == old(state).board().event_if(
                    last_of(*old(state), model@) != Some(id@),
                    now,
                    "route"@,
                    route_line(model@, name@),
                )
                &&& final(metrics).model() == (match last_of(*old(state), model@) {
                    Some(previous) => if previous != id@ {
                        Metrics::switched(
                            old(metrics).model(),
                            now as int,
                            goes_back(cfg.models@, model@, id@, previous),
                        )
                    } else {
                        old(metrics).model()
                    },
                    None => old(metrics).model(),
                })
            },
{
    let now = clock::now();
    assert(clock::reading(now as int));
    record_route_at(state, metrics, cfg, model, id, name, now);
}

/// A failed request takes a key out of use at once, whatever its status.
pub proof fn failing_keys_are_not_eligible(s: KeyView, status: u16, now: i64)
    requires
        s.strike_fits(status, now),
    ensures
        !s.failing(status, now).eligible(now as int),
{
}

/// Success clears nothing: neither a fault nor a cooldown.
pub proof fn success_clears_nothing(s: KeyView, now: int)
    ensures
        (KeyView { checked: true, ..s }).eligible(now) == s.eligible(now),
{
}

/// What a reply is worth: the tokens it reports, and the classified status with which another key is
/// tried, where one is.
#[derive(Clone, Copy, Debug, PartialEq, Eq, Structural)]
pub struct Worth {
    pub usage: Option<Tokens>,
    pub retry: Option<u16>,
}

/// The tokens that a document reports.
pub open spec fn usage_of(doc: Option<JsonView>) -> Option<Tokens> {
    match doc {
        Some(v) => Tokens::reported(v.at("usage"@)),
        None => None,
    }
}

fn usage_in(doc: Option<&Json>) -> (r: Option<Tokens>)
    ensures
        r == usage_of(sse::view_of(doc)),
{
    match doc {
        Some(v) => Tokens::parse(at(Some(v), "usage")),
        None => None,
    }
}

/// What a status other than success is worth. One that the request itself caused goes to the client.
pub open spec fn refusal_worth(status: u16, doc: Option<JsonView>) -> Worth {
    let class = errors::class_of(status, doc);
    Worth {
        usage: usage_of(doc),
        retry: if class == 400 {
            None
        } else {
            Some(class)
        },
    }
}

/// What a success without a stream is worth. Only a sound response goes to the client.
pub open spec fn answer_worth(status: u16, doc: Option<JsonView>) -> Worth {
    Worth {
        usage: usage_of(doc),
        retry: if doc is Some && errors::sound_response(doc->0) {
            None
        } else {
            Some(errors::class_of(status, doc))
        },
    }
}

/// Weighs a status other than success whose document is given.
pub fn weigh_refusal(status: u16, doc: Option<&Json>) -> (r: Worth)
    ensures
        r == refusal_worth(status, sse::view_of(doc)),
{
    let class = errors::classify_parsed(status, doc);
    let retry = if class == 400 {
        None
    } else {
        Some(class)
    };
    Worth { usage: usage_in(doc), retry }
}

/// Weighs a success without a stream whose document is given.
pub fn weigh_answer(status: u16, doc: Option<&Json>) -> (r: Worth)
    ensures
        r == answer_worth(status, sse::view_of(doc)),
{
    let sound = match doc {
        Some(v) => errors::valid_response(v),
        None => false,
    };
    let retry = if sound {
        None
    } else {
        Some(errors::classify_parsed(status, doc))
    };
    Worth { usage: usage_in(doc), retry }
}

/// Weighs a status other than success.
pub fn read_refusal(status: u16, raw: &[u8]) -> (r: Worth)
    ensures
        r == refusal_worth(status, json::parsed(raw@)),
{
    match json::parse(raw) {
        Some(v) => weigh_refusal(status, Some(&v)),
        None => weigh_refusal(status, None),
    }
}

/// Weighs a success without a stream.
pub fn read_answer(status: u16, raw: &[u8]) -> (r: Worth)
    ensures
        r == answer_worth(status, json::parsed(raw@)),
{
    match json::parse(raw) {
        Some(v) => weigh_answer(status, Some(&v)),
        None => weigh_answer(status, None),
    }
}

/// Whether a content type is that of a stream of events.
pub fn is_stream(content_type: Option<&str>) -> (r: bool)
    ensures
        r == (content_type is Some && text::begins(content_type->0@, "text/event-stream"@)),
{
    match content_type {
        Some(t) => starts_with(t, "text/event-stream"),
        None => false,
    }
}

/// What becomes of a stream while it is held back.
#[derive(Clone, Copy, Debug, PartialEq, Eq, Structural)]
pub enum Step {
    /// More is to be read.
    More,
    /// The stream goes to the client: nothing is tried in its place from here on.
    Commit,
    /// Another key is tried.
    Fail,
    /// The stream ended with nothing in it.
    Empty,
}

/// What was seen in a piece of a stream.
#[derive(Clone, Copy, Debug, PartialEq, Eq, Structural)]
pub struct Seen {
    pub usage: Option<Tokens>,
    pub output: bool,
    pub step: Step,
}

/// The start of a stream, held back until it is clear that it is one.
pub struct Opening {
    pub observer: Observer,
    pub size: usize,
    pub any: bool,
}

impl ObserverView {
    /// The observer after the reported tokens were taken.
    pub open spec fn drained(self) -> ObserverView {
        ObserverView { usage: None, ..self }
    }

    /// The status of a failed stream.
    pub open spec fn failure(self) -> u16 {
        match self.failure_status {
            Some(s) => s,
            None => 503,
        }
    }

    /// The stream came to a good end.
    pub open spec fn served(self) -> bool {
        self.verdict.terminal && !self.verdict.failed
    }
}

impl Observer {
    fn drain(&mut self) -> (r: Option<Tokens>)
        ensures
            r == old(self)@.usage,
            final(self)@ == old(self)@.drained(),
    {
        self.usage.take()
    }

    /// The status of a failed stream.
    pub fn failure(&self) -> (r: u16)
        ensures
            r == self@.failure(),
    {
        match self.failure_status {
            Some(s) => s,
            None => 503,
        }
    }

    /// Whether the stream came to a good end.
    pub fn is_served(&self) -> (r: bool)
        ensures
            r == self@.served(),
    {
        self.terminal && !self.failed
    }
}

/// What becomes of a stream that was seen so far, with so many bytes held back.
pub open spec fn step_of(o: ObserverView, size: usize) -> Step {
    if o.verdict.retryable_failure {
        Step::Fail
    } else if o.verdict.meaningful || size >= 65536 {
        Step::Commit
    } else {
        Step::More
    }
}

/// A sum that stays at the largest number where it would pass it.
pub open spec fn capped(n: int) -> usize {
    if n > usize::MAX {
        usize::MAX
    } else {
        n as usize
    }
}

impl Opening {
    /// A stream before its first bytes.
    pub fn new() -> (r: Self)
        ensures
            r.observer@ == ObserverView::fresh(),
            r.observer@.sound(),
            r.size == 0,
            !r.any,
    {
        Opening { observer: Observer::default(), size: 0, any: false }
    }

    /// Takes the next bytes. The stream is held back until something meaningful came, or a failure
    /// before it, and no longer than 64 kibibytes.
    pub fn feed(&mut self, bytes: &[u8]) -> (r: Seen)
        requires
            old(self).observer@.sound(),
        ensures
            final(self).observer@.sound(),
            ({
                let o = old(self).observer@.fed(bytes@);
                &&& final(self).observer@ == o.drained()
                &&& final(self).size == capped(old(self).size + bytes@.len())
                &&& final(self).any
                &&& r == (Seen {
                    usage: o.usage,
                    output: o.verdict.output_text,
                    step: step_of(o, final(self).size),
                })
            }),
    {
        self.observer.feed(bytes);
        let usage = self.observer.drain();
        self.size = self.size.saturating_add(bytes.len());
        self.any = true;
        let step = if self.observer.retryable_failure {
            Step::Fail
        } else if self.observer.meaningful || self.size >= 65536 {
            Step::Commit
        } else {
            Step::More
        };
        Seen { usage, output: self.observer.output_text, step }
    }

    /// Takes the end of the stream.
    pub fn end(&mut self) -> (r: Seen)
        requires
            old(self).observer@.sound(),
        ensures
            final(self).observer@.sound(),
            ({
                let o = old(self).observer@.finished();
                &&& final(self).observer@ == o.drained()
                &&& final(self).size == old(self).size
                &&& final(self).any == old(self).any
                &&& r == (Seen {
                    usage: o.usage,
                    output: o.verdict.output_text,
                    step: if o.verdict.retryable_failure {
                        Step::Fail
                    } else if !old(self).any {
                        Step::Empty
                    } else {
                        Step::Commit
                    },
                })
            }),
    {
        self.observer.finish();
        let usage = self.observer.drain();
        let step = if self.observer.retryable_failure {
            Step::Fail
        } else if !self.any {
            Step::Empty
        } else {
            Step::Commit
        };
        Seen { usage, output: self.observer.output_text, step }
    }
}

/// How a stream ended.
#[derive(Clone, Copy, Debug, PartialEq, Eq, Structural)]
pub enum Ending {
    Served,
    Failed(u16),
    Unrecognized,
}

impl Ending {
    /// The outcome and the reason that a report states.
    pub open spec fn told(self) -> (Seq<char>, Seq<char>) {
        match self {
            Ending::Served => ("success"@, "completed"@),
            Ending::Failed(status) => ("failed"@, telemetry::reason_of(status)),
            Ending::Unrecognized => ("unknown"@, "unrecognized_terminal"@),
        }
    }

    /// The outcome and the reason that a report states.
    pub fn tell(&self) -> (r: (&'static str, &'static str))
        ensures
            (r.0@, r.1@) == self.told(),
    {
        match self {
            Ending::Served => ("success", "completed"),
            Ending::Failed(status) => ("failed", telemetry::failure_reason(*status)),
            Ending::Unrecognized => ("unknown", "unrecognized_terminal"),
        }
    }
}

/// How a stream ended that was seen to its end.
pub open spec fn ending_of(o: ObserverView) -> Ending {
    if o.verdict.failed {
        Ending::Failed(o.failure())
    } else if o.verdict.terminal {
        Ending::Served
    } else {
        Ending::Unrecognized
    }
}

/// Takes the next bytes of a stream that goes to the client, and says which tokens it reports.
pub fn relay(observer: &mut Observer, bytes: &[u8]) -> (r: Option<Tokens>)
    requires
        old(observer)@.sound(),
    ensures
        final(observer)@.sound(),
        final(observer)@ == old(observer)@.fed(bytes@).drained(),
        r == old(observer)@.fed(bytes@).usage,
{
    observer.feed(bytes);
    observer.drain()
}

/// Takes the end of a stream that went to the client, and says how it ended.
pub fn relay_end(observer: &mut Observer) -> (r: (Option<Tokens>, Ending))
    requires
        old(observer)@.sound(),
    ensures
        final(observer)@.sound(),
        final(observer)@ == old(observer)@.finished().drained(),
        r.0 == old(observer)@.finished().usage,
        r.1 == ending_of(old(observer)@.finished()),
{
    observer.finish();
    let usage = observer.drain();
    let ending = if observer.failed {
        Ending::Failed(observer.failure())
    } else if observer.terminal {
        Ending::Served
    } else {
        Ending::Unrecognized
    };
    (usage, ending)
}

/// Once something meaningful came, no other key is tried: a request is never answered twice.
pub proof fn meaningful_streams_are_not_replayed(o: ObserverView, bytes: Seq<u8>, size: usize)
    requires
        o.sound(),
        o.verdict.meaningful,
        !o.verdict.retryable_failure,
    ensures
        step_of(o.fed(bytes), size) == Step::Commit,
{
    sse::observations_are_final(o, bytes);
}

/// A request that is itself at fault is not tried elsewhere, and one that an upstream refused for its
/// own reasons is.
pub proof fn only_faults_of_upstreams_are_retried(status: u16, doc: Option<JsonView>)
    ensures
        refusal_worth(status, doc).retry is None <==> errors::class_of(status, doc) == 400,
        answer_worth(status, doc).retry is None <==> doc is Some && errors::sound_response(doc->0),
{
}

/// The places of a channel's keys that may be tried are those of the keys that are switched on and
/// unknown or eligible, all of them, in ascending order.
pub proof fn ready_keys_may_be_tried(s: State, c: Channel, now: int, n: int)
    requires
        0 <= n <= c.keys@.len(),
    ensures
        forall|i: usize| #[trigger]
            eligible_keys(s, c, now, n).contains(i) <==> i < n && c.keys@[i as int].enabled && (
            !s.keys@.contains_key(c.keys@[i as int].id@) || s.keys@[c.keys@[i as int].id@]@.eligible(
                now,
            )),
        forall|i: int, j: int|
            0 <= i < j < eligible_keys(s, c, now, n).len() ==> #[trigger] eligible_keys(
                s,
                c,
                now,
                n,
            )[i] < #[trigger] eligible_keys(s, c, now, n)[j],
        forall|i: int|
            0 <= i < eligible_keys(s, c, now, n).len() ==> #[trigger] eligible_keys(s, c, now, n)[i]
                < n,
    decreases n,
{
    if n > 0 {
        assert(c.keys.len() == c.keys@.len());
        ready_keys_may_be_tried(s, c, now, n - 1);
        let rest = eligible_keys(s, c, now, n - 1);
        let all = eligible_keys(s, c, now, n);
        let k = c.keys@[n - 1];
        assert forall|i: usize| #[trigger] all.contains(i) <==> i < n && c.keys@[i as int].enabled
            && (!s.keys@.contains_key(c.keys@[i as int].id@)
            || s.keys@[c.keys@[i as int].id@]@.eligible(now)) by {
            let tried = k.enabled && s.key_ready(k.id@, now);
            if tried {
                assert(all[rest.len() as int] == n - 1);
                if rest.contains(i) {
                    let j = choose|j: int| 0 <= j < rest.len() && rest[j] == i;
                    assert(all[j] == i);
                }
                if all.contains(i) {
                    let j = choose|j: int| 0 <= j < all.len() && all[j] == i;
                    if j < rest.len() {
                        assert(rest[j] == i);
                        assert(rest.contains(i));
                    }
                }
            } else {
                assert(rest.contains(i) == all.contains(i));
            }
        }
    }
}

/// A key of a route that could serve as things stand: its channel is switched on, the channel's
/// monitor, where it has one, vouches for it, and the key is switched on and unknown or eligible.
pub open spec fn serviceable(e: Scene, c: int, k: int) -> bool {
    let channel = e.route.channels@[c];
    let key = channel.keys@[k];
    &&& 0 <= c < e.route.channels@.len()
    &&& 0 <= k < channel.keys@.len()
    &&& channel.enabled
    &&& channel.monitor_id is None || e.state.quality@.contains_key(channel.monitor_id->0@)
        && e.state.quality@[channel.monitor_id->0@].last_definite@ == "healthy"@ && e.now
        < e.state.quality@[channel.monitor_id->0@].valid_until
    &&& key.enabled
    &&& !e.state.keys@.contains_key(key.id@) || e.state.keys@[key.id@]@.eligible(e.now)
}

/// A place holds a key of a route with an identity, and that key or its channel was switched off since
/// the request came.
pub open spec fn switched_off_since(e: Scene, id: Identity, c: int, k: int) -> bool {
    &&& 0 <= c < e.route.channels@.len()
    &&& 0 <= k < e.route.channels@[c].keys@.len()
    &&& identity_of(e.route.channels@[c], e.route.channels@[c].keys@[k]) == id
    &&& !switched_on(e.current, e.route.channels@[c].id@, e.route.channels@[c].keys@[k].id@)
}

/// Some key of a route with an identity was switched off since the request came.
pub open spec fn withdrawn(e: Scene, id: Identity) -> bool {
    exists|c: int, k: int| #[trigger] switched_off_since(e, id, c, k)
}

/// The keys that a search holds are those of its channel that may be tried.
pub open spec fn in_step(w: WalkView, e: Scene) -> bool {
    w.open ==> {
        let c = e.route.channels@[w.channel];
        &&& c.enabled
        &&& quality_ready(e.state, c, e.now)
        &&& w.keys == eligible_keys(e.state, c, e.now, c.keys@.len() as int)
    }
}

proof fn remainders_reach_all(start: int, n: int, j: int) -> (o: int)
    requires
        0 <= start,
        0 <= j < n,
    ensures
        0 <= o < n,
        (start + o) % n == j,
{
    let o = (j - start) % n;
    vstd::arithmetic::div_mod::lemma_add_mod_noop(start, j - start, n);
    vstd::arithmetic::div_mod::lemma_add_mod_noop_right(start, j - start, n);
    vstd::arithmetic::div_mod::lemma_small_mod(j as nat, n as nat);
    vstd::arithmetic::div_mod::lemma_mod_bound(j - start, n);
    o
}

/// What a search tried before the key that it found.
spec fn before_found(s: Sought) -> Seq<Identity> {
    if s.found is Some {
        s.walk.attempted.drop_last()
    } else {
        s.walk.attempted
    }
}

proof fn search_is_thorough(w: WalkView, turns: Map<Seq<char>, usize>, e: Scene)
    requires
        !e.expired,
        w.fits(e.route),
        in_step(w, e),
    ensures
        ({
            let s = w.seek(turns, e);
            &&& s.found is None ==> s.walk.channel == e.route.channels@.len()
            &&& s.found is Some ==> (s.found->0).0 == s.walk.channel
            &&& forall|id: Identity| #[trigger]
                before_found(s).contains(id) ==> w.attempted.contains(id) || withdrawn(e, id)
            &&& forall|id: Identity| #[trigger]
                w.attempted.contains(id) ==> before_found(s).contains(id)
            &&& s.found is Some ==> !before_found(s).contains(
                identity_of(
                    e.route.channels@[(s.found->0).0],
                    e.route.channels@[(s.found->0).0].keys@[(s.found->0).1],
                ),
            )
            &&& forall|c: int, k: int|
                #![trigger serviceable(e, c, k)]
                (w.channel < c || w.channel == c && !w.open) && c < s.walk.channel && serviceable(
                    e,
                    c,
                    k,
                ) ==> before_found(s).contains(
                    identity_of(e.route.channels@[c], e.route.channels@[c].keys@[k]),
                )
            &&& w.open && s.walk.channel > w.channel ==> forall|o: int|
                w.offset <= o < w.keys.len() ==> #[trigger] before_found(s).contains(
                    looked_at(w, e, o),
                )
        }),
    decreases
        e.route.channels@.len() - w.channel,
        if w.open {
            0int
        } else {
            1int
        },
        w.keys.len() - w.offset,
{
    let s = w.seek(turns, e);
    found_keys_may_serve(w, turns, e);
    if w.channel < e.route.channels@.len() {
        let c = e.route.channels@[w.channel];
        if !w.open {
            if !c.enabled || !quality_ready(e.state, c, e.now) {
                search_is_thorough(w.passed(), turns, e);
                assert forall|i: int, k: int|
                    #![trigger serviceable(e, i, k)]
                    w.channel <= i < s.walk.channel && serviceable(e, i, k) implies before_found(s).contains(
                    identity_of(e.route.channels@[i], e.route.channels@[i].keys@[k]),
                ) by {
                    if i == w.channel {
                        assert(false);
                    }
                }
            } else {
                let keys = eligible_keys(e.state, c, e.now, c.keys@.len() as int);
                let opened = WalkView {
                    open: true,
                    keys,
                    start: turn_of(turns, c.id@) as int,
                    offset: 0,
                    ..w
                };
                let after = turns.insert(c.id@, after_turn(turn_of(turns, c.id@)));
                eligible_places(e.state, c, e.now, c.keys@.len() as int);
                search_is_thorough(opened, after, e);
                assert forall|i: int, k: int|
                    #![trigger serviceable(e, i, k)]
                    w.channel <= i < s.walk.channel && serviceable(e, i, k) implies before_found(s).contains(
                    identity_of(e.route.channels@[i], e.route.channels@[i].keys@[k]),
                ) by {
                    if i == w.channel {
                        assert(c.keys.len() == c.keys@.len());
                        ready_keys_may_be_tried(e.state, c, e.now, c.keys@.len() as int);
                        assert(keys.contains(k as usize));
                        let j = choose|j: int| 0 <= j < keys.len() && keys[j] == k as usize;
                        let o = remainders_reach_all(opened.start, keys.len() as int, j);
                        assert(before_found(s).contains(looked_at(opened, e, o)));
                    }
                }
            }
        } else if w.offset >= w.keys.len() {
            search_is_thorough(w.passed(), turns, e);
        } else {
            let place = w.key();
            assert(0 <= place < c.keys@.len()) by {
                vstd::arithmetic::div_mod::lemma_mod_bound(w.start + w.offset, w.keys.len() as int);
            }
            let k = c.keys@[place];
            let id = identity_of(c, k);
            assert(c.keys.len() == c.keys@.len());
            ready_keys_may_be_tried(e.state, c, e.now, c.keys@.len() as int);
            assert(w.keys.contains(place as usize)) by {
                vstd::arithmetic::div_mod::lemma_mod_bound(w.start + w.offset, w.keys.len() as int);
                assert(w.keys[(w.start + w.offset) % (w.keys.len() as int)] == place);
            }
            assert(k.enabled && e.state.key_ready(k.id@, e.now));
            assert(e.state.ready(c, e.now));
            let next = WalkView { offset: w.offset + 1, ..w };
            let tried = WalkView { attempted: w.attempted.push(id), ..next };
            assert(looked_at(w, e, w.offset) == id);
            assert(tried.attempted[w.attempted.len() as int] == id);
            assert forall|x: Identity| #[trigger] w.attempted.contains(x) implies tried.attempted.contains(
                x,
            ) by {
                let i = choose|i: int| 0 <= i < w.attempted.len() && w.attempted[i] == x;
                assert(tried.attempted[i] == x);
            }
            assert(forall|x: Identity| #[trigger]
                tried.attempted.contains(x) ==> w.attempted.contains(x) || x == id) by {
                assert forall|x: Identity| #[trigger] tried.attempted.contains(x) implies
                    w.attempted.contains(x) || x == id by {
                    let i = choose|i: int| 0 <= i < tried.attempted.len() && tried.attempted[i] == x;
                    if i < w.attempted.len() {
                        assert(w.attempted[i] == x);
                    }
                }
            }
            if w.attempted.contains(id) {
                search_is_thorough(next, turns, e);
                found_keys_may_serve(next, turns, e);
                assert(next.attempted.contains(id));
                assert forall|o: int|
                    s.walk.channel > w.channel && w.offset <= o < w.keys.len() implies #[trigger] before_found(s).contains(
                    looked_at(w, e, o),
                ) by {
                    assert(looked_at(w, e, o) == looked_at(next, e, o));
                    if o > w.offset {
                        assert(before_found(s).contains(looked_at(next, e, o)));
                    }
                }
            } else if !switched_on(e.current, c.id@, k.id@) {
                assert(switched_off_since(e, id, w.channel, place));
                search_is_thorough(tried, turns, e);
                found_keys_may_serve(tried, turns, e);
                assert(tried.attempted.contains(id));
                assert forall|o: int|
                    s.walk.channel > w.channel && w.offset <= o < w.keys.len() implies #[trigger] before_found(s).contains(
                    looked_at(w, e, o),
                ) by {
                    assert(looked_at(w, e, o) == looked_at(tried, e, o));
                    if o > w.offset {
                        assert(before_found(s).contains(looked_at(tried, e, o)));
                    }
                }
            } else {
                assert(s.walk == tried);
                assert(before_found(s) =~= w.attempted);
            }
        }
    }
}

/// The identity of the key that an open search looks at after so many others.
pub open spec fn looked_at(w: WalkView, e: Scene, o: int) -> Identity {
    let c = e.route.channels@[w.channel];
    identity_of(c, c.keys@[w.keys[(w.start + o) % (w.keys.len() as int)] as int])
}

/// A search leaves no key out: a request that is not too late is refused for want of a key only where
/// every key of its route that could serve was switched off since, or another with the same address,
/// model and credential was.
pub proof fn searches_leave_no_key_out(turns: Map<Seq<char>, usize>, e: Scene, c: int, k: int)
    requires
        !e.expired,
        serviceable(e, c, k),
        WalkView::fresh().seek(turns, e).found is None,
    ensures
        withdrawn(e, identity_of(e.route.channels@[c], e.route.channels@[c].keys@[k])),
{
    search_is_thorough(WalkView::fresh(), turns, e);
}

/// Where nothing was switched off since the request came, a key that could serve means that one is
/// found, of its channel or of one before it.
pub proof fn serviceable_keys_are_found(turns: Map<Seq<char>, usize>, e: Scene, c: int, k: int)
    requires
        !e.expired,
        serviceable(e, c, k),
        forall|i: int, j: int|
            0 <= i < e.route.channels@.len() && 0 <= j < e.route.channels@[i].keys@.len()
                ==> #[trigger] switched_on(
                e.current,
                e.route.channels@[i].id@,
                e.route.channels@[i].keys@[j].id@,
            ),
    ensures
        WalkView::fresh().seek(turns, e).found is Some,
        (WalkView::fresh().seek(turns, e).found->0).0 <= c,
{
    search_ends_at_once(WalkView::fresh(), turns, e, c, k);
}

/// Where nothing was switched off, a search does not pass a channel with a key that could serve and
/// was not tried.
proof fn search_ends_at_once(w: WalkView, turns: Map<Seq<char>, usize>, e: Scene, c: int, k: int)
    requires
        !e.expired,
        w.fits(e.route),
        in_step(w, e),
        serviceable(e, c, k),
        !w.open && w.channel <= c || w.open && w.channel == c && w.offset < w.keys.len() || w.open
            && w.channel < c,
        w.attempted.len() == 0,
        forall|i: int, j: int|
            0 <= i < e.route.channels@.len() && 0 <= j < e.route.channels@[i].keys@.len()
                ==> #[trigger] switched_on(
                e.current,
                e.route.channels@[i].id@,
                e.route.channels@[i].keys@[j].id@,
            ),
    ensures
        w.seek(turns, e).found is Some,
        (w.seek(turns, e).found->0).0 <= c,
    decreases
        e.route.channels@.len() - w.channel,
        if w.open {
            0int
        } else {
            1int
        },
        w.keys.len() - w.offset,
{
    let channel = e.route.channels@[w.channel];
    assert(channel.keys.len() == channel.keys@.len());
    ready_keys_may_be_tried(e.state, channel, e.now, channel.keys@.len() as int);
    if !w.open {
        if !channel.enabled || !quality_ready(e.state, channel, e.now) {
            assert(w.channel != c);
            search_ends_at_once(w.passed(), turns, e, c, k);
        } else {
            let keys = eligible_keys(e.state, channel, e.now, channel.keys@.len() as int);
            let opened = WalkView {
                open: true,
                keys,
                start: turn_of(turns, channel.id@) as int,
                offset: 0,
                ..w
            };
            eligible_places(e.state, channel, e.now, channel.keys@.len() as int);
            if w.channel == c {
                assert(keys.contains(k as usize));
                assert(keys.len() > 0);
            }
            search_ends_at_once(
                opened,
                turns.insert(channel.id@, after_turn(turn_of(turns, channel.id@))),
                e,
                c,
                k,
            );
        }
    } else if w.offset >= w.keys.len() {
        search_ends_at_once(w.passed(), turns, e, c, k);
    } else {
        vstd::arithmetic::div_mod::lemma_mod_bound(w.start + w.offset, w.keys.len() as int);
        let place = w.key();
        assert(w.keys.contains(place as usize)) by {
            assert(w.keys[(w.start + w.offset) % (w.keys.len() as int)] == place);
        }
        let key = channel.keys@[place];
        assert(key.enabled && e.state.key_ready(key.id@, e.now));
        assert(e.state.ready(channel, e.now));
        assert(switched_on(e.current, channel.id@, e.route.channels@[w.channel].keys@[place].id@));
    }
}

/// Channels come in the order of the configuration: where a key is found, every key of a channel before
/// its own that could serve was switched off since, or shares its identity with one that was, and none of
/// them shares the identity of the key that was found.
pub proof fn better_channels_are_tried_first(turns: Map<Seq<char>, usize>, e: Scene, c: int, k: int)
    requires
        !e.expired,
        WalkView::fresh().seek(turns, e).found is Some,
        c < (WalkView::fresh().seek(turns, e).found->0).0,
        serviceable(e, c, k),
    ensures
        ({
            let f = WalkView::fresh().seek(turns, e).found->0;
            let id = identity_of(e.route.channels@[c], e.route.channels@[c].keys@[k]);
            withdrawn(e, id) && id != identity_of(
                e.route.channels@[f.0],
                e.route.channels@[f.0].keys@[f.1],
            )
        }),
{
    search_is_thorough(WalkView::fresh(), turns, e);
}

/// The keys of a channel take turns: the search starts with the one whose turn it is, and the turn goes
/// on by one. Channels before it that could not serve do not lose theirs.
pub proof fn keys_take_turns(turns: Map<Seq<char>, usize>, e: Scene, w: WalkView, c: int)
    requires
        !e.expired,
        !w.open,
        0 <= w.channel <= c < e.route.channels@.len(),
        w.attempted.len() == 0,
        forall|i: int|
            w.channel <= i < c ==> !(#[trigger] e.route.channels@[i]).enabled || !quality_ready(
                e.state,
                e.route.channels@[i],
                e.now,
            ),
        e.route.channels@[c].enabled,
        quality_ready(e.state, e.route.channels@[c], e.now),
        eligible_keys(
            e.state,
            e.route.channels@[c],
            e.now,
            e.route.channels@[c].keys@.len() as int,
        ).len() > 0,
        forall|k: int|
            0 <= k < e.route.channels@[c].keys@.len() ==> #[trigger] switched_on(
                e.current,
                e.route.channels@[c].id@,
                e.route.channels@[c].keys@[k].id@,
            ),
    ensures
        ({
            let channel = e.route.channels@[c];
            let keys = eligible_keys(e.state, channel, e.now, channel.keys@.len() as int);
            let turn: usize = if turns.contains_key(channel.id@) {
                turns[channel.id@]
            } else {
                0
            };
            let s = w.seek(turns, e);
            &&& s.found == Some((c, keys[turn as int % keys.len() as int] as int))
            &&& s.turns == turns.insert(
                channel.id@,
                if turn == usize::MAX {
                    0
                } else {
                    (turn + 1) as usize
                },
            )
        }),
    decreases c - w.channel,
{
    let channel = e.route.channels@[w.channel];
    if w.channel < c {
        assert(!channel.enabled || !quality_ready(e.state, channel, e.now));
        keys_take_turns(turns, e, w.passed(), c);
    } else {
        let keys = eligible_keys(e.state, channel, e.now, channel.keys@.len() as int);
        let turn = turn_of(turns, channel.id@);
        let opened = WalkView { open: true, keys, start: turn as int, offset: 0, ..w };
        let after = turns.insert(channel.id@, after_turn(turn));
        assert(channel.keys.len() == channel.keys@.len());
        ready_keys_may_be_tried(e.state, channel, e.now, channel.keys@.len() as int);
        vstd::arithmetic::div_mod::lemma_mod_bound(turn as int, keys.len() as int);
        let place = opened.key();
        assert(keys.contains(place as usize)) by {
            assert(keys[turn as int % keys.len() as int] == place);
        }
        let key = channel.keys@[place];
        assert(key.enabled && e.state.key_ready(key.id@, e.now));
        assert(e.state.ready(channel, e.now));
        assert(switched_on(e.current, channel.id@, e.route.channels@[c].keys@[place].id@));
        assert(w.seek(turns, e) == opened.seek(after, e));
    }
}

/// A key is switched on exactly where some model has a channel of its channel's name that is switched
/// on, and in it a key of its name that is.
pub proof fn switches_are_looked_up(models: Seq<Model>, channel: Seq<char>, key: Seq<char>)
    ensures
        switched_on(models, channel, key) <==> exists|m: int, c: int, k: int|
            0 <= m < models.len() && 0 <= c < models[m].channels@.len() && 0 <= k
                < models[m].channels@[c].keys@.len() && #[trigger] is_on(
                models[m].channels@[c],
                k,
                channel,
                key,
            ),
{
    if switched_on(models, channel, key) {
        let m = choose|m: int| 0 <= m < models.len() && model_has(#[trigger] models[m], channel, key);
        let c = choose|c: int|
            0 <= c < models[m].channels@.len() && channel_has(
                #[trigger] models[m].channels@[c],
                channel,
                key,
            );
        let k = choose|k: int|
            0 <= k < models[m].channels@[c].keys@.len()
                && (#[trigger] models[m].channels@[c].keys@[k]).id@ == key
                && models[m].channels@[c].keys@[k].enabled;
        assert(is_on(models[m].channels@[c], k, channel, key));
    }
    if exists|m: int, c: int, k: int|
        0 <= m < models.len() && 0 <= c < models[m].channels@.len() && 0 <= k
            < models[m].channels@[c].keys@.len() && #[trigger] is_on(
            models[m].channels@[c],
            k,
            channel,
            key,
        ) {
        let (m, c, k) = choose|m: int, c: int, k: int|
            0 <= m < models.len() && 0 <= c < models[m].channels@.len() && 0 <= k
                < models[m].channels@[c].keys@.len() && #[trigger] is_on(
                models[m].channels@[c],
                k,
                channel,
                key,
            );
        assert(models[m].channels@[c].keys@[k].enabled);
        assert(channel_has(models[m].channels@[c], channel, key));
        assert(model_has(models[m], channel, key));
    }
}

/// A channel and one of its keys have given names and are switched on.
pub open spec fn is_on(c: Channel, k: int, channel: Seq<char>, key: Seq<char>) -> bool {
    c.id@ == channel && c.enabled && c.keys@[k].id@ == key && c.keys@[k].enabled
}

/// What a failed request says of its key: a refused credential, a used-up quota, a minute's pause, or
/// a sign that the service failed. It says nothing else.
pub proof fn statuses_strike_as_they_say(s: KeyView, status: u16, now: i64)
    requires
        s.strike_fits(status, now),
    ensures
        ({
            let t = s.failing(status, now);
            &&& t.credential_failed <==> s.credential_failed || status == 401
            &&& t.request_exhausted <==> s.request_exhausted || status == 402
            &&& status == 402 ==> t.allowance is Some && (t.allowance->0).exhausted
                && t.balance_checked == now
            &&& status == 402 && s.allowance is Some ==> t.allowance == Some(
                AllowanceView { exhausted: true, ..s.allowance->0 },
            )
            &&& status != 402 ==> t.allowance == s.allowance && t.balance_checked
                == s.balance_checked
            &&& status == 429 ==> t.retry_at == now + 60
            &&& status == 401 || status == 402 ==> t.retry_at == s.retry_at
            &&& status == 401 || status == 402 || status == 429 ==> t.suspect == s.suspect
                && t.service_failed == s.service_failed && t.failure_cycles == s.failure_cycles
                && t.cooldown_until == s.cooldown_until && t.last_incident == s.last_incident
                && t.revision == s.revision + 1
            &&& status != 401 && status != 402 && status != 429 ==> t.suspect || t.service_failed
            &&& status != 401 && status != 402 && status != 429 && !s.suspect && !s.service_failed
                && s.last_incident is None ==> t.suspect && !t.service_failed && t.retry_at == now
                + 5
            &&& status == 402 && s.allowance is None ==> t.allowance == Some(
                AllowanceView { exhausted: true, ..AllowanceView::blank() },
            )
            &&& t.checked == s.checked && t.detected == s.detected && t.protocol_warning
                == s.protocol_warning && t.balance_error == s.balance_error
                && t.last_recovery_success == s.last_recovery_success
            &&& status == 401 || status == 402 || status == 429 ==> t.probe_step == s.probe_step
                && t.probe_attempts == s.probe_attempts && t.probe_exhausted == s.probe_exhausted
                && t.recovery_successes == s.recovery_successes
            &&& status != 401 && status != 402 && status != 429 ==> t == (KeyView {
                reason: t.reason,
                ..s.suspected(now)
            })
            &&& t.suspect ==> t.reason == "暂时异常，等待快速确认"@
            &&& !t.suspect && status == 401 ==> t.reason == "凭证失效"@
            &&& !t.suspect && status == 402 ==> t.reason == "额度耗尽"@
            &&& !t.suspect && status == 429 ==> t.reason == "上游限流，暂时跳过"@
            &&& !t.suspect && status == 0 ==> t.reason == "连接失败或流中断"@
            &&& !t.suspect && status != 401 && status != 402 && status != 429 && status != 0
                ==> t.reason == "上游服务或未知协议错误，暂停路由并受限探测"@
        }),
{
}

/// A failure is news once: where the same is already known, operators are not told again.
pub proof fn known_failures_are_no_news(s: KeyView, status: u16, now: i64)
    ensures
        s.news(401, now) <==> !s.credential_failed,
        s.news(402, now) <==> s.allowance is None || !(s.allowance->0).exhausted,
        s.news(429, now) <==> s.retry_at <= now,
        status != 401 && status != 402 && status != 429 ==> (s.news(status, now) <==> !s.suspect
            && !s.service_failed && s.last_incident is Some && now < s.last_incident->0 + 600),
{
}

/// What operators are told of a failed request. A used-up quota and a failed service also go to the
/// webhook, where there is one; a refused credential and throttling do not.
pub proof fn failures_are_told(
    b: board::Board,
    s: KeyView,
    name: Seq<char>,
    id: Seq<char>,
    webhook: bool,
    now: i64,
    notice: u64,
)
    ensures
        !s.credential_failed && !s.suspect ==> failure_told(b, s, name, id, 401, webhook, now, notice)
            == b.event(now, "credential"@, label_of(name, id, "HTTP "@ + text::decimal(401))),
        s.credential_failed ==> failure_told(b, s, name, id, 401, webhook, now, notice) == b,
        s.retry_at <= now ==> failure_told(b, s, name, id, 429, webhook, now, notice) == b.event(
            now,
            "rate_limit"@,
            label_of(name, id, "HTTP "@ + text::decimal(429)),
        ),
        s.retry_at > now ==> failure_told(b, s, name, id, 429, webhook, now, notice) == b,
        s.allowance is None && webhook ==> failure_told(b, s, name, id, 402, webhook, now, notice)
            == b.notice(now, notice, label_of(name, id, "额度耗尽"@)).event(
            now,
            "balance"@,
            label_of(name, id, "HTTP "@ + text::decimal(402)),
        ),
        s.allowance is None && !webhook ==> failure_told(b, s, name, id, 402, webhook, now, notice)
            == b.event(now, "balance"@, label_of(name, id, "HTTP "@ + text::decimal(402))),
        s.allowance is Some && (s.allowance->0).exhausted ==> failure_told(
            b,
            s,
            name,
            id,
            402,
            webhook,
            now,
            notice,
        ) == b,
        !s.suspect && !s.service_failed && s.last_incident is None ==> failure_told(
            b,
            s,
            name,
            id,
            503,
            webhook,
            now,
            notice,
        ) == b.event(now, "service"@, label_of(name, id, "暂时异常，等待快速确认"@)),
        !s.suspect && !s.service_failed && s.last_incident == Some(now) && webhook ==> failure_told(
            b,
            s,
            name,
            id,
            0,
            webhook,
            now,
            notice,
        ) == b.notice(now, notice, label_of(name, id, "服务中断"@)).event(
            now,
            "service"@,
            label_of(name, id, "连接失败"@),
        ),
        s.suspect || s.service_failed ==> failure_told(b, s, name, id, 503, webhook, now, notice)
            == b,
{
}

/// A throttled key is left alone for as long as was asked, but at least a second and at most an hour;
/// for a minute where nothing that can be read was asked.
pub proof fn pauses_are_bounded(asked: Option<Seq<char>>)
    ensures
        1 <= delay_of(asked) <= 3600,
        asked is None ==> delay_of(asked) == 60,
        asked is Some && text::signed_value(asked->0) is None ==> delay_of(asked) == 60,
        asked is Some && text::signed_value(asked->0) is Some ==> ({
            let n = text::signed_value(asked->0)->0;
            &&& 1 <= n <= 3600 ==> delay_of(asked) == n
            &&& i64::MIN <= n < 1 ==> delay_of(asked) == 1
            &&& 3600 < n <= i64::MAX ==> delay_of(asked) == 3600
        }),
{
}

/// Headers go to an upstream unless they are credentials, framing, the caller's account, or belong to
/// the connection, be it by their name or because the connection's header names them.
pub proof fn other_headers_are_forwarded(connection: Seq<char>, name: Seq<char>)
    ensures
        passes(connection, name, request_exclusions()) <==> !hop_by_hop(connection, name) && name
            != "authorization"@ && name != "host"@ && name != "content-length"@ && name
            != "content-type"@ && name != "connection"@ && name != "transfer-encoding"@ && name
            != "cookie"@ && name != "proxy-authorization"@ && name != "accept-encoding"@ && name
            != "x-api-key"@ && name != "api-key"@ && name != "keep-alive"@ && name != "te"@ && name
            != "trailer"@ && name != "upgrade"@ && name != "openai-organization"@ && name
            != "openai-project"@,
{
    let w = request_exclusions();
    assert(w[0] == "authorization"@ && w[1] == "host"@ && w[2] == "content-length"@ && w[3]
        == "content-type"@ && w[4] == "connection"@ && w[5] == "transfer-encoding"@ && w[6]
        == "cookie"@ && w[7] == "proxy-authorization"@ && w[8] == "accept-encoding"@ && w[9]
        == "x-api-key"@ && w[10] == "api-key"@ && w[11] == "keep-alive"@ && w[12] == "te"@ && w[13]
        == "trailer"@ && w[14] == "upgrade"@ && w[15] == "openai-organization"@ && w[16]
        == "openai-project"@);
    if w.contains(name) {
        let i = choose|i: int| 0 <= i < w.len() && w[i] == name;
        assert(0 <= i < 17);
    }
}

/// Headers go to a client unless they are framing, cookies, or belong to the connection, be it by their
/// name or because the connection's header names them.
pub proof fn other_headers_are_returned(connection: Seq<char>, name: Seq<char>)
    ensures
        passes(connection, name, response_exclusions()) <==> !hop_by_hop(connection, name) && name
            != "connection"@ && name != "transfer-encoding"@ && name != "content-length"@ && name
            != "set-cookie"@ && name != "keep-alive"@ && name != "proxy-authenticate"@ && name
            != "upgrade"@ && name != "trailer"@ && name != "te"@,
{
    let w = response_exclusions();
    assert(w[0] == "connection"@ && w[1] == "transfer-encoding"@ && w[2] == "content-length"@
        && w[3] == "set-cookie"@ && w[4] == "keep-alive"@ && w[5] == "proxy-authenticate"@ && w[6]
        == "upgrade"@ && w[7] == "trailer"@ && w[8] == "te"@);
    if w.contains(name) {
        let i = choose|i: int| 0 <= i < w.len() && w[i] == name;
        assert(0 <= i < 9);
    }
}

proof fn first_model(s: Seq<Model>, id: Seq<char>)
    ensures
        0 <= model_index(s, id) <= s.len(),
        model_index(s, id) < s.len() ==> s[model_index(s, id)].id@ == id,
        forall|i: int| 0 <= i < model_index(s, id) ==> (#[trigger] s[i]).id@ != id,
    decreases s.len(),
{
    if s.len() > 0 {
        let rest = s.drop_last();
        first_model(rest, id);
        assert(forall|i: int| 0 <= i < rest.len() ==> rest[i] == #[trigger] s[i]);
    }
}

/// A request is let in exactly where it is an object, names a model that is configured, and refers to
/// no history of a vendor. Otherwise the first of these that is missing is what it is told.
pub proof fn requests_are_let_in(
    models: Seq<Model>,
    members: Option<Seq<(Seq<char>, Seq<char>)>>,
    model: Option<Seq<char>>,
)
    ensures
        ({
            let known = model is Some && exists|i: int|
                0 <= i < models.len() && (#[trigger] models[i]).id@ == model->0;
            let pinned = members is Some && (given(members->0, "previous_response_id"@) || given(
                members->0,
                "conversation"@,
            ));
            let r = refusal_of(models, members, model);
            &&& r is None <==> members is Some && known && !pinned
            &&& r == Some(Refusal::InvalidJson) <==> members is None
            &&& r == Some(Refusal::MissingModel) <==> members is Some && model is None
            &&& r == Some(Refusal::UnknownModel) <==> members is Some && model is Some && !known
            &&& r == Some(Refusal::History) <==> members is Some && known && pinned
        }),
{
    if model is Some {
        first_model(models, model->0);
    }
    if members is Some {
        first_spelling(members->0, "previous_response_id"@);
        first_spelling(members->0, "conversation"@);
    }
}

/// The first member of a name stands at a place.
pub open spec fn first_at(s: Seq<(Seq<char>, Seq<char>)>, key: Seq<char>, i: int) -> bool {
    &&& 0 <= i < s.len()
    &&& s[i].0 == key
    &&& forall|j: int| 0 <= j < i ==> (#[trigger] s[j]).0 != key
}

/// The first member of a name is there and is not spelled `null`.
pub open spec fn given(s: Seq<(Seq<char>, Seq<char>)>, key: Seq<char>) -> bool {
    exists|i: int| #[trigger] first_at(s, key, i) && s[i].1 != "null"@
}

proof fn first_spelling(s: Seq<(Seq<char>, Seq<char>)>, key: Seq<char>)
    ensures
        raw_of(s, key) is Some <==> exists|i: int| #[trigger] first_at(s, key, i),
        forall|i: int| #[trigger] first_at(s, key, i) ==> raw_of(s, key) == Some(s[i].1),
        refers(s, key) <==> given(s, key),
    decreases s.len(),
{
    if s.len() > 0 {
        let rest = s.drop_last();
        first_spelling(rest, key);
        assert(forall|i: int| 0 <= i < rest.len() ==> rest[i] == #[trigger] s[i]);
        assert forall|i: int| #[trigger] first_at(s, key, i) implies raw_of(s, key) == Some(
            s[i].1,
        ) by {
            if i < rest.len() {
                assert(first_at(rest, key, i));
            } else if raw_of(rest, key) is Some {
                let j = choose|j: int| #[trigger] first_at(rest, key, j);
                assert(s[j].0 == key);
            }
        }
        if raw_of(s, key) is Some {
            if raw_of(rest, key) is Some {
                let j = choose|j: int| #[trigger] first_at(rest, key, j);
                assert(first_at(s, key, j));
            } else {
                let last = s.len() - 1;
                assert(first_at(s, key, last)) by {
                    assert forall|j: int| 0 <= j < last implies (#[trigger] s[j]).0 != key by {
                        no_spelling(rest, key, j);
                    }
                }
            }
        }
    }
}

proof fn no_spelling(s: Seq<(Seq<char>, Seq<char>)>, key: Seq<char>, j: int)
    requires
        raw_of(s, key) is None,
        0 <= j < s.len(),
    ensures
        s[j].0 != key,
    decreases s.len(),
{
    if j < s.len() - 1 {
        no_spelling(s.drop_last(), key, j);
    }
}

/// The model that a request names is the text that its first member `model` spells.
pub proof fn models_are_named(s: Seq<(Seq<char>, Seq<char>)>, i: int)
    ensures
        first_at(s, "model"@, i) ==> named_model(Some(s)) == json::unquoted(s[i].1),
        (forall|j: int| 0 <= j < s.len() ==> (#[trigger] s[j]).0 != "model"@) ==> named_model(
            Some(s),
        ) is None,
{
    first_spelling(s, "model"@);
    if raw_of(s, "model"@) is Some {
        let j = choose|j: int| #[trigger] first_at(s, "model"@, j);
        assert(s[j].0 == "model"@);
    }
}

/// The status, the code and the type of each answer of the router itself.
pub proof fn refusals_are_answered(r: Refusal)
    ensures
        r.status_of() == 401 <==> r == Refusal::InvalidKey,
        r.status_of() == 404 <==> r == Refusal::UnknownModel,
        r.status_of() == 408 <==> r == Refusal::Slow,
        r.status_of() == 503 <==> r == Refusal::NoChannel,
        r.status_of() == 502 <==> r == Refusal::BadResponse || r == Refusal::EmptyResponse,
        r.status_of() == 400 <==> r == Refusal::Unreadable || r == Refusal::InvalidJson || r
            == Refusal::MissingModel || r == Refusal::History,
        r.document().at("error"@).at("code"@) == JsonView::Text(r.code_of()),
        r.document().at("error"@).at("message"@) == JsonView::Text(r.message_of()),
        r.document().at("error"@).at("type"@) == JsonView::Text("router_error"@),
{
    reveal_strlit("code");
    reveal_strlit("message");
    reveal_strlit("type");
    reveal_with_fuel(json::lookup, 4);
    let inner = r.document().at("error"@)->Object_0;
    assert(inner.skip(1)[0] == inner[1]);
    assert(inner.skip(1).skip(1)[0] == inner[2]);
    assert("code"@.len() == 4 && "message"@.len() == 7 && "type"@.len() == 4);
    assert("code"@[0] != "type"@[0]);
}

/// A client tells by the code why the router itself answered.
pub proof fn refusals_have_codes()
    ensures
        Refusal::InvalidKey.code_of() == "invalid_api_key"@,
        Refusal::Unreadable.code_of() == "request_read_error"@,
        Refusal::Slow.code_of() == "body_timeout"@,
        Refusal::InvalidJson.code_of() == "invalid_json"@,
        Refusal::MissingModel.code_of() == "missing_model"@,
        Refusal::UnknownModel.code_of() == "model_not_found"@,
        Refusal::History.code_of() == "nonportable_history"@,
        Refusal::BadResponse.code_of() == "response_error"@,
        Refusal::EmptyResponse.code_of() == "empty_upstream_response"@,
        Refusal::NoChannel.code_of() == "no_available_channel"@,
{
}

/// The catalog lists every model once, in the order of the configuration, whether it can be served or
/// not.
pub proof fn catalogs_list_all_models(models: Seq<Model>, i: int)
    requires
        0 <= i < models.len(),
    ensures
        catalog_of(models).at("object"@) == JsonView::Text("list"@),
        catalog_of(models).at("data"@) is Array,
        catalog_of(models).at("data"@)->Array_0.len() == models.len(),
        (catalog_of(models).at("data"@)->Array_0)[i].at("id"@) == JsonView::Text(models[i].id@),
        (catalog_of(models).at("data"@)->Array_0)[i].at("object"@) == JsonView::Text("model"@),
        (catalog_of(models).at("data"@)->Array_0)[i].at("created"@).as_uint() == Some(0u64),
        (catalog_of(models).at("data"@)->Array_0)[i].at("owned_by"@) == JsonView::Text(
            "forest-router"@,
        ),
{
    reveal_strlit("object");
    reveal_strlit("data");
    reveal_strlit("id");
    reveal_strlit("created");
    reveal_strlit("owned_by");
    reveal_with_fuel(json::lookup, 5);
    let o = catalog_of(models)->Object_0;
    assert(o.skip(1)[0] == o[1]);
    let e = entry_of(models[i].id@)->Object_0;
    assert(e.skip(1)[0] == e[1]);
    assert(e.skip(1).skip(1)[0] == e[2]);
    assert(e.skip(1).skip(1).skip(1)[0] == e[3]);
    assert("object"@.len() == 6 && "data"@.len() == 4 && "id"@.len() == 2 && "created"@.len() == 7
        && "owned_by"@.len() == 8);
}

/// A route goes back where its new channel stands before the old one in the configuration. A channel
/// that is no longer configured is gone back from by none, and gone back to by any.
pub proof fn routes_go_back(
    models: Seq<Model>,
    model: Seq<char>,
    m: int,
    id: Seq<char>,
    previous: Seq<char>,
    a: int,
    b: int,
)
    requires
        0 <= m < models.len(),
        models[m].id@ == model,
        forall|i: int| 0 <= i < m ==> (#[trigger] models[i]).id@ != model,
        0 <= b < models[m].channels@.len(),
        models[m].channels@[b].id@ == previous,
        forall|i: int| 0 <= i < b ==> (#[trigger] models[m].channels@[i]).id@ != previous,
        0 <= a <= models[m].channels@.len(),
        a < models[m].channels@.len() ==> models[m].channels@[a].id@ == id,
        forall|i: int| 0 <= i < a ==> (#[trigger] models[m].channels@[i]).id@ != id,
    ensures
        goes_back(models, model, id, previous) <==> a < b || a == models[m].channels@.len(),
{
    first_model(models, model);
    let k = model_index(models, model);
    if k < m {
        assert(models[k].id@ != model);
    }
    assert(k == m) by {
        if m < k {
            assert(models[m].id@ != model);
        }
    }
    let s = models[m].channels@;
    state::first_place(s, id, a);
    state::first_place(s, previous, b);
}

/// A refused reply goes to the client, and its request nowhere else, where no word decides and its
/// status is 400, 413 or 422; with any other status another key is tried.
pub proof fn errors_of_the_request_are_returned(status: u16)
    ensures
        status == 400 || status == 413 || status == 422 ==> refusal_worth(status, None).retry
            is None,
        status == 401 || status == 402 || status == 429 ==> refusal_worth(status, None).retry
            == Some(status),
        status != 400 && status != 401 && status != 402 && status != 413 && status != 422 && status
            != 429 ==> refusal_worth(status, None).retry == Some(503u16),
        answer_worth(status, None).retry is Some,
{
    errors::silent_replies_go_by_their_status(status, None);
    errors::five_classes(status, None);
}

/// The tokens that a reply reports are those under `usage`, whatever becomes of the reply.
pub proof fn replies_report_tokens(status: u16, v: JsonView)
    ensures
        refusal_worth(status, Some(v)).usage == Tokens::reported(v.at("usage"@)),
        answer_worth(status, Some(v)).usage == Tokens::reported(v.at("usage"@)),
        refusal_worth(status, None).usage is None,
        answer_worth(status, None).usage is None,
{
}

/// A stream is held back while nothing meaningful and no failure came, and less than 64 kibibytes. A
/// failure before anything meaningful is tried elsewhere, however long the stream.
pub proof fn streams_are_held_back(o: ObserverView, size: usize)
    ensures
        step_of(o, size) == Step::Fail <==> o.verdict.retryable_failure,
        step_of(o, size) == Step::More <==> !o.verdict.retryable_failure && !o.verdict.meaningful
            && size < 65536,
        step_of(o, size) == Step::Commit <==> !o.verdict.retryable_failure && (o.verdict.meaningful
            || size >= 65536),
{
}

/// A stream that failed ended so, whatever else came; one that did not was served exactly where it came
/// to an end.
pub proof fn streams_end_as_seen(o: ObserverView)
    ensures
        o.verdict.failed && o.failure_status is Some ==> ending_of(o) == Ending::Failed(
            o.failure_status->0,
        ),
        o.verdict.failed && o.failure_status is None ==> ending_of(o) == Ending::Failed(503),
        !o.verdict.failed && o.verdict.terminal ==> ending_of(o) == Ending::Served,
        !o.verdict.failed && !o.verdict.terminal ==> ending_of(o) == Ending::Unrecognized,
        o.served() <==> ending_of(o) == Ending::Served,
        Ending::Served.told() == ("success"@, "completed"@),
        Ending::Unrecognized.told() == ("unknown"@, "unrecognized_terminal"@),
        o.verdict.failed ==> ending_of(o).told().0 == "failed"@,
        o.failure_status is Some && o.verdict.failed ==> ending_of(o).told().1
            == telemetry::reason_of(o.failure_status->0),
{
}

/// A stream of nothing but announcements is held back, and a failure after it is tried elsewhere.
pub proof fn announced_streams_are_held_back(
    o: ObserverView,
    kinds: Seq<Seq<char>>,
    kind: Seq<char>,
    size: usize,
)
    requires
        o.sound(),
        o.idle(),
        !o.verdict.failed,
        !o.verdict.meaningful,
        size < 65536,
        forall|i: int|
            0 <= i < kinds.len() ==> (#[trigger] kinds[i] == "response.created"@ || kinds[i]
                == "response.in_progress"@) && sse::reads_as_typed(kinds[i]),
        kind == "response.failed"@ || kind == "error"@,
        sse::reads_as_typed(kind),
    ensures
        step_of(o.fed(sse::typed_frames(kinds)), size) == Step::More,
        step_of(o.fed(sse::typed_frames(kinds) + sse::typed_frame(kind)), size) == Step::Fail,
{
    sse::announcements_mean_nothing(o, kinds);
    sse::failures_after_announcements_are_retryable(o, kinds, kind);
}

/// Candidates are the same exactly where their addresses, their models and their credentials are. What
/// their channels and keys are called plays no part.
pub proof fn candidates_are_told_apart(a: Channel, k: Key, b: Channel, l: Key)
    ensures
        identity_of(a, k) == identity_of(b, l) <==> config::responses_url_of(a.base_url@)
            == config::responses_url_of(b.base_url@) && a.upstream_model@ == b.upstream_model@
            && k.secret@ == l.secret@,
{
}

/// What a client reads in the answers of the router itself.
pub proof fn refusals_have_messages()
    ensures
        Refusal::InvalidKey.message_of() == "公司 API Key 不正确"@,
        Refusal::Unreadable.message_of() == "请求正文读取失败"@,
        Refusal::Slow.message_of() == "读取请求超时"@,
        Refusal::InvalidJson.message_of() == "请求必须是JSON对象"@,
        Refusal::MissingModel.message_of() == "缺少模型"@,
        Refusal::UnknownModel.message_of() == "模型未配置"@,
        Refusal::History.message_of()
            == "此网关需要完整请求历史，不支持 previous_response_id 或 conversation 跨渠道状态引用"@,
        Refusal::BadResponse.message_of() == "响应构造失败"@,
        Refusal::EmptyResponse.message_of() == "上游返回空SSE；当前请求未重放"@,
        Refusal::NoChannel.message_of() == "当前没有可用渠道"@,
{
}

/// No route goes back from a channel that is no longer configured, nor does that of a model that is not.
pub proof fn forgotten_channels_are_not_gone_back_from(
    models: Seq<Model>,
    model: Seq<char>,
    m: int,
    id: Seq<char>,
    previous: Seq<char>,
)
    requires
        0 <= m <= models.len(),
        m < models.len() ==> models[m].id@ == model,
        forall|i: int| 0 <= i < m ==> (#[trigger] models[i]).id@ != model,
        m < models.len() ==> forall|i: int|
            0 <= i < models[m].channels@.len() ==> (#[trigger] models[m].channels@[i]).id@
                != previous,
    ensures
        !goes_back(models, model, id, previous),
{
    first_model(models, model);
    if m < models.len() {
        assert(model_index(models, model) == m) by {
            assert(models[m].id@ == model);
        }
        state::first_place(models[m].channels@, previous, models[m].channels@.len() as int);
    }
}

/// What operators read of a key, a stream and a route names what it is about.
pub proof fn lines_name_their_subject(
    name: Seq<char>,
    id: Seq<char>,
    what: Seq<char>,
    model: Seq<char>,
)
    ensures
        text::after(label_of(name, id, what), name + " / "@ + id + "："@) == Some(what),
        text::after(warning_of(name), name) == Some(
            "：SSE正常关闭但未识别终态，保持原文，不判定Key故障"@,
        ),
        text::after(route_line(model, name), model + " → "@ + name) == Some("（按优先级选择）"@),
{
    text::prefixes_are_cut(name + " / "@ + id + "："@, what, label_of(name, id, what));
    text::prefixes_are_cut(
        name,
        "：SSE正常关闭但未识别终态，保持原文，不判定Key故障"@,
        warning_of(name),
    );
    text::prefixes_are_cut(model + " → "@ + name, "（按优先级选择）"@, route_line(model, name));
}

/// A failed service is told as such, whatever its status: the first sign of an incident to the log only,
/// another within ten minutes to the webhook too, where there is one.
pub proof fn failed_services_are_told(
    b: board::Board,
    s: KeyView,
    name: Seq<char>,
    id: Seq<char>,
    status: u16,
    webhook: bool,
    now: i64,
    notice: u64,
)
    requires
        status != 401,
        status != 402,
        status != 429,
    ensures
        ({
            let t = failure_told(b, s, name, id, status, webhook, now, notice);
            let again = s.last_incident is Some && now < s.last_incident->0 + 600;
            let what = if status == 0 {
                "连接失败"@
            } else {
                "HTTP "@ + text::decimal(status as nat)
            };
            &&& s.suspect || s.service_failed ==> t == b
            &&& !s.suspect && !s.service_failed && !again ==> t == b.event(
                now,
                "service"@,
                label_of(name, id, "暂时异常，等待快速确认"@),
            )
            &&& !s.suspect && !s.service_failed && again && webhook ==> t == b.notice(
                now,
                notice,
                label_of(name, id, "服务中断"@),
            ).event(now, "service"@, label_of(name, id, what))
            &&& !s.suspect && !s.service_failed && again && !webhook ==> t == b.event(
                now,
                "service"@,
                label_of(name, id, what),
            )
        }),
{
}

/// A header that the connection's header names stays, whatever its spelling there and whatever else is
/// named beside it.
pub proof fn named_headers_stay(connection: Seq<char>, i: int, excluded: Seq<Seq<char>>)
    requires
        0 <= i < text::pieces(connection, ',').len(),
    ensures
        !passes(
            connection,
            text::lowered(text::trimmed(text::pieces(connection, ',')[i])),
            excluded,
        ),
{
    assert(hop_by_hop(
        connection,
        text::lowered(text::trimmed(text::pieces(connection, ',')[i])),
    ));
}

/// A search has tried all that it passed: every key that could serve of a channel before its own, and
/// every key of its own channel before its place.
pub open spec fn accounted(w: WalkView, e: Scene) -> bool {
    &&& forall|c: int, k: int|
        c < w.channel && #[trigger] serviceable(e, c, k) ==> w.attempted.contains(
            identity_of(e.route.channels@[c], e.route.channels@[c].keys@[k]),
        )
    &&& w.open ==> forall|o: int|
        0 <= o < w.offset ==> w.attempted.contains(#[trigger] looked_at(w, e, o))
}

proof fn search_keeps_its_place(w: WalkView, turns: Map<Seq<char>, usize>, e: Scene)
    requires
        !e.expired,
        w.fits(e.route),
        in_step(w, e),
    ensures
        ({
            let s = w.seek(turns, e);
            let stays = w.open && s.walk.channel == w.channel;
            &&& s.found is None ==> !s.walk.open && s.walk.fits(e.route)
            &&& s.found is Some ==> {
                &&& s.walk.open && s.walk.fits(e.route) && in_step(s.walk, e)
                &&& s.walk.attempted.len() > 0
                &&& s.walk.attempted.last() == identity_of(
                    e.route.channels@[(s.found->0).0],
                    e.route.channels@[(s.found->0).0].keys@[(s.found->0).1],
                )
                &&& stays ==> s.walk.keys == w.keys && s.walk.start == w.start
                &&& forall|o: int|
                    (if stays {
                        w.offset
                    } else {
                        0
                    }) <= o < s.walk.offset ==> s.walk.attempted.contains(
                        #[trigger] looked_at(s.walk, e, o),
                    )
            }
        }),
    decreases
        e.route.channels@.len() - w.channel,
        if w.open {
            0int
        } else {
            1int
        },
        w.keys.len() - w.offset,
{
    let s = w.seek(turns, e);
    found_keys_may_serve(w, turns, e);
    if w.channel < e.route.channels@.len() {
        let c = e.route.channels@[w.channel];
        if !w.open {
            if !c.enabled || !quality_ready(e.state, c, e.now) {
                search_keeps_its_place(w.passed(), turns, e);
            } else {
                let keys = eligible_keys(e.state, c, e.now, c.keys@.len() as int);
                let opened = WalkView {
                    open: true,
                    keys,
                    start: turn_of(turns, c.id@) as int,
                    offset: 0,
                    ..w
                };
                let after = turns.insert(c.id@, after_turn(turn_of(turns, c.id@)));
                eligible_places(e.state, c, e.now, c.keys@.len() as int);
                search_keeps_its_place(opened, after, e);
            }
        } else if w.offset >= w.keys.len() {
            search_keeps_its_place(w.passed(), turns, e);
            found_keys_may_serve(w.passed(), turns, e);
        } else {
            let place = w.key();
            assert(0 <= place < c.keys@.len()) by {
                vstd::arithmetic::div_mod::lemma_mod_bound(w.start + w.offset, w.keys.len() as int);
            }
            let k = c.keys@[place];
            let id = identity_of(c, k);
            assert(c.keys.len() == c.keys@.len());
            ready_keys_may_be_tried(e.state, c, e.now, c.keys@.len() as int);
            assert(w.keys.contains(place as usize)) by {
                vstd::arithmetic::div_mod::lemma_mod_bound(w.start + w.offset, w.keys.len() as int);
                assert(w.keys[(w.start + w.offset) % (w.keys.len() as int)] == place);
            }
            assert(e.state.ready(c, e.now));
            let next = WalkView { offset: w.offset + 1, ..w };
            let tried = WalkView { attempted: w.attempted.push(id), ..next };
            assert(looked_at(w, e, w.offset) == id);
            assert(tried.attempted[w.attempted.len() as int] == id);
            if w.attempted.contains(id) {
                search_keeps_its_place(next, turns, e);
                found_keys_may_serve(next, turns, e);
                assert(s.walk.attempted.contains(id));
            } else if !switched_on(e.current, c.id@, k.id@) {
                search_keeps_its_place(tried, turns, e);
                found_keys_may_serve(tried, turns, e);
                assert(tried.attempted.contains(id));
                assert(s.walk.attempted.contains(id));
            } else {
                assert(s.walk == tried);
            }
            if s.found is Some && s.walk.channel == w.channel {
                assert(s.walk.keys == w.keys && s.walk.start == w.start);
                assert(looked_at(s.walk, e, w.offset) == id);
                assert(s.walk.attempted.contains(id));
                assert forall|o: int| w.offset <= o < s.walk.offset implies s.walk.attempted.contains(
                    #[trigger] looked_at(s.walk, e, o),
                ) by {
                    if o == w.offset {
                        assert(looked_at(s.walk, e, o) == id);
                    }
                }
            }
        }
    }
}

/// However often a search goes on, it passes no key over: while things stand as they do, what it has
/// passed it has tried, and where it finds nothing more, every key that could serve was tried. It
/// counts as tried only what it found, and what was switched off since.
pub proof fn every_key_is_tried_in_the_end(
    w: WalkView,
    turns: Map<Seq<char>, usize>,
    e: Scene,
    c: int,
    k: int,
)
    requires
        !e.expired,
        w.fits(e.route),
        in_step(w, e),
        accounted(w, e),
    ensures
        accounted(WalkView::fresh(), e),
        ({
            let s = w.seek(turns, e);
            &&& s.walk.fits(e.route)
            &&& in_step(s.walk, e)
            &&& accounted(s.walk, e)
            &&& s.found is None && serviceable(e, c, k) ==> s.walk.attempted.contains(
                identity_of(e.route.channels@[c], e.route.channels@[c].keys@[k]),
            )
            &&& forall|id: Identity| #[trigger]
                s.walk.attempted.contains(id) ==> w.attempted.contains(id) || withdrawn(e, id)
                    || s.found is Some && id == identity_of(
                    e.route.channels@[(s.found->0).0],
                    e.route.channels@[(s.found->0).0].keys@[(s.found->0).1],
                )
        }),
{
    let s = w.seek(turns, e);
    search_is_thorough(w, turns, e);
    search_keeps_its_place(w, turns, e);
    found_keys_may_serve(w, turns, e);
    assert forall|id: Identity| #[trigger] s.walk.attempted.contains(id) implies w.attempted.contains(
        id,
    ) || withdrawn(e, id) || s.found is Some && id == identity_of(
        e.route.channels@[(s.found->0).0],
        e.route.channels@[(s.found->0).0].keys@[(s.found->0).1],
    ) by {
        let i = choose|i: int| 0 <= i < s.walk.attempted.len() && s.walk.attempted[i] == id;
        if s.found is Some && i < s.walk.attempted.len() - 1 {
            assert(before_found(s)[i] == id);
            assert(before_found(s).contains(id));
        }
        if s.found is None {
            assert(before_found(s).contains(id));
        }
    }
    assert forall|i: int, j: int| i < s.walk.channel && #[trigger] serviceable(e, i, j) implies
        s.walk.attempted.contains(
        identity_of(e.route.channels@[i], e.route.channels@[i].keys@[j]),
    ) by {
        let channel = e.route.channels@[i];
        let id = identity_of(channel, channel.keys@[j]);
        if i < w.channel {
            assert(w.attempted.contains(id));
        } else if i == w.channel && w.open {
            assert(channel.keys.len() == channel.keys@.len());
            ready_keys_may_be_tried(e.state, channel, e.now, channel.keys@.len() as int);
            assert(w.keys.contains(j as usize));
            let n = choose|n: int| 0 <= n < w.keys.len() && w.keys[n] == j as usize;
            let o = remainders_reach_all(w.start, w.keys.len() as int, n);
            assert(looked_at(w, e, o) == id);
            if o < w.offset {
                assert(w.attempted.contains(id));
            } else {
                assert(before_found(s).contains(looked_at(w, e, o)));
                tried_stays_tried(s, id);
            }
        } else {
            assert(before_found(s).contains(id));
            tried_stays_tried(s, id);
        }
    }
    if s.walk.open {
        assert forall|o: int| 0 <= o < s.walk.offset implies s.walk.attempted.contains(
            #[trigger] looked_at(s.walk, e, o),
        ) by {
            if w.open && s.walk.channel == w.channel && o < w.offset {
                assert(looked_at(s.walk, e, o) == looked_at(w, e, o));
                assert(w.attempted.contains(looked_at(w, e, o)));
            }
        }
    }
}

proof fn tried_stays_tried(s: Sought, id: Identity)
    requires
        s.found is Some ==> s.walk.attempted.len() > 0,
        before_found(s).contains(id),
    ensures
        s.walk.attempted.contains(id),
{
    let i = choose|i: int| 0 <= i < before_found(s).len() && before_found(s)[i] == id;
    assert(s.walk.attempted[i] == id);
}

} // verus!
