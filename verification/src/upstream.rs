//! Replies of upstreams: how much of them is read, what their errors say, and where quotas are asked.
use crate::balance;
use crate::balance::{Adapter, Allowance, AllowanceView};
use crate::clock;
use crate::config;
use crate::errors;
use crate::json;
use crate::json::{Json, JsonView};
use crate::sse;
use crate::text;
use crate::text::{is_empty, join, number, same, split, take, trim};
use vstd::prelude::*;
use vstd::string::*;

verus! {

/// What a status means to somebody who reads the result of a check.
pub open spec fn hint_of(status: u16) -> Seq<char> {
    if status == 400 {
        "请求参数被上游拒绝"@
    } else if status == 401 {
        "检测 Key 未通过认证"@
    } else if status == 402 {
        "检测账号额度或余额不足"@
    } else if status == 403 {
        "上游拒绝访问"@
    } else if status == 404 {
        "检测接口或模型不存在"@
    } else if status == 408 {
        "上游等待请求超时"@
    } else if status == 409 {
        "请求与上游当前状态冲突"@
    } else if status == 413 {
        "检测请求超过上游大小限制"@
    } else if status == 422 {
        "检测请求参数校验失败"@
    } else if status == 429 {
        "检测请求被上游限流"@
    } else if 500 <= status <= 599 {
        "上游服务异常"@
    } else {
        "上游返回错误"@
    }
}

/// What a status means to somebody who reads the result of a check.
pub fn status_hint(status: u16) -> (r: &'static str)
    ensures
        r@ == hint_of(status),
{
    match status {
        400 => "请求参数被上游拒绝",
        401 => "检测 Key 未通过认证",
        402 => "检测账号额度或余额不足",
        403 => "上游拒绝访问",
        404 => "检测接口或模型不存在",
        408 => "上游等待请求超时",
        409 => "请求与上游当前状态冲突",
        413 => "检测请求超过上游大小限制",
        422 => "检测请求参数校验失败",
        429 => "检测请求被上游限流",
        _ => if 500 <= status && status <= 599 {
            "上游服务异常"
        } else {
            "上游返回错误"
        },
    }
}

/// The start of a long text, with a mark that more follows.
pub open spec fn short_of(t: Seq<char>) -> Seq<char> {
    let f = text::first(t, 180);
    if f.len() == 180 {
        f.push('…')
    } else {
        f
    }
}

/// Fields after one more, where a value says something.
pub open spec fn with_field(fields: Seq<Seq<char>>, key: Seq<char>, v: JsonView) -> Seq<Seq<char>> {
    match v {
        JsonView::Text(s) => if text::trimmed(s).len() == 0 {
            fields
        } else {
            fields.push(key + "="@ + short_of(text::trimmed(s)))
        },
        JsonView::Number(n) => fields.push(key + "="@ + n.text),
        _ => fields,
    }
}

/// Adds what a value says to the fields.
pub fn push_field(fields: &mut Vec<String>, key: &str, value: &Json)
    ensures
        text::views(final(fields)@) == with_field(text::views(old(fields)@), key@, value@),
{
    let ghost before = text::views(fields@);
    match value {
        Json::Text(s) => {
            let t = trim(s.as_str());
            if !is_empty(t.as_str()) {
                let mut short = take(t.as_str(), 180);
                if short.as_str().unicode_len() == 180 {
                    short.push('…');
                }
                let f = key.to_owned().concat("=").concat(short.as_str());
                let ghost fv = f@;
                fields.push(f);
                assert(text::views(fields@) =~= before.push(fv));
            }
        },
        Json::Number(n) => {
            let f = key.to_owned().concat("=").concat(n.text.as_str());
            let ghost fv = f@;
            fields.push(f);
            assert(text::views(fields@) =~= before.push(fv));
        },
        _ => {},
    }
}

/// Fields after the first members that errors are told by. Eight are enough.
pub open spec fn with_members(fields: Seq<Seq<char>>, v: JsonView, n: int) -> Seq<Seq<char>>
    decreases n,
{
    if n <= 0 {
        fields
    } else {
        let f = with_members(fields, v, n - 1);
        match v.member(errors::field_names()[n - 1]) {
            Some(m) => if f.len() >= 8 {
                f
            } else {
                with_field(f, errors::field_names()[n - 1], m)
            },
            None => f,
        }
    }
}

/// Fields after all that a document says of an error, envelopes inside it included.
pub open spec fn collected(v: JsonView, fields: Seq<Seq<char>>) -> Seq<Seq<char>>
    decreases v, 1int,
{
    match v {
        JsonView::Object(o) => {
            let a = with_members(fields, v, 5);
            let b = if a.len() >= 8 {
                a
            } else {
                of_member(o, "error"@, a)
            };
            if b.len() >= 8 {
                b
            } else {
                of_member(o, "detail"@, b)
            }
        },
        _ => fields,
    }
}

/// Fields after the first member with a name.
pub open spec fn of_member(
    o: Seq<(Seq<char>, JsonView)>,
    key: Seq<char>,
    fields: Seq<Seq<char>>,
) -> Seq<Seq<char>>
    decreases o, 0int,
{
    if o.len() == 0 {
        fields
    } else if o[0].0 == key {
        nested(o[0].1, key, fields)
    } else {
        of_member(o.skip(1), key, fields)
    }
}

/// Fields after an envelope, a list of envelopes, or a plain value.
pub open spec fn nested(v: JsonView, key: Seq<char>, fields: Seq<Seq<char>>) -> Seq<Seq<char>>
    decreases v, 2int,
{
    match v {
        JsonView::Object(_) => collected(v, fields),
        JsonView::Array(s) => all_collected(s, fields),
        _ => with_field(fields, key, v),
    }
}

/// Fields after several envelopes.
pub open spec fn all_collected(s: Seq<JsonView>, fields: Seq<Seq<char>>) -> Seq<Seq<char>>
    decreases s, 0int,
{
    if s.len() == 0 {
        fields
    } else {
        collected(s[s.len() - 1], all_collected(s.take(s.len() - 1), fields))
    }
}

fn push_members(v: &Json, fields: &mut Vec<String>)
    ensures
        text::views(final(fields)@) == with_members(text::views(old(fields)@), v@, 5),
{
    let names: Vec<&str> = vec!["code", "type", "message", "msg", "reason"];
    assert(errors::words_of(names@) =~= errors::field_names());
    let mut i: usize = 0;
    while i < 5
        invariant
            i <= 5,
            names@.len() == 5,
            errors::words_of(names@) == errors::field_names(),
            text::views(fields@) == with_members(text::views(old(fields)@), v@, i as int),
        decreases 5 - i,
    {
        assert(errors::words_of(names@)[i as int] == names@[i as int]@);
        assert(text::views(fields@).len() == fields@.len());
        if fields.len() < 8 {
            match v.get(names[i]) {
                Some(m) => push_field(fields, names[i], m),
                None => {},
            }
        }
        i = i + 1;
    }
}

/// Adds all that a document says of an error to the fields.
pub fn collect_error_fields(v: &Json, fields: &mut Vec<String>)
    ensures
        text::views(final(fields)@) == collected(v@, text::views(old(fields)@)),
    decreases v, 1int,
{
    proof {
        json::composite(*v);
    }
    match v {
        Json::Object(o) => {
            assert(decreases_to!(*v => v->Object_0));
            push_members(v, fields);
            assert(text::views(fields@).len() == fields@.len());
            if fields.len() < 8 {
                collect_member(o, "error", fields);
            }
            assert(text::views(fields@).len() == fields@.len());
            if fields.len() < 8 {
                collect_member(o, "detail", fields);
            }
        },
        _ => {},
    }
}

fn collect_member(o: &Vec<(String, Json)>, key: &str, fields: &mut Vec<String>)
    ensures
        text::views(final(fields)@) == of_member(
            json::all_members(o@),
            key@,
            text::views(old(fields)@),
        ),
    decreases o, 0int,
{
    let ghost views = json::all_members(o@);
    let mut i: usize = 0;
    assert(views.skip(0) =~= views);
    while i < o.len()
        invariant
            i <= o@.len(),
            views == json::all_members(o@),
            fields@ == old(fields)@,
            of_member(views, key@, text::views(fields@)) == of_member(
                views.skip(i as int),
                key@,
                text::views(fields@),
            ),
        decreases o@.len() - i,
    {
        assert(views.skip(i as int)[0] == (o@[i as int].0@, o@[i as int].1@));
        if same(o[i].0.as_str(), key) {
            assert(decreases_to!(*o => o@));
            assert(decreases_to!(o@ => o@[i as int]));
            assert(decreases_to!(o@[i as int] => o@[i as int].1));
            collect_nested(&o[i].1, key, fields);
            return;
        }
        assert(views.skip(i as int).skip(1) =~= views.skip(i + 1));
        i = i + 1;
    }
}

fn collect_nested(v: &Json, key: &str, fields: &mut Vec<String>)
    ensures
        text::views(final(fields)@) == nested(v@, key@, text::views(old(fields)@)),
    decreases v, 2int,
{
    proof {
        json::composite(*v);
    }
    match v {
        Json::Object(_) => collect_error_fields(v, fields),
        Json::Array(s) => {
            let ghost views = json::all(s@);
            let mut i: usize = 0;
            assert(views.take(0) =~= Seq::empty());
            while i < s.len()
                invariant
                    i <= s@.len(),
                    *v == Json::Array(*s),
                    views == json::all(s@),
                    text::views(fields@) == all_collected(
                        views.take(i as int),
                        text::views(old(fields)@),
                    ),
                decreases s@.len() - i,
            {
                assert(views.take(i + 1).take(i as int) =~= views.take(i as int));
                assert(decreases_to!(*v => v->Array_0));
                assert(decreases_to!(*s => s@));
                assert(decreases_to!(s@ => s@[i as int]));
                collect_error_fields(&s[i], fields);
                i = i + 1;
            }
            assert(views.take(views.len() as int) =~= views);
        },
        _ => push_field(fields, key, v),
    }
}

/// Texts without those that repeat the one before them.
pub open spec fn deduped(s: Seq<Seq<char>>) -> Seq<Seq<char>>
    decreases s.len(),
{
    if s.len() < 2 {
        s
    } else if s[s.len() - 2] == s.last() {
        deduped(s.drop_last())
    } else {
        deduped(s.drop_last()).push(s.last())
    }
}

fn dedup(s: Vec<String>) -> (r: Vec<String>)
    ensures
        text::views(r@) == deduped(text::views(s@)),
{
    let ghost all = text::views(s@);
    let mut r: Vec<String> = Vec::new();
    let mut i: usize = 0;
    assert(text::views(r@) =~= deduped(all.take(0)));
    while i < s.len()
        invariant
            i <= s@.len(),
            all == text::views(s@),
            text::views(r@) == deduped(all.take(i as int)),
        decreases s@.len() - i,
    {
        let ghost before = text::views(r@);
        assert(all.take(i + 1).drop_last() =~= all.take(i as int));
        assert(all[i as int] == s@[i as int]@);
        assert(i > 0 ==> all[i - 1] == s@[i - 1]@);
        if i == 0 || !same(s[i - 1].as_str(), s[i].as_str()) {
            r.push(s[i].clone());
            assert(text::views(r@) =~= before.push(all[i as int]));
            assert(i == 0 ==> text::views(r@) =~= all.take(1));
        }
        i = i + 1;
    }
    assert(all.take(all.len() as int) =~= all);
    r
}

/// What is said of an error response.
pub open spec fn error_of(
    status: u16,
    reason: Seq<char>,
    body: Option<JsonView>,
    content_type: Seq<char>,
    length: nat,
) -> Seq<char> {
    let head = "HTTP "@ + text::decimal(status as nat) + " "@ + reason + " · "@ + hint_of(status)
        + "："@;
    let fields = match body {
        Some(v) => collected(v, Seq::empty()),
        None => Seq::empty(),
    };
    if fields.len() > 0 {
        head + text::joined(deduped(fields), "，"@)
    } else {
        head + (if body is Some {
            "错误响应未提供可识别字段"@
        } else {
            "错误响应不是JSON"@
        }) + "（"@ + (if content_type.len() == 0 {
            text::decimal(length)
        } else {
            content_type + "，"@ + text::decimal(length)
        }) + " 字节）"@
    }
}

/// What is said of an error response: its status, and the fields by which it explains itself.
pub fn http_error(
    status: u16,
    reason: &str,
    body: Option<&Json>,
    content_type: &str,
    length: usize,
) -> (r: String)
    ensures
        r@ == error_of(status, reason@, sse::view_of(body), content_type@, length as nat),
{
    let head = "HTTP ".to_owned().concat(number(status as u64).as_str()).concat(" ").concat(
        reason,
    ).concat(" · ").concat(status_hint(status)).concat("：");
    let mut fields: Vec<String> = Vec::new();
    assert(text::views(fields@) =~= Seq::empty());
    match body {
        Some(v) => collect_error_fields(v, &mut fields),
        None => {},
    }
    assert(text::views(fields@).len() == fields@.len());
    if fields.len() == 0 {
        let kind = if body.is_some() {
            "错误响应未提供可识别字段"
        } else {
            "错误响应不是JSON"
        };
        let size = number(length as u64);
        let media = if is_empty(content_type) {
            size
        } else {
            content_type.to_owned().concat("，").concat(size.as_str())
        };
        return head.concat(kind).concat("（").concat(media.as_str()).concat(" 字节）");
    }
    let kept = dedup(fields);
    head.concat(join(&kept, "，").as_str())
}

/// What a reply is read for.
#[derive(Clone, Copy, Debug, PartialEq, Eq, Structural)]
pub enum Purpose {
    Quota,
    Monitor,
}

impl Purpose {
    /// What is said where a reply breaks off.
    pub open spec fn broken_text(self) -> Seq<char> {
        match self {
            Purpose::Quota => "读取响应失败"@,
            Purpose::Monitor => "检测响应读取失败"@,
        }
    }

    /// What is said of a reply that is too long.
    pub open spec fn long_text(self) -> Seq<char> {
        match self {
            Purpose::Quota => "额度响应超过256KiB"@,
            Purpose::Monitor => "检测响应超过256KiB"@,
        }
    }

    /// What is said of a reply that is no document.
    pub open spec fn garbled_text(self) -> Seq<char> {
        match self {
            Purpose::Quota => "接口未返回有效JSON"@,
            Purpose::Monitor => "检测响应不是有效JSON"@,
        }
    }
}

/// A reply as it is read: no more than a quarter of a mebibyte.
pub struct Gather {
    pub purpose: Purpose,
    pub data: Vec<u8>,
}

impl Gather {
    /// No more was read than may be.
    pub open spec fn sound(self) -> bool {
        self.data@.len() <= 262144
    }

    /// Nothing read yet.
    pub fn new(purpose: Purpose) -> (r: Self)
        ensures
            r.sound(),
            r.purpose == purpose,
            r.data@ == Seq::<u8>::empty(),
    {
        let r = Gather { purpose, data: Vec::new() };
        assert(r.data@ =~= Seq::<u8>::empty());
        r
    }

    /// Takes the next bytes, or says that they are too many.
    pub fn add(&mut self, chunk: &[u8]) -> (r: Result<(), String>)
        requires
            old(self).sound(),
        ensures
            final(self).sound(),
            final(self).purpose == old(self).purpose,
            old(self).data@.len() + chunk@.len() <= 262144 ==> r is Ok && final(self).data@ == old(
                self,
            ).data@ + chunk@,
            old(self).data@.len() + chunk@.len() > 262144 ==> r is Err && r->Err_0@ == old(
                self,
            ).purpose.long_text() && final(self).data@ == old(self).data@,
    {
        if chunk.len() > 262144 - self.data.len() {
            return Err(
                match self.purpose {
                    Purpose::Quota => "额度响应超过256KiB".to_owned(),
                    Purpose::Monitor => "检测响应超过256KiB".to_owned(),
                },
            );
        }
        self.data.extend_from_slice(chunk);
        assert(self.data@ =~= old(self).data@ + chunk@);
        Ok(())
    }

    /// What is said where the reply breaks off.
    pub fn broken(&self) -> (r: String)
        ensures
            r@ == self.purpose.broken_text(),
    {
        match self.purpose {
            Purpose::Quota => "读取响应失败".to_owned(),
            Purpose::Monitor => "检测响应读取失败".to_owned(),
        }
    }

    /// The document that was read.
    pub fn document(&self) -> (r: Result<Json, String>)
        ensures
            match r {
                Ok(v) => json::parsed(self.data@) == Some(v@),
                Err(e) => json::parsed(self.data@) is None && e@ == self.purpose.garbled_text(),
            },
    {
        match json::parse(self.data.as_slice()) {
            Some(v) => Ok(v),
            None => Err(
                match self.purpose {
                    Purpose::Quota => "接口未返回有效JSON".to_owned(),
                    Purpose::Monitor => "检测响应不是有效JSON".to_owned(),
                },
            ),
        }
    }
}

/// A status is one of success.
pub open spec fn succeeded(status: u16) -> bool {
    200 <= status <= 299
}

/// Whether a status is one of success.
pub fn is_success(status: u16) -> (r: bool)
    ensures
        r == succeeded(status),
{
    200 <= status && status <= 299
}

/// What is said of a status other than success.
pub fn refusal_text(status: u16) -> (r: String)
    ensures
        r@ == "HTTP "@ + text::decimal(status as nat),
{
    "HTTP ".to_owned().concat(number(status as u64).as_str())
}

/// The media type of a content type, without its parameters.
pub open spec fn media_type_of(header: Option<Seq<char>>) -> Seq<char> {
    text::trimmed(
        text::pieces(
            match header {
                Some(h) => h,
                None => ""@,
            },
            ';',
        )[0],
    )
}

/// The media type of a content type, without its parameters.
pub fn media_type(header: Option<&str>) -> (r: String)
    ensures
        r@ == media_type_of(text::str_view(header)),
{
    let h = match header {
        Some(h) => h,
        None => "",
    };
    let parts = split(h, ';');
    proof {
        text::pieces_nonempty(h@, ';');
        assert(text::views(parts@).len() == parts@.len());
    }
    trim(parts[0].as_str())
}

/// What a monitor's reply gives: its document, or what is said of it.
pub open spec fn monitor_result(
    status: u16,
    reason: Seq<char>,
    content_type: Option<Seq<char>>,
    length: nat,
    document: Option<JsonView>,
) -> Result<JsonView, Seq<char>> {
    if !succeeded(status) {
        Err(error_of(status, reason, document, media_type_of(content_type), length))
    } else {
        match document {
            Some(v) => Ok(v),
            None => Err(Purpose::Monitor.garbled_text()),
        }
    }
}

/// The model of a document or what is said in its place.
pub open spec fn document_view(r: Result<Json, String>) -> Result<JsonView, Seq<char>> {
    match r {
        Ok(v) => Ok(v@),
        Err(e) => Err(e@),
    }
}

/// Reads a monitor's reply whose document is given.
pub fn monitor_reply(
    status: u16,
    reason: &str,
    content_type: Option<&str>,
    length: usize,
    document: Option<Json>,
) -> (r: Result<Json, String>)
    ensures
        document_view(r) == monitor_result(
            status,
            reason@,
            text::str_view(content_type),
            length as nat,
            match document {
                Some(v) => Some(v@),
                None => None,
            },
        ),
{
    if !is_success(status) {
        let media = media_type(content_type);
        return Err(
            match &document {
                Some(v) => http_error(status, reason, Some(v), media.as_str(), length),
                None => http_error(status, reason, None, media.as_str(), length),
            },
        );
    }
    match document {
        Some(v) => Ok(v),
        None => Err("检测响应不是有效JSON".to_owned()),
    }
}

/// Reads a monitor's reply.
pub fn monitor_json(status: u16, reason: &str, content_type: Option<&str>, data: &Vec<u8>) -> (r:
    Result<Json, String>)
    ensures
        document_view(r) == monitor_result(
            status,
            reason@,
            text::str_view(content_type),
            data@.len(),
            json::parsed(data@),
        ),
{
    monitor_reply(status, reason, content_type, data.len(), json::parse(data.as_slice()))
}

/// A place where a quota may be asked for.
pub struct Candidate {
    pub kind: Adapter,
    pub url: String,
    /// The credential stands alone in its header.
    pub raw_auth: bool,
}

/// The mathematical model of [`Candidate`].
pub struct CandidateView {
    pub kind: Adapter,
    pub url: Seq<char>,
    pub raw_auth: bool,
}

impl View for Candidate {
    type V = CandidateView;

    open spec fn view(&self) -> CandidateView {
        CandidateView { kind: self.kind, url: self.url@, raw_auth: self.raw_auth }
    }
}

/// The models of several candidates.
pub open spec fn candidate_views(s: Seq<Candidate>) -> Seq<CandidateView> {
    s.map_values(|c: Candidate| c@)
}

/// The places where a quota may be asked for, in order.
pub open spec fn candidates_of(base: Seq<char>, adapter: Adapter) -> Seq<CandidateView> {
    let root = config::root_of(base);
    let sub = CandidateView {
        kind: Adapter::Sub2Api,
        url: root + "/v1/usage"@,
        raw_auth: false,
    };
    let new = CandidateView {
        kind: Adapter::NewApi,
        url: root + "/api/usage/token/"@,
        raw_auth: false,
    };
    match adapter {
        Adapter::Deepseek => seq![
            CandidateView {
                kind: Adapter::Deepseek,
                url: "https://api.deepseek.com/user/balance"@,
                raw_auth: false,
            },
        ],
        Adapter::Glm => seq![
            CandidateView {
                kind: Adapter::Glm,
                url: "https://open.bigmodel.cn/api/monitor/usage/quota/limit"@,
                raw_auth: true,
            },
        ],
        Adapter::Subscription => seq![
            CandidateView {
                kind: Adapter::Subscription,
                url: root + "/v1/subscriptions"@,
                raw_auth: false,
            },
        ],
        Adapter::NewApi => seq![new],
        Adapter::Sub2Api => seq![sub],
        Adapter::Auto => seq![sub, new],
    }
}

fn candidate(kind: Adapter, root: &str, path: &str) -> (r: Candidate)
    ensures
        r@ == (CandidateView { kind, url: root@ + path@, raw_auth: false }),
{
    Candidate { kind, url: root.to_owned().concat(path), raw_auth: false }
}

/// The places where a quota may be asked for, in order.
pub fn candidates(base: &str, adapter: Adapter) -> (r: Vec<Candidate>)
    ensures
        candidate_views(r@) == candidates_of(base@, adapter),
{
    let root = config::root(base);
    let sub = candidate(Adapter::Sub2Api, root.as_str(), "/v1/usage");
    let new = candidate(Adapter::NewApi, root.as_str(), "/api/usage/token/");
    let r = match adapter {
        Adapter::Deepseek => vec![
            Candidate {
                kind: Adapter::Deepseek,
                url: "https://api.deepseek.com/user/balance".to_owned(),
                raw_auth: false,
            },
        ],
        Adapter::Glm => vec![
            Candidate {
                kind: Adapter::Glm,
                url: "https://open.bigmodel.cn/api/monitor/usage/quota/limit".to_owned(),
                raw_auth: true,
            },
        ],
        Adapter::Subscription => vec![
            candidate(Adapter::Subscription, root.as_str(), "/v1/subscriptions"),
        ],
        Adapter::NewApi => vec![new],
        Adapter::Sub2Api => vec![sub],
        Adapter::Auto => vec![sub, new],
    };
    assert(candidate_views(r@) =~= candidates_of(base@, adapter));
    r
}

/// A search for a quota: the candidates that are left, and what went wrong with the others.
pub struct Lookup {
    pub left: Vec<Candidate>,
    pub errors: Vec<String>,
}

/// What a search has come to.
pub enum Progress {
    /// The first of the candidates that are left is to be asked.
    Asking,
    Found(Adapter, Allowance),
    Failed(String),
}

/// The mathematical model of [`Progress`].
pub enum ProgressView {
    Asking,
    Found(Adapter, AllowanceView),
    Failed(Seq<char>),
}

impl View for Progress {
    type V = ProgressView;

    open spec fn view(&self) -> ProgressView {
        match self {
            Progress::Asking => ProgressView::Asking,
            Progress::Found(d, a) => ProgressView::Found(*d, a@),
            Progress::Failed(e) => ProgressView::Failed(e@),
        }
    }
}

/// What a candidate's reply comes to.
pub open spec fn reply_means(
    kind: Adapter,
    reply: Result<JsonView, Seq<char>>,
    now: (i64, u32),
) -> Result<AllowanceView, Seq<char>> {
    match reply {
        Ok(v) => balance::quota(kind, v, now),
        Err(e) => Err(e),
    }
}

impl Lookup {
    /// The search goes on from an earlier one by a reply of the first candidate that was left. The
    /// first quota that can be read ends the search; where none can, all errors are told together.
    pub open spec fn answered(
        self,
        before: Lookup,
        reply: Result<JsonView, Seq<char>>,
        now: (i64, u32),
        r: ProgressView,
    ) -> bool {
        let first = candidate_views(before.left@)[0];
        let left = candidate_views(before.left@).skip(1);
        let errors = text::views(before.errors@);
        &&& candidate_views(self.left@) == left
        &&& match reply_means(first.kind, reply, now) {
            Ok(a) => r == ProgressView::Found(first.kind, a) && text::views(self.errors@) == errors,
            Err(e) => {
                &&& text::views(self.errors@) == errors.push(e)
                &&& r == (if left.len() > 0 {
                    ProgressView::Asking
                } else {
                    ProgressView::Failed(text::joined(errors.push(e), "；"@))
                })
            },
        }
    }

    /// A search through all candidates.
    pub fn new(base: &str, adapter: Adapter) -> (r: Self)
        ensures
            candidate_views(r.left@) == candidates_of(base@, adapter),
            r.errors@ == Seq::<String>::empty(),
    {
        let left = candidates(base, adapter);
        let r = Lookup { left, errors: Vec::new() };
        assert(r.errors@ =~= Seq::<String>::empty());
        r
    }

    /// Takes the reply of the first candidate that is left, as of a time.
    pub fn reply_at(&mut self, reply: Result<Json, String>, now: (i64, u32)) -> (r: Progress)
        requires
            old(self).left@.len() > 0,
        ensures
            final(self).answered(*old(self), document_view(reply), now, r@),
    {
        let ghost all = candidate_views(self.left@);
        let first = self.left.remove(0);
        assert(all[0] == first@);
        assert(candidate_views(self.left@) =~= all.skip(1));
        let result = match reply {
            Ok(v) => match balance::parse_at(first.kind, &v, now) {
                Ok(a) => Ok(a),
                Err(e) => Err(e.to_owned()),
            },
            Err(e) => Err(e),
        };
        match result {
            Ok(a) => Progress::Found(first.kind, a),
            Err(e) => {
                let ghost before = text::views(self.errors@);
                let ghost ev = e@;
                self.errors.push(e);
                assert(text::views(self.errors@) =~= before.push(ev));
                if self.left.len() > 0 {
                    Progress::Asking
                } else {
                    Progress::Failed(join(&self.errors, "；"))
                }
            },
        }
    }

    /// Takes the reply of the first candidate that is left.
    pub fn reply(&mut self, reply: Result<Json, String>) -> (r: Progress)
        requires
            old(self).left@.len() > 0,
        ensures
            exists|now: (i64, u32)|
                {
                    &&& clock::reading(now.0 as int)
                    &&& #[trigger] final(self).answered(
                        *old(self),
                        document_view(reply),
                        now,
                        r@,
                    )
                },
    {
        let now = clock::now_exact();
        self.reply_at(reply, now)
    }
}

/// There is always somewhere to ask, and an interface that was chosen is the only one asked.
pub proof fn chosen_interfaces_are_kept(base: Seq<char>, adapter: Adapter)
    ensures
        candidates_of(base, adapter).len() >= 1,
        adapter != Adapter::Auto ==> candidates_of(base, adapter).len() == 1 && candidates_of(
            base,
            adapter,
        )[0].kind == adapter,
{
}

/// Where quotas are asked for: DeepSeek's and GLM's at their own addresses, GLM's with the credential
/// alone in its header, every other under the root of its upstream.
pub proof fn quotas_have_their_places(base: Seq<char>)
    ensures
        ({
            let c = candidates_of(base, Adapter::Deepseek);
            c.len() == 1 && c[0].kind == Adapter::Deepseek && c[0].url
                == "https://api.deepseek.com/user/balance"@ && !c[0].raw_auth
        }),
        ({
            let c = candidates_of(base, Adapter::Glm);
            c.len() == 1 && c[0].kind == Adapter::Glm && c[0].url
                == "https://open.bigmodel.cn/api/monitor/usage/quota/limit"@ && c[0].raw_auth
        }),
        ({
            let c = candidates_of(base, Adapter::Subscription);
            c.len() == 1 && c[0].kind == Adapter::Subscription && c[0].url == config::root_of(base)
                + "/v1/subscriptions"@ && !c[0].raw_auth
        }),
        ({
            let c = candidates_of(base, Adapter::NewApi);
            c.len() == 1 && c[0].kind == Adapter::NewApi && c[0].url == config::root_of(base)
                + "/api/usage/token/"@ && !c[0].raw_auth
        }),
        ({
            let c = candidates_of(base, Adapter::Sub2Api);
            c.len() == 1 && c[0].kind == Adapter::Sub2Api && c[0].url == config::root_of(base)
                + "/v1/usage"@ && !c[0].raw_auth
        }),
        ({
            let c = candidates_of(base, Adapter::Auto);
            c.len() == 2 && c[0] == candidates_of(base, Adapter::Sub2Api)[0] && c[1]
                == candidates_of(base, Adapter::NewApi)[0]
        }),
{
}

/// A search takes the first quota that can be read, under the interface that gave it, and goes on while
/// none can and someone is left to ask. At its end all that went wrong is told in order.
pub proof fn searches_take_the_first_quota(
    after: Lookup,
    before: Lookup,
    reply: Result<JsonView, Seq<char>>,
    now: (i64, u32),
    r: ProgressView,
)
    requires
        before.left@.len() > 0,
        after.answered(before, reply, now, r),
    ensures
        after.left@.len() == before.left@.len() - 1,
        ({
            let kind = before.left@[0].kind;
            &&& reply is Ok && balance::quota(kind, reply->Ok_0, now) is Ok ==> r
                == ProgressView::Found(kind, balance::quota(kind, reply->Ok_0, now)->Ok_0)
            &&& reply is Err || balance::quota(kind, reply->Ok_0, now) is Err ==> {
                let e = if reply is Err {
                    reply->Err_0
                } else {
                    balance::quota(kind, reply->Ok_0, now)->Err_0
                };
                &&& before.left@.len() > 1 ==> r == ProgressView::Asking
                &&& before.left@.len() == 1 ==> r == ProgressView::Failed(
                    text::joined(text::views(before.errors@).push(e), "；"@),
                )
                &&& text::views(after.errors@) == text::views(before.errors@).push(e)
            }
        }),
{
    assert(candidate_views(before.left@)[0] == before.left@[0]@);
    assert(candidate_views(after.left@).len() == after.left@.len());
}

/// A status from 200 to 299 is one of success, and no other is.
pub proof fn statuses_of_success(status: u16)
    ensures
        succeeded(status) <==> 200 <= status && status < 300,
{
}

/// A monitor's reply gives its document where the status is one of success and the reply is a document;
/// else what is said of it.
pub proof fn monitors_read_documents(
    status: u16,
    reason: Seq<char>,
    content_type: Option<Seq<char>>,
    length: nat,
    document: Option<JsonView>,
)
    ensures
        ({
            let r = monitor_result(status, reason, content_type, length, document);
            &&& r is Ok <==> 200 <= status <= 299 && document is Some
            &&& r is Ok ==> r->Ok_0 == document->0
            &&& 200 <= status <= 299 && document is None ==> r->Err_0 == "检测响应不是有效JSON"@
        }),
{
}

/// What is told of a status.
pub proof fn statuses_are_explained(status: u16)
    ensures
        status == 400 ==> hint_of(status) == "请求参数被上游拒绝"@,
        status == 401 ==> hint_of(status) == "检测 Key 未通过认证"@,
        status == 402 ==> hint_of(status) == "检测账号额度或余额不足"@,
        status == 403 ==> hint_of(status) == "上游拒绝访问"@,
        status == 404 ==> hint_of(status) == "检测接口或模型不存在"@,
        status == 408 ==> hint_of(status) == "上游等待请求超时"@,
        status == 409 ==> hint_of(status) == "请求与上游当前状态冲突"@,
        status == 413 ==> hint_of(status) == "检测请求超过上游大小限制"@,
        status == 422 ==> hint_of(status) == "检测请求参数校验失败"@,
        status == 429 ==> hint_of(status) == "检测请求被上游限流"@,
        500 <= status < 600 ==> hint_of(status) == "上游服务异常"@,
        status < 400 || status >= 600 || status == 405 || status == 418 ==> hint_of(status)
            == "上游返回错误"@,
{
}

/// A field is told by its name and its trimmed text, of which at most 180 characters are shown, or by
/// its number. Nothing else is told.
pub proof fn fields_are_told(fields: Seq<Seq<char>>, key: Seq<char>, v: JsonView)
    ensures
        ({
            let after = with_field(fields, key, v);
            &&& v is Number ==> after == fields.push(key + "="@ + v->Number_0.text)
            &&& v is Text ==> {
                let t = text::trimmed(v->Text_0);
                &&& t.len() == 0 ==> after == fields
                &&& 0 < t.len() < 180 ==> after == fields.push(key + "="@ + t)
                &&& t.len() >= 180 ==> after == fields.push(key + "="@ + t.take(180).push('…'))
            }
            &&& !(v is Number) && !(v is Text) ==> after == fields
        }),
{
    if let JsonView::Text(s) = v {
        let t = text::trimmed(s);
        if t.len() == 180 {
            assert(t.take(180) =~= t);
        }
    }
}

/// Fields that are already told stay, and at most those of an envelope's own five follow, up to eight
/// in all.
pub proof fn told_fields_stay(fields: Seq<Seq<char>>, v: JsonView, n: int)
    requires
        0 <= n <= 5,
    ensures
        fields.len() <= with_members(fields, v, n).len() <= fields.len() + n,
        with_members(fields, v, n).take(fields.len() as int) == fields,
        fields.len() <= 8 ==> with_members(fields, v, n).len() <= 8,
        fields.len() >= 8 ==> with_members(fields, v, n) == fields,
    decreases n,
{
    if n > 0 {
        told_fields_stay(fields, v, n - 1);
        let f = with_members(fields, v, n - 1);
        let g = with_members(fields, v, n);
        assert(g.take(fields.len() as int) =~= f.take(fields.len() as int));
    } else {
        assert(fields.take(fields.len() as int) =~= fields);
    }
}

/// An error object tells its own fields in order, and those under `error` after its own.
pub proof fn envelopes_are_opened(o: Seq<(Seq<char>, JsonView)>)
    requires
        o.len() > 0,
        o[0].0 == "error"@,
        forall|i: int| 0 <= i < o.len() ==> (#[trigger] o[i]).0 != "detail"@,
        forall|i: int, k: int|
            0 <= i < o.len() && 0 <= k < 5 ==> (#[trigger] o[i]).0 != #[trigger] errors::field_names()[k],
    ensures
        o[0].1 is Object ==> collected(JsonView::Object(o), Seq::empty()) == collected(
            o[0].1,
            Seq::empty(),
        ),
        o[0].1 is Text ==> collected(JsonView::Object(o), Seq::empty()) == with_field(
            Seq::empty(),
            "error"@,
            o[0].1,
        ),
{
    let none = Seq::<Seq<char>>::empty();
    no_members(o, 5);
    let v = JsonView::Object(o);
    assert(with_members(none, v, 5) == none);
    let b = of_member(o, "error"@, none);
    assert(b == nested(o[0].1, "error"@, none));
    no_member(o, "detail"@, b);
}

proof fn no_members(o: Seq<(Seq<char>, JsonView)>, n: int)
    requires
        0 <= n <= 5,
        forall|i: int, k: int|
            0 <= i < o.len() && 0 <= k < 5 ==> (#[trigger] o[i]).0 != #[trigger] errors::field_names()[k],
    ensures
        with_members(Seq::empty(), JsonView::Object(o), n) == Seq::<Seq<char>>::empty(),
    decreases n,
{
    if n > 0 {
        no_members(o, n - 1);
        not_looked_up(o, errors::field_names()[n - 1]);
    }
}

proof fn not_looked_up(o: Seq<(Seq<char>, JsonView)>, key: Seq<char>)
    requires
        forall|i: int| 0 <= i < o.len() ==> (#[trigger] o[i]).0 != key,
    ensures
        json::lookup(o, key) is None,
    decreases o.len(),
{
    if o.len() > 0 {
        let rest = o.skip(1);
        assert(forall|i: int| 0 <= i < rest.len() ==> (#[trigger] rest[i]) == o[i + 1]);
        assert(o[0].0 != key);
        not_looked_up(rest, key);
    }
}

proof fn no_member(o: Seq<(Seq<char>, JsonView)>, key: Seq<char>, fields: Seq<Seq<char>>)
    requires
        forall|i: int| 0 <= i < o.len() ==> (#[trigger] o[i]).0 != key,
    ensures
        of_member(o, key, fields) == fields,
    decreases o.len(),
{
    if o.len() > 0 {
        let rest = o.skip(1);
        assert(forall|i: int| 0 <= i < rest.len() ==> (#[trigger] rest[i]) == o[i + 1]);
        assert(o[0].0 != key);
        no_member(rest, key, fields);
    }
}

/// The own fields of an envelope are told in this order: its code, its type, its message, its `msg` and
/// its reason.
pub proof fn fields_are_told_in_order(fields: Seq<Seq<char>>, v: JsonView)
    requires
        fields.len() <= 3,
    ensures
        with_members(fields, v, 5) == with_own(
            with_own(
                with_own(with_own(with_own(fields, "code"@, v), "type"@, v), "message"@, v),
                "msg"@,
                v,
            ),
            "reason"@,
            v,
        ),
{
    reveal_with_fuel(with_members, 6);
}

/// Fields after the member of a document with a name, where it has one.
pub open spec fn with_own(fields: Seq<Seq<char>>, key: Seq<char>, v: JsonView) -> Seq<Seq<char>> {
    match v.member(key) {
        Some(m) => with_field(fields, key, m),
        None => fields,
    }
}

/// What stands under `detail` is told as what stands under `error` is: an object by its fields, a list by
/// those of each of its objects, and a plain value by itself.
pub proof fn details_are_opened(o: Seq<(Seq<char>, JsonView)>)
    requires
        o.len() > 0,
        o[0].0 == "detail"@,
        forall|i: int| 0 <= i < o.len() ==> (#[trigger] o[i]).0 != "error"@,
        forall|i: int, k: int|
            0 <= i < o.len() && 0 <= k < 5 ==> (#[trigger] o[i]).0 != #[trigger] errors::field_names()[k],
    ensures
        o[0].1 is Object ==> collected(JsonView::Object(o), Seq::empty()) == collected(
            o[0].1,
            Seq::empty(),
        ),
        o[0].1 is Array ==> collected(JsonView::Object(o), Seq::empty()) == all_collected(
            o[0].1->Array_0,
            Seq::empty(),
        ),
        o[0].1 is Text ==> collected(JsonView::Object(o), Seq::empty()) == with_field(
            Seq::empty(),
            "detail"@,
            o[0].1,
        ),
{
    let v = JsonView::Object(o);
    let none = Seq::<Seq<char>>::empty();
    no_own_fields(o, 5);
    not_there(o, "error"@, none);
}

proof fn no_own_fields(o: Seq<(Seq<char>, JsonView)>, n: int)
    requires
        0 <= n <= 5,
        forall|i: int, k: int|
            0 <= i < o.len() && 0 <= k < 5 ==> (#[trigger] o[i]).0 != #[trigger] errors::field_names()[k],
    ensures
        with_members(Seq::empty(), JsonView::Object(o), n) == Seq::<Seq<char>>::empty(),
    decreases n,
{
    if n > 0 {
        no_own_fields(o, n - 1);
        let key = errors::field_names()[n - 1];
        unknown_member(o, key);
    }
}

proof fn unknown_member(o: Seq<(Seq<char>, JsonView)>, key: Seq<char>)
    requires
        forall|i: int| 0 <= i < o.len() ==> (#[trigger] o[i]).0 != key,
    ensures
        json::lookup(o, key) is None,
    decreases o.len(),
{
    if o.len() > 0 {
        assert(o[0].0 != key);
        let t = o.skip(1);
        assert forall|i: int| 0 <= i < t.len() implies (#[trigger] t[i]).0 != key by {
            assert(t[i] == o[i + 1]);
        }
        unknown_member(t, key);
    }
}

proof fn not_there(o: Seq<(Seq<char>, JsonView)>, key: Seq<char>, fields: Seq<Seq<char>>)
    requires
        forall|i: int| 0 <= i < o.len() ==> (#[trigger] o[i]).0 != key,
    ensures
        of_member(o, key, fields) == fields,
    decreases o.len(),
{
    if o.len() > 0 {
        assert(o[0].0 != key);
        let t = o.skip(1);
        assert forall|i: int| 0 <= i < t.len() implies (#[trigger] t[i]).0 != key by {
            assert(t[i] == o[i + 1]);
        }
        not_there(t, key, fields);
    }
}

/// The objects of a list are told one after another.
pub proof fn lists_are_told_in_order(s: Seq<JsonView>, x: JsonView, fields: Seq<Seq<char>>)
    ensures
        all_collected(Seq::empty(), fields) == fields,
        all_collected(s.push(x), fields) == collected(x, all_collected(s, fields)),
        !(x is Object) ==> all_collected(s.push(x), fields) == all_collected(s, fields),
{
    let t = s.push(x);
    assert(t.take(t.len() - 1) =~= s);
    assert(t[t.len() - 1] == x);
}

/// What repeats the text before it is left out, and nothing else.
pub proof fn repetitions_are_left_out(s: Seq<Seq<char>>, x: Seq<char>)
    ensures
        deduped(Seq::empty()) == Seq::<Seq<char>>::empty(),
        s.len() > 0 && s.last() == x ==> deduped(s.push(x)) == deduped(s),
        s.len() == 0 || s.last() != x ==> deduped(s.push(x)) == deduped(s).push(x),
{
    let t = s.push(x);
    assert(t.drop_last() =~= s);
    if s.len() > 0 {
        assert(t[t.len() - 2] == s.last());
    } else {
        assert(s =~= Seq::empty());
        assert(t =~= Seq::<Seq<char>>::empty().push(x));
    }
}

/// An error response is told by its status, its reason and what the status means, then by its fields, or
/// where it has none by whether it was a document, its media type and its length.
pub proof fn error_responses_are_told(
    status: u16,
    reason: Seq<char>,
    body: Option<JsonView>,
    content_type: Seq<char>,
    length: nat,
)
    ensures
        ({
            let head = "HTTP "@ + text::decimal(status as nat) + " "@ + reason + " · "@ + hint_of(
                status,
            ) + "："@;
            let rest = text::after(error_of(status, reason, body, content_type, length), head);
            let size = text::decimal(length) + " 字节）"@;
            let plain = "（"@ + if content_type.len() == 0 {
                size
            } else {
                content_type + "，"@ + size
            };
            let fields = collected(body->0, Seq::empty());
            &&& body is None ==> rest == Some("错误响应不是JSON"@ + plain)
            &&& body is Some && fields.len() == 0 ==> rest == Some(
                "错误响应未提供可识别字段"@ + plain,
            )
            &&& body is Some && fields.len() > 0 ==> rest == Some(
                text::joined(deduped(fields), "，"@),
            )
        }),
{
    let head = "HTTP "@ + text::decimal(status as nat) + " "@ + reason + " · "@ + hint_of(status)
        + "："@;
    let size = text::decimal(length) + " 字节）"@;
    let plain = "（"@ + if content_type.len() == 0 {
        size
    } else {
        content_type + "，"@ + size
    };
    let told = error_of(status, reason, body, content_type, length);
    if body is None {
        assert(told =~= head + ("错误响应不是JSON"@ + plain));
        text::prefixes_are_cut(head, "错误响应不是JSON"@ + plain, told);
    } else {
        let fields = collected(body->0, Seq::empty());
        if fields.len() == 0 {
            assert(told =~= head + ("错误响应未提供可识别字段"@ + plain));
            text::prefixes_are_cut(head, "错误响应未提供可识别字段"@ + plain, told);
        } else {
            text::prefixes_are_cut(head, text::joined(deduped(fields), "，"@), told);
        }
    }
}

/// A media type is what stands before the parameters of a content type, without white space round it.
pub proof fn media_types_have_no_parameters(kind: Seq<char>, parameters: Seq<char>)
    requires
        forall|i: int| 0 <= i < kind.len() ==> #[trigger] kind[i] != ';',
    ensures
        media_type_of(Some(kind)) == text::trimmed(kind),
        media_type_of(Some(kind + seq![';'] + parameters)) == text::trimmed(kind),
        media_type_of(None) == text::trimmed(""@),
{
    text::first_pieces(kind, parameters, ';');
    reveal_strlit("");
    text::first_pieces(""@, parameters, ';');
}

/// What is said of a reply that breaks off, is too long, or is no document.
pub proof fn broken_replies_are_told()
    ensures
        Purpose::Quota.broken_text() == "读取响应失败"@,
        Purpose::Monitor.broken_text() == "检测响应读取失败"@,
        Purpose::Quota.long_text() == "额度响应超过256KiB"@,
        Purpose::Monitor.long_text() == "检测响应超过256KiB"@,
        Purpose::Quota.garbled_text() == "接口未返回有效JSON"@,
        Purpose::Monitor.garbled_text() == "检测响应不是有效JSON"@,
{
}

/// An error object without envelopes tells its own fields and nothing more.
pub proof fn own_fields_are_told(o: Seq<(Seq<char>, JsonView)>, fields: Seq<Seq<char>>)
    requires
        forall|i: int| 0 <= i < o.len() ==> (#[trigger] o[i]).0 != "error"@ && o[i].0 != "detail"@,
    ensures
        collected(JsonView::Object(o), fields) == with_members(fields, JsonView::Object(o), 5),
{
    let a = with_members(fields, JsonView::Object(o), 5);
    not_there(o, "error"@, a);
    not_there(o, "detail"@, a);
}

/// Both envelopes of an error object are told, `detail` after `error`, unless eight fields are told
/// already.
pub proof fn both_envelopes_are_told(e: JsonView, d: JsonView)
    requires
        e is Object,
    ensures
        ({
            let v = JsonView::Object(seq![("error"@, e), ("detail"@, d)]);
            let a = collected(e, Seq::empty());
            &&& a.len() >= 8 ==> collected(v, Seq::empty()) == a
            &&& a.len() < 8 && d is Object ==> collected(v, Seq::empty()) == collected(d, a)
            &&& a.len() < 8 && d is Array ==> collected(v, Seq::empty()) == all_collected(
                d->Array_0,
                a,
            )
            &&& a.len() < 8 && !(d is Object) && !(d is Array) ==> collected(v, Seq::empty())
                == with_field(a, "detail"@, d)
        }),
{
    let o = seq![("error"@, e), ("detail"@, d)];
    let v = JsonView::Object(o);
    reveal_strlit("error");
    reveal_strlit("detail");
    reveal_strlit("code");
    reveal_strlit("type");
    reveal_strlit("message");
    reveal_strlit("msg");
    reveal_strlit("reason");
    assert("error"@.len() == 5 && "detail"@.len() == 6 && "code"@.len() == 4 && "type"@.len() == 4
        && "message"@.len() == 7 && "msg"@.len() == 3 && "reason"@.len() == 6);
    assert("detail"@[0] == 'd' && "reason"@[0] == 'r');
    assert forall|i: int, k: int| 0 <= i < o.len() && 0 <= k < 5 implies (#[trigger] o[i]).0
        != #[trigger] errors::field_names()[k] by {
        assert(o[i].0 == "error"@ || o[i].0 == "detail"@);
    }
    no_own_fields(o, 5);
    let a = collected(e, Seq::empty());
    assert(of_member(o, "error"@, Seq::empty()) == nested(e, "error"@, Seq::empty()));
    let t = o.skip(1);
    assert(t[0] == ("detail"@, d));
    assert(of_member(o, "detail"@, a) == of_member(t, "detail"@, a));
    assert(of_member(t, "detail"@, a) == nested(d, "detail"@, a));
}

} // verus!
