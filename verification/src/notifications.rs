//! Delivery of notices to a webhook.
use crate::clock;
use crate::json::{at, int_of, member, object, Json, JsonView};
use crate::state;
use crate::state::{EventView, Notice, NoticeView, State};
use crate::text::same;
use std::collections::VecDeque;
use vstd::prelude::*;
use vstd::string::*;

verus! {

impl NoticeView {
    /// The notice is to be sent at a time.
    pub open spec fn due(self, now: int) -> bool {
        self.attempts < 12 && self.next_at <= now
    }

    /// The notice after it could not be delivered.
    pub open spec fn postponed(self, now: int) -> NoticeView {
        let attempts = if self.attempts == u32::MAX {
            u32::MAX
        } else {
            (self.attempts + 1) as u32
        };
        NoticeView { attempts, next_at: (now + pause(attempts)) as i64, ..self }
    }

    /// The document that is sent for the notice.
    pub open spec fn document(self) -> JsonView {
        match self.card {
            Some(card) => JsonView::Object(
                seq![("msg_type"@, JsonView::Text("interactive"@)), ("card"@, card)],
            ),
            None => JsonView::Object(
                seq![
                    ("msg_type"@, JsonView::Text("text"@)),
                    (
                        "content"@,
                        JsonView::Object(seq![("text"@, JsonView::Text(self.message))]),
                    ),
                ],
            ),
        }
    }
}

/// The seconds to wait after a number of attempts: a minute, then twice as long each time, up to half
/// an hour.
pub open spec fn pause(attempts: u32) -> int {
    if attempts == 0 {
        30
    } else if attempts == 1 {
        60
    } else if attempts == 2 {
        120
    } else if attempts == 3 {
        240
    } else if attempts == 4 {
        480
    } else if attempts == 5 {
        960
    } else {
        1800
    }
}

fn pause_after(attempts: u32) -> (r: i64)
    ensures
        r == pause(attempts),
{
    match attempts {
        0 => 30,
        1 => 60,
        2 => 120,
        3 => 240,
        4 => 480,
        5 => 960,
        _ => 1800,
    }
}

/// The place of the first notice that is to be sent.
pub fn pick(state: &State, now: i64) -> (r: Option<usize>)
    ensures
        match r {
            Some(i) => i < state.queue().len() && state.queue()[i as int].due(now as int)
                && forall|j: int|
                0 <= j < i ==> !(#[trigger] state.queue()[j]).due(now as int),
            None => forall|j: int|
                0 <= j < state.queue().len() ==> !(#[trigger] state.queue()[j]).due(now as int),
        },
{
    let mut i: usize = 0;
    while i < state.notices.len()
        invariant
            i <= state.notices@.len(),
            forall|j: int| 0 <= j < i ==> !(#[trigger] state.queue()[j]).due(now as int),
        decreases state.notices@.len() - i,
    {
        let n = &state.notices[i];
        assert(state.queue()[i as int] == n@);
        if n.attempts < 12 && n.next_at <= now {
            return Some(i);
        }
        i = i + 1;
    }
    None
}

/// The document that is sent for a notice.
pub fn message(n: &Notice) -> (r: Json)
    ensures
        r@ == n@.document(),
{
    match &n.card {
        Some(card) => {
            let r = object(
                vec![member("msg_type", Json::text("interactive")), member("card", card.copy())],
            );
            assert(r@->Object_0 =~= n@.document()->Object_0);
            r
        },
        None => {
            let content = object(vec![member("text", Json::text(n.message.as_str()))]);
            assert(content@->Object_0 =~= seq![("text"@, JsonView::Text(n.message@))]);
            let r = object(
                vec![member("msg_type", Json::text("text")), member("content", content)],
            );
            assert(r@->Object_0 =~= n@.document()->Object_0);
            r
        },
    }
}

/// A reply says that the message was taken.
pub open spec fn taken(v: JsonView) -> bool {
    v.at("code"@).as_int() == Some(0i64) || v.at("StatusCode"@).as_int() == Some(0i64)
}

/// Whether a reply says that the message was taken.
pub fn delivered(v: &Json) -> (r: bool)
    ensures
        r == taken(v@),
{
    match int_of(at(Some(v), "code")) {
        Some(0) => true,
        _ => match int_of(at(Some(v), "StatusCode")) {
            Some(0) => true,
            _ => false,
        },
    }
}

/// The notices without those under an identifier.
pub open spec fn without(s: Seq<NoticeView>, id: Seq<char>) -> Seq<NoticeView>
    decreases s.len(),
{
    if s.len() == 0 {
        s
    } else {
        let rest = without(s.drop_last(), id);
        if s.last().id == id {
            rest
        } else {
            rest.push(s.last())
        }
    }
}

/// The place of the first notice under an identifier, or the number of notices.
pub open spec fn place_of(s: Seq<NoticeView>, id: Seq<char>) -> int
    decreases s.len(),
{
    if s.len() == 0 {
        0
    } else {
        let k = place_of(s.drop_last(), id);
        if k < s.len() - 1 || s.last().id == id {
            k
        } else {
            s.len() as int
        }
    }
}

/// What operators are told of a message that could not be delivered: once at the first attempt, and
/// when no further one follows.
pub open spec fn failure_told(log: Seq<EventView>, n: NoticeView, now: i64) -> Seq<EventView> {
    if n.attempts >= 12 {
        state::with_event(
            log,
            now,
            "notification"@,
            "飞书通知达到12次发送上限，停止自动投递；检查Webhook后重新配置以重试"@,
        )
    } else if n.attempts == 1 {
        state::with_event(
            log,
            now,
            "notification"@,
            "飞书通知发送失败，将在后台重试"@,
        )
    } else {
        log
    }
}

proof fn place_stays(s: Seq<NoticeView>, id: Seq<char>, n: int)
    requires
        0 <= n <= s.len(),
        place_of(s.take(n), id) < n,
    ensures
        place_of(s, id) == place_of(s.take(n), id),
    decreases s.len(),
{
    if n == s.len() {
        assert(s.take(n) =~= s);
    } else {
        assert(s.drop_last().take(n) =~= s.take(n));
        place_stays(s.drop_last(), id, n);
    }
}

fn find(notices: &VecDeque<Notice>, id: &str) -> (r: usize)
    ensures
        r == place_of(state::notice_views(notices@), id@),
        r <= notices@.len(),
{
    let ghost s = state::notice_views(notices@);
    let mut i: usize = 0;
    assert(s.take(0) =~= Seq::empty());
    while i < notices.len()
        invariant
            i <= notices@.len(),
            s == state::notice_views(notices@),
            place_of(s.take(i as int), id@) == i,
        decreases notices@.len() - i,
    {
        assert(s.take(i + 1).drop_last() =~= s.take(i as int));
        assert(s[i as int] == notices@[i as int]@);
        if same(notices[i].id.as_str(), id) {
            proof {
                place_stays(s, id@, i + 1);
            }
            return i;
        }
        i = i + 1;
    }
    assert(s.take(s.len() as int) =~= s);
    i
}

fn drop_id(notices: &mut VecDeque<Notice>, id: &str)
    ensures
        state::notice_views(final(notices)@) == without(
            state::notice_views(old(notices)@),
            id@,
        ),
{
    let ghost all = state::notice_views(notices@);
    let total = notices.len();
    let mut kept: VecDeque<Notice> = VecDeque::new();
    let mut i: usize = 0;
    assert(all.take(0) =~= Seq::empty());
    assert(state::notice_views(kept@) =~= Seq::empty());
    assert(all.skip(0) =~= all);
    while i < total
        invariant
            i <= total,
            total == all.len(),
            state::notice_views(notices@) == all.skip(i as int),
            state::notice_views(kept@) == without(all.take(i as int), id@),
        decreases total - i,
    {
        assert(all.take(i + 1).drop_last() =~= all.take(i as int));
        assert(all.skip(i as int)[0] == all[i as int]);
        assert(state::notice_views(notices@).len() == notices@.len());
        let ghost left = notices@;
        let ghost before = kept@;
        match notices.pop_front() {
            Some(n) => {
                assert(state::notice_views(left)[0] == left[0]@);
                assert(state::notice_views(notices@) =~= state::notice_views(left).skip(1));
                assert(all.skip(i as int).skip(1) =~= all.skip(i + 1));
                if !same(n.id.as_str(), id) {
                    kept.push_back(n);
                    assert(state::notice_views(kept@) =~= state::notice_views(before).push(n@));
                }
            },
            None => {},
        }
        i = i + 1;
    }
    assert(all.take(total as int) =~= all);
    *notices = kept;
}

/// Brings the outcome of a delivery into the state, as of a time. A delivered notice leaves the
/// queue, another waits.
pub fn settle_at(state: &mut State, id: &str, delivered: bool, now: i64)
    requires
        now + 1800 <= i64::MAX,
    ensures
        final(state).only_board_differs(*old(state)),
        delivered ==> final(state).queue() == without(old(state).queue(), id@) && final(state).log() == old(state).log(),
        !delivered && place_of(old(state).queue(), id@) == old(state).queue().len() ==> *final(state) == *old(state),
        !delivered && place_of(old(state).queue(), id@) < old(state).queue().len() ==> {
            let i = place_of(old(state).queue(), id@);
            let n = old(state).queue()[i].postponed(now as int);
            &&& final(state).queue() == old(state).queue().update(i, n)
            &&& final(state).log() == failure_told(old(state).log(), n, now)
        },
{
    if delivered {
        drop_id(&mut state.notices, id);
        return;
    }
    let ghost before = state.queue();
    let i = find(&state.notices, id);
    if i == state.notices.len() {
        return;
    }
    let ghost notices = state.notices@;
    match state.notices.remove(i) {
        Some(mut n) => {
            assert(before[i as int] == n@);
            n.attempts = n.attempts.saturating_add(1);
            n.next_at = now + pause_after(n.attempts);
            let attempts = n.attempts;
            let ghost nv = n@;
            state.notices.insert(i, n);
            assert(state.queue() =~= before.update(i as int, nv));
            if attempts >= 12 {
                state.event_at(
                    now,
                    "notification",
                    "飞书通知达到12次发送上限，停止自动投递；检查Webhook后重新配置以重试".to_owned(),
                );
            } else if attempts == 1 {
                state.event_at(
                    now,
                    "notification",
                    "飞书通知发送失败，将在后台重试".to_owned(),
                );
            }
        },
        None => {},
    }
}

/// Brings the outcome of a delivery into the state.
pub fn settle(state: &mut State, id: &str, delivered: bool)
    ensures
        final(state).only_board_differs(*old(state)),
        delivered ==> final(state).queue() == without(old(state).queue(), id@) && final(state).log() == old(state).log(),
        !delivered && place_of(old(state).queue(), id@) == old(state).queue().len() ==> *final(state) == *old(state),
        !delivered && place_of(old(state).queue(), id@) < old(state).queue().len() ==> {
            let i = place_of(old(state).queue(), id@);
            exists|now: i64|
                {
                    &&& clock::reading(now as int)
                    &&& final(state).queue() == old(state).queue().update(
                        i,
                        old(state).queue()[i].postponed(now as int),
                    )
                    &&& final(state).log() == #[trigger] failure_told(
                        old(state).log(),
                        old(state).queue()[i].postponed(now as int),
                        now,
                    )
                }
        },
{
    let now = clock::now();
    settle_at(state, id, delivered, now);
}

/// A delivered notice is not sent again, and no other is lost by it.
pub proof fn delivered_notices_leave(s: Seq<NoticeView>, id: Seq<char>)
    ensures
        forall|i: int| 0 <= i < without(s, id).len() ==> (#[trigger] without(s, id)[i]).id != id,
        forall|i: int|
            0 <= i < s.len() && (#[trigger] s[i]).id != id ==> without(s, id).contains(s[i]),
    decreases s.len(),
{
    if s.len() > 0 {
        let t = s.drop_last();
        delivered_notices_leave(t, id);
        assert forall|i: int| 0 <= i < s.len() && (#[trigger] s[i]).id != id implies without(
            s,
            id,
        ).contains(s[i]) by {
            if i < t.len() {
                assert(t[i].id != id);
                assert(without(t, id).contains(t[i]));
                let j = choose|j: int| 0 <= j < without(t, id).len() && without(t, id)[j] == t[i];
                assert(without(s, id)[j] == s[i]);
            } else {
                assert(without(s, id)[without(s, id).len() - 1] == s[i]);
            }
        }
    }
}

/// A notice is tried twelve times at most: after that it is due at no time.
pub proof fn attempts_are_limited(n: NoticeView, now: int, later: int)
    requires
        n.attempts >= 11,
    ensures
        !n.postponed(now).due(later),
{
}

/// A postponed notice waits at least a minute and at most half an hour.
pub proof fn postponed_notices_wait(n: NoticeView, now: int)
    requires
        0 <= now,
        now + 1800 <= i64::MAX,
    ensures
        now + 60 <= n.postponed(now).next_at <= now + 1800,
        !n.postponed(now).due(now + 59),
{
}

/// A notice is sent while fewer than twelve attempts failed, from its time on.
pub proof fn notices_fall_due(n: NoticeView, now: int)
    ensures
        n.attempts >= 12 ==> !n.due(now),
        n.attempts < 12 ==> (n.due(now) <==> now >= n.next_at),
{
}

/// After each failed attempt the pause is twice as long, from a minute up to half an hour, and nothing
/// but the pause and the number of attempts changes.
pub proof fn pauses_double(n: NoticeView, now: int)
    requires
        0 <= now,
        now + 1800 <= i64::MAX,
        n.attempts < u32::MAX,
    ensures
        n.postponed(now).attempts == n.attempts + 1,
        n.attempts == 0 ==> n.postponed(now).next_at == now + 60,
        n.attempts == 1 ==> n.postponed(now).next_at == now + 120,
        n.attempts == 2 ==> n.postponed(now).next_at == now + 240,
        n.attempts == 3 ==> n.postponed(now).next_at == now + 480,
        n.attempts == 4 ==> n.postponed(now).next_at == now + 960,
        n.attempts >= 5 ==> n.postponed(now).next_at == now + 1800,
        n.postponed(now).id == n.id,
        n.postponed(now).message == n.message,
        n.postponed(now).card == n.card,
{
}

/// A notice with a card is sent as the card, another as its text.
pub proof fn notices_are_sent_as_they_are(n: NoticeView)
    ensures
        n.card is Some ==> n.document().at("msg_type"@) == JsonView::Text("interactive"@)
            && n.document().at("card"@) == n.card->0,
        n.card is None ==> n.document().at("msg_type"@) == JsonView::Text("text"@) && n.document().at(
            "content"@,
        ).at("text"@) == JsonView::Text(n.message),
{
    reveal_strlit("msg_type");
    reveal_strlit("card");
    reveal_strlit("content");
    reveal_with_fuel(crate::json::lookup, 3);
    let o = n.document()->Object_0;
    assert(o.skip(1)[0] == o[1]);
    assert("msg_type"@.len() == 8 && "card"@.len() == 4 && "content"@.len() == 7);
}

/// A message was taken where the reply says zero under `code` or under `StatusCode`.
pub proof fn replies_confirm(v: JsonView)
    ensures
        v.at("code"@).as_int() == Some(0i64) ==> taken(v),
        v.at("StatusCode"@).as_int() == Some(0i64) ==> taken(v),
        v.at("code"@).as_int() != Some(0i64) && v.at("StatusCode"@).as_int() != Some(0i64) ==> !taken(
            v,
        ),
{
}

/// The notice that is postponed is the first under its identifier.
pub proof fn first_notices_are_found(s: Seq<NoticeView>, id: Seq<char>)
    ensures
        0 <= place_of(s, id) <= s.len(),
        place_of(s, id) < s.len() ==> s[place_of(s, id)].id == id,
        forall|i: int| 0 <= i < place_of(s, id) ==> (#[trigger] s[i]).id != id,
    decreases s.len(),
{
    if s.len() > 0 {
        let rest = s.drop_last();
        first_notices_are_found(rest, id);
        assert(forall|i: int| 0 <= i < rest.len() ==> rest[i] == #[trigger] s[i]);
    }
}

/// Operators are told of a message that could not be delivered after the first attempt and after the
/// last, and not in between.
pub proof fn first_and_last_failures_are_told(log: Seq<EventView>, n: NoticeView, now: i64)
    ensures
        n.attempts == 1 ==> failure_told(log, n, now) == state::with_event(
            log,
            now,
            "notification"@,
            "飞书通知发送失败，将在后台重试"@,
        ),
        n.attempts == 0 || 2 <= n.attempts < 12 ==> failure_told(log, n, now) == log,
        n.attempts >= 12 ==> failure_told(log, n, now) == state::with_event(
            log,
            now,
            "notification"@,
            "飞书通知达到12次发送上限，停止自动投递；检查Webhook后重新配置以重试"@,
        ),
{
}

/// Delivered notices leave the queue, and the others keep their order.
pub proof fn queues_keep_their_order(s: Seq<NoticeView>, n: NoticeView, id: Seq<char>)
    ensures
        n.id == id ==> without(s.push(n), id) == without(s, id),
        n.id != id ==> without(s.push(n), id) == without(s, id).push(n),
        without(Seq::empty(), id) == Seq::<NoticeView>::empty(),
{
    assert(s.push(n).drop_last() =~= s);
}

} // verus!
