//! What the router tells its operators: events for the log, notices for the webhook.
use crate::config::{Channel, Config, Key};
use crate::state;
use crate::state::{EventView, NoticeView, State};
use crate::text;
use crate::text::is_empty;
use vstd::prelude::*;
use vstd::string::*;

verus! {

/// The log of events and the queue of notices.
pub struct Board {
    pub log: Seq<EventView>,
    pub queue: Seq<NoticeView>,
}

impl Board {
    /// After one more event.
    pub open spec fn event(self, now: i64, kind: Seq<char>, message: Seq<char>) -> Board {
        Board { log: state::with_event(self.log, now, kind, message), ..self }
    }

    /// After one more notice.
    pub open spec fn notice(self, now: i64, id: u64, message: Seq<char>) -> Board {
        Board {
            log: if self.queue.len() >= 200 {
                state::with_event(self.log, now, "notification"@, state::queue_full())
            } else {
                self.log
            },
            queue: state::with_notice(self.queue, text::hex(id as nat, 16), message),
        }
    }

    /// After an event, where there is one.
    pub open spec fn event_if(
        self,
        wanted: bool,
        now: i64,
        kind: Seq<char>,
        message: Seq<char>,
    ) -> Board {
        if wanted {
            self.event(now, kind, message)
        } else {
            self
        }
    }

    /// After a notice, where there is one.
    pub open spec fn notice_if(self, wanted: bool, now: i64, id: u64, message: Seq<char>) -> Board {
        if wanted {
            self.notice(now, id, message)
        } else {
            self
        }
    }
}

impl Config {
    /// Notices have somewhere to go.
    pub open spec fn notifies(self) -> bool {
        self.webhook@.len() > 0
    }

    /// Whether notices have somewhere to go.
    pub fn has_webhook(&self) -> (r: bool)
        ensures
            r == self.notifies(),
    {
        !is_empty(self.webhook.as_str())
    }
}

impl State {
    /// The log of events and the queue of notices.
    pub open spec fn board(self) -> Board {
        Board { log: self.log(), queue: self.queue() }
    }

    /// Only the log and the queue differ.
    pub open spec fn only_board_differs(self, before: State) -> bool {
        self == (State { events: self.events, notices: self.notices, ..before })
    }

    /// Notes an event, where there is one.
    pub fn event_if(&mut self, wanted: bool, now: i64, kind: &str, message: String)
        ensures
            final(self).board() == old(self).board().event_if(wanted, now, kind@, message@),
            *final(self) == (State { events: final(self).events, ..*old(self) }),
    {
        if wanted {
            self.event_at(now, kind, message);
        }
    }

    /// Queues a notice, where there is one.
    pub fn notice_if(&mut self, wanted: bool, now: i64, id: u64, message: String)
        ensures
            final(self).board() == old(self).board().notice_if(wanted, now, id, message@),
            final(self).only_board_differs(*old(self)),
    {
        if wanted {
            self.notify_at(now, id, message);
        }
    }
}

/// What is said of a key: its channel, its label, and what happened.
pub open spec fn line_of(c: Channel, k: Key, what: Seq<char>) -> Seq<char> {
    c.name@ + " / "@ + k.label@ + "："@ + what
}

/// What is said of a key: its channel, its label, and what happened.
pub fn line(c: &Channel, k: &Key, what: &str) -> (r: String)
    ensures
        r@ == line_of(*c, *k, what@),
{
    let a = c.name.clone().concat(" / ");
    let b = a.concat(k.label.as_str());
    let d = b.concat("：");
    d.concat(what)
}

/// Notices have somewhere to go as soon as a webhook is set.
pub proof fn webhooks_are_notified(c: Config)
    ensures
        c.notifies() <==> c.webhook@ != ""@,
{
    reveal_strlit("");
    if c.webhook@.len() == 0 {
        assert(c.webhook@ =~= ""@);
    }
}

/// A notice that finds the queue full is queued all the same, and the log says that one was lost. No
/// other notice touches the log, and an event leaves the queue alone.
pub proof fn full_queues_are_logged(b: Board, now: i64, id: u64, message: Seq<char>)
    ensures
        b.queue.len() < 200 ==> b.notice(now, id, message).log == b.log,
        b.queue.len() >= 200 ==> b.notice(now, id, message).log == state::with_event(
            b.log,
            now,
            "notification"@,
            state::queue_full(),
        ),
        b.notice(now, id, message).queue == state::with_notice(
            b.queue,
            text::hex(id as nat, 16),
            message,
        ),
        b.event(now, "config"@, message).queue == b.queue,
{
}

/// What is said of a key comes after the name of its channel and its label.
pub proof fn lines_name_the_key(c: Channel, k: Key, what: Seq<char>)
    ensures
        text::after(line_of(c, k, what), c.name@ + " / "@ + k.label@ + "："@) == Some(what),
{
    text::prefixes_are_cut(c.name@ + " / "@ + k.label@ + "："@, what, line_of(c, k, what));
}

} // verus!
