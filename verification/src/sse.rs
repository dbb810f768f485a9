//! Bounded passive observer of event streams. Never rewrites or repairs forwarded bytes.
//! The scanner for the top-level `type` skips large JSON values without retaining them.
use crate::ascii;
use crate::errors;
use crate::json;
use crate::json::{at, str_of, Json, JsonView};
use crate::text;
use crate::text::{from_utf8_lossy, is_empty, same, take, trim};
use crate::usage;
use crate::usage::{Scanner, ScannerView, Tokens};
use vstd::prelude::*;
use vstd::string::*;
use vstd::utf8::{
    encode_utf8, encode_utf8_decode_utf8, encode_utf8_valid_utf8, is_ascii_chars,
    is_ascii_chars_encode_utf8,
};

verus! {

/// Finds the text of the member `type` of a document's outermost object.
pub struct TypeScanner {
    pub depth: usize,
    pub string: bool,
    pub escape: bool,
    pub token: Vec<u8>,
    pub want_key: bool,
    pub key: String,
    pub value: Option<String>,
}

/// The mathematical model of [`TypeScanner`].
pub struct TypeScannerView {
    pub depth: usize,
    pub string: bool,
    pub escape: bool,
    pub token: Seq<u8>,
    pub want_key: bool,
    pub key: Seq<char>,
    pub value: Option<Seq<char>>,
}

impl View for TypeScanner {
    type V = TypeScannerView;

    open spec fn view(&self) -> TypeScannerView {
        TypeScannerView {
            depth: self.depth,
            string: self.string,
            escape: self.escape,
            token: self.token@,
            want_key: self.want_key,
            key: self.key@,
            value: text::opt_view(self.value),
        }
    }
}

/// One more, or as many as before at the machine's limit.
pub open spec fn up(n: usize) -> usize {
    if n < usize::MAX {
        (n + 1) as usize
    } else {
        n
    }
}

impl TypeScannerView {
    /// A scanner before the first byte.
    pub open spec fn fresh() -> TypeScannerView {
        TypeScannerView {
            depth: 0,
            string: false,
            escape: false,
            token: Seq::empty(),
            want_key: false,
            key: Seq::empty(),
            value: None,
        }
    }

    /// A string ends: in the outermost object it is a member's name or its value.
    pub open spec fn string_ended(self) -> TypeScannerView {
        let s = TypeScannerView { string: false, token: Seq::empty(), ..self };
        if self.depth == 1 && self.want_key {
            TypeScannerView { key: text::lossy(self.token), want_key: false, ..s }
        } else if self.depth == 1 && self.key == "type"@ {
            TypeScannerView { value: Some(text::lossy(self.token)), ..s }
        } else {
            s
        }
    }

    /// A byte inside a string.
    pub open spec fn in_string(self, b: u8) -> TypeScannerView {
        let kept = TypeScannerView { token: usage::kept_token(self.token, b), ..self };
        if self.escape {
            TypeScannerView { escape: false, ..kept }
        } else if b == ascii::BACKSLASH {
            TypeScannerView { escape: true, ..kept }
        } else if b == ascii::QUOTE {
            self.string_ended()
        } else if self.depth == 1 {
            kept
        } else {
            self
        }
    }

    /// A byte outside of strings.
    pub open spec fn between(self, b: u8) -> TypeScannerView {
        if b == ascii::QUOTE {
            TypeScannerView { string: true, token: Seq::empty(), ..self }
        } else if b == ascii::OPEN_OBJECT || b == ascii::OPEN_ARRAY {
            let depth = up(self.depth);
            TypeScannerView {
                depth,
                want_key: self.want_key || depth == 1 && b == ascii::OPEN_OBJECT,
                ..self
            }
        } else if b == ascii::CLOSE_OBJECT || b == ascii::CLOSE_ARRAY {
            TypeScannerView {
                depth: if self.depth == 0 {
                    0
                } else {
                    (self.depth - 1) as usize
                },
                ..self
            }
        } else if b == ascii::COMMA && self.depth == 1 {
            TypeScannerView { want_key: true, ..self }
        } else {
            self
        }
    }

    /// The scanner after one more byte.
    pub open spec fn step(self, b: u8) -> TypeScannerView {
        if self.string {
            self.in_string(b)
        } else {
            self.between(b)
        }
    }

    /// The scanner after several more bytes.
    pub open spec fn scan(self, bytes: Seq<u8>) -> TypeScannerView
        decreases bytes.len(),
    {
        if bytes.len() == 0 {
            self
        } else {
            self.scan(bytes.drop_last()).step(bytes.last())
        }
    }
}

impl Default for TypeScanner {
    fn default() -> (r: Self)
        ensures
            r@ == TypeScannerView::fresh(),
    {
        let r = TypeScanner {
            depth: 0,
            string: false,
            escape: false,
            token: Vec::new(),
            want_key: false,
            key: String::new(),
            value: None,
        };
        assert(r@.token =~= Seq::empty());
        assert(r@.key =~= Seq::empty());
        r
    }
}

impl TypeScanner {
    fn keep(&mut self, b: u8)
        ensures
            final(self)@ == (TypeScannerView {
                token: usage::kept_token(old(self)@.token, b),
                ..old(self)@
            }),
    {
        if self.token.len() < 128 {
            self.token.push(b);
        }
    }

    /// Takes the next byte of the document.
    pub fn byte(&mut self, b: u8)
        ensures
            final(self)@ == old(self)@.step(b),
    {
        if self.string {
            if self.escape {
                self.escape = false;
                self.keep(b);
            } else if b == ascii::BACKSLASH {
                self.escape = true;
                self.keep(b);
            } else if b == ascii::QUOTE {
                self.string = false;
                if self.depth == 1 {
                    if self.want_key {
                        self.key = from_utf8_lossy(self.token.as_slice());
                        self.want_key = false;
                    } else if same(&self.key, "type") {
                        self.value = Some(from_utf8_lossy(self.token.as_slice()));
                    }
                }
                self.token.clear();
                assert(self@.token =~= Seq::empty());
            } else if self.depth == 1 {
                self.keep(b);
            }
            return;
        }
        if b == ascii::QUOTE {
            self.string = true;
            self.token.clear();
            assert(self@.token =~= Seq::empty());
        } else if b == ascii::OPEN_OBJECT || b == ascii::OPEN_ARRAY {
            self.depth = self.depth.saturating_add(1);
            if self.depth == 1 && b == ascii::OPEN_OBJECT {
                self.want_key = true;
            }
        } else if b == ascii::CLOSE_OBJECT || b == ascii::CLOSE_ARRAY {
            self.depth = self.depth.saturating_sub(1);
        } else if b == ascii::COMMA && self.depth == 1 {
            self.want_key = true;
        }
    }
}

/// What the observer knows of a stream.
pub struct Observer {
    pub line: Vec<u8>,
    pub data: Vec<u8>,
    pub event: String,
    pub overflow: bool,
    pub line_size: usize,
    pub data_line: bool,
    pub previous_cr: bool,
    pub scanner: TypeScanner,
    pub usage_scanner: Scanner,
    pub usage: Option<Tokens>,
    pub terminal: bool,
    pub failed: bool,
    pub failure_status: Option<u16>,
    pub meaningful: bool,
    pub output_text: bool,
    /// Set on the first error frame, based on preceding frames, not on chunks.
    pub retryable_failure: bool,
}

/// What was seen of a stream.
#[derive(Clone, Copy, Debug, PartialEq, Eq, Structural)]
pub struct Verdict {
    pub terminal: bool,
    pub failed: bool,
    pub meaningful: bool,
    pub output_text: bool,
    pub retryable_failure: bool,
}

/// The mathematical model of [`Observer`].
pub struct ObserverView {
    pub line: Seq<u8>,
    pub data: Seq<u8>,
    pub event: Seq<char>,
    pub overflow: bool,
    pub line_size: usize,
    pub data_line: bool,
    pub previous_cr: bool,
    pub scanner: TypeScannerView,
    pub usage_scanner: ScannerView,
    pub usage: Option<Tokens>,
    pub failure_status: Option<u16>,
    pub verdict: Verdict,
}

impl View for Observer {
    type V = ObserverView;

    open spec fn view(&self) -> ObserverView {
        ObserverView {
            line: self.line@,
            data: self.data@,
            event: self.event@,
            overflow: self.overflow,
            line_size: self.line_size,
            data_line: self.data_line,
            previous_cr: self.previous_cr,
            scanner: self.scanner@,
            usage_scanner: self.usage_scanner@,
            usage: self.usage,
            failure_status: self.failure_status,
            verdict: self.verdict(),
        }
    }
}

/// A byte of white space.
pub open spec fn blank(b: u8) -> bool {
    b == 0x20 || b == 0x09 || b == 0x0a || b == 0x0c || b == 0x0d
}

/// The bytes `[DONE]`.
pub open spec fn done_mark() -> Seq<u8> {
    seq![0x5b, 0x44, 0x4f, 0x4e, 0x45, 0x5d]
}

/// The bytes `data:`.
pub open spec fn data_mark() -> Seq<u8> {
    seq![0x64, 0x61, 0x74, 0x61, 0x3a]
}

/// The bytes `event:`.
pub open spec fn event_mark() -> Seq<u8> {
    seq![0x65, 0x76, 0x65, 0x6e, 0x74, 0x3a]
}

/// A mark stands at a place among bytes, with nothing but white space round it.
pub open spec fn alone_at(data: Seq<u8>, mark: Seq<u8>, k: int) -> bool {
    &&& 0 <= k
    &&& k + mark.len() <= data.len()
    &&& data.subrange(k, k + mark.len()) == mark
    &&& forall|i: int| 0 <= i < k ==> blank(#[trigger] data[i])
    &&& forall|i: int| k + mark.len() <= i < data.len() ==> blank(#[trigger] data[i])
}

/// The bytes are `[DONE]`, apart from white space round it.
pub open spec fn says_done(data: Seq<u8>) -> bool {
    exists|k: int| #[trigger] alone_at(data, done_mark(), k)
}

impl Verdict {
    /// What was seen, after one more kind of event.
    #[verifier::opaque]
    pub open spec fn with_kind(self, kind: Seq<char>) -> Verdict {
        if kind == "response.completed"@ || kind == "response.incomplete"@ || kind
            == "response.done"@ || kind == "done"@ {
            Verdict { terminal: true, meaningful: true, ..self }
        } else if kind == "response.failed"@ || kind == "error"@ {
            Verdict {
                retryable_failure: if self.failed {
                    self.retryable_failure
                } else {
                    !self.meaningful
                },
                failed: true,
                terminal: true,
                ..self
            }
        } else if kind == "response.created"@ || kind == "response.in_progress"@ || kind == ""@ {
            self
        } else {
            Verdict {
                meaningful: true,
                output_text: self.output_text || kind == "response.output_text.delta"@,
                ..self
            }
        }
    }

    /// What was seen, after the data of a frame.
    pub open spec fn with_data(self, data: Seq<u8>) -> Verdict {
        Verdict {
            terminal: self.terminal || says_done(data),
            meaningful: self.meaningful || says_done(data),
            ..self
        }
    }
}

/// The text, or nothing where there is none.
pub open spec fn text_or_empty(t: Option<Seq<char>>) -> Seq<char> {
    match t {
        Some(t) => t,
        None => ""@,
    }
}

impl ObserverView {
    /// An observer before the first byte.
    pub open spec fn fresh() -> ObserverView {
        ObserverView {
            line: Seq::empty(),
            data: Seq::empty(),
            event: Seq::empty(),
            overflow: false,
            line_size: 0,
            data_line: false,
            previous_cr: false,
            scanner: TypeScannerView::fresh(),
            usage_scanner: ScannerView::fresh(),
            usage: None,
            failure_status: None,
            verdict: Verdict {
                terminal: false,
                failed: false,
                meaningful: false,
                output_text: false,
                retryable_failure: false,
            },
        }
    }

    /// What was seen, after a frame whose document is given.
    pub open spec fn judged(self, doc: Option<JsonView>) -> Verdict {
        let v = self.verdict.with_data(self.data).with_kind(self.event).with_kind(
            text_or_empty(self.scanner.value),
        );
        match doc {
            Some(d) => v.with_kind(kind_of(d)),
            None => v,
        }
    }

    /// The observer after a frame whose document is given.
    pub open spec fn framed_with(self, doc: Option<JsonView>) -> ObserverView {
        let verdict = self.judged(doc);
        ObserverView {
            event: Seq::empty(),
            data: Seq::empty(),
            overflow: false,
            scanner: TypeScannerView::fresh(),
            usage_scanner: ScannerView::fresh(),
            usage: match self.usage_scanner.found {
                Some(t) => Some(t),
                None => self.usage,
            },
            verdict,
            failure_status: if doc is Some && verdict.failed {
                Some(errors::class_of(503, doc))
            } else {
                self.failure_status
            },
            ..self
        }
    }

    /// The document of a frame: data that was too long to keep counts as none.
    pub open spec fn document(self) -> Option<JsonView> {
        if self.overflow {
            None
        } else {
            json::parsed(self.data)
        }
    }

    /// The observer after a frame.
    pub open spec fn framed(self) -> ObserverView {
        self.framed_with(self.document())
    }

    /// The observer after the name of an event was read from a line.
    pub open spec fn with_event_line(self) -> ObserverView {
        if event_mark().len() <= self.line.len() && self.line.take(6) == event_mark() {
            ObserverView { event: text::first(text::trimmed(text::lossy(self.line.skip(6))), 128), ..self }
        } else {
            self
        }
    }

    /// The observer after a line of data was added to the frame.
    pub open spec fn with_data_line(self) -> ObserverView {
        if self.data_line {
            let s = ObserverView {
                scanner: self.scanner.step(ascii::LINE_FEED),
                usage_scanner: self.usage_scanner.step(ascii::LINE_FEED),
                ..self
            };
            if self.line_size <= 65536 && self.data.len() + self.line.len() < 65536 {
                ObserverView {
                    data: (self.data + self.line.skip(5)).push(ascii::LINE_FEED),
                    ..s
                }
            } else {
                ObserverView { overflow: true, ..s }
            }
        } else {
            self
        }
    }

    /// The observer after a line. An empty one ends the frame.
    pub open spec fn line_ended(self) -> ObserverView {
        let s = if self.line_size == 0 {
            self.framed()
        } else {
            self.with_event_line().with_data_line()
        };
        ObserverView { line: Seq::empty(), line_size: 0, data_line: false, ..s }
    }

    /// The observer after a byte that belongs to a line.
    pub open spec fn with_byte(self, b: u8) -> ObserverView {
        let size = up(self.line_size);
        let line = if self.line.len() < 65536 {
            self.line.push(b)
        } else {
            self.line
        };
        let data_line = if size == 5 {
            line == data_mark()
        } else {
            self.data_line
        };
        let s = ObserverView { line_size: size, line, data_line, ..self };
        if data_line && size > 5 {
            ObserverView {
                scanner: self.scanner.step(b),
                usage_scanner: self.usage_scanner.step(b),
                ..s
            }
        } else {
            s
        }
    }

    /// The observer after one more byte. A line ends with CR, LF or both.
    pub open spec fn step(self, b: u8) -> ObserverView {
        let s = ObserverView { previous_cr: b == ascii::CARRIAGE_RETURN, ..self };
        if b == ascii::LINE_FEED && self.previous_cr {
            s
        } else if b == ascii::CARRIAGE_RETURN || b == ascii::LINE_FEED {
            s.line_ended()
        } else {
            s.with_byte(b)
        }
    }

    /// The observer after several more bytes.
    pub open spec fn fed(self, bytes: Seq<u8>) -> ObserverView
        decreases bytes.len(),
    {
        if bytes.len() == 0 {
            self
        } else {
            self.fed(bytes.drop_last()).step(bytes.last())
        }
    }

    /// The observer at the end of the stream.
    pub open spec fn finished(self) -> ObserverView {
        let s = if self.line_size > 0 {
            self.line_ended()
        } else {
            self
        };
        if s.data.len() > 0 || s.event.len() > 0 || s.overflow {
            s.framed()
        } else {
            s
        }
    }

    /// Everything that the observer holds is bounded, a failed stream is at its end, and the scanners
    /// know nothing but what the open frame holds.
    pub open spec fn sound(self) -> bool {
        &&& self.line.len() <= 65536
        &&& self.line.len() == self.line_size || self.line.len() == 65536 <= self.line_size
        &&& self.data.len() <= 65536
        &&& self.event.len() <= 128
        &&& self.scanner.token.len() <= 128
        &&& self.usage_scanner.sound()
        &&& self.data_line ==> self.line_size >= 5
        &&& self.verdict.failed ==> self.verdict.terminal
        &&& self.verdict.retryable_failure ==> self.verdict.failed
        &&& self.previous_cr ==> self.line_size == 0
        &&& self.data.len() == 0 && !self.overflow && !(self.data_line && self.line_size > 5)
            ==> self.scanner == TypeScannerView::fresh() && self.usage_scanner
            == ScannerView::fresh()
    }

    /// The observer is between two frames.
    pub open spec fn idle(self) -> bool {
        self.line_size == 0 && self.data.len() == 0 && self.event.len() == 0 && !self.overflow
    }
}

impl Default for Observer {
    fn default() -> (r: Self)
        ensures
            r@ == ObserverView::fresh(),
            r@.sound(),
    {
        let r = Observer {
            line: Vec::new(),
            data: Vec::new(),
            event: String::new(),
            overflow: false,
            line_size: 0,
            data_line: false,
            previous_cr: false,
            scanner: TypeScanner::default(),
            usage_scanner: Scanner::default(),
            usage: None,
            terminal: false,
            failed: false,
            failure_status: None,
            meaningful: false,
            output_text: false,
            retryable_failure: false,
        };
        assert(r@.line =~= Seq::empty());
        assert(r@.data =~= Seq::empty());
        assert(r@.event =~= Seq::empty());
        r
    }
}

fn is_blank(b: u8) -> (r: bool)
    ensures
        r == blank(b),
{
    b == 0x20 || b == 0x09 || b == 0x0a || b == 0x0c || b == 0x0d
}

/// Whether bytes start with others.
fn begins_with(bytes: &Vec<u8>, from: usize, mark: &Vec<u8>) -> (r: bool)
    requires
        from <= bytes@.len(),
    ensures
        r == (from + mark@.len() <= bytes@.len() && bytes@.subrange(
            from as int,
            from + mark@.len(),
        ) == mark@),
{
    let size = bytes.len();
    if size - from < mark.len() {
        return false;
    }
    let mut i: usize = 0;
    while i < mark.len()
        invariant
            i <= mark@.len(),
            size == bytes@.len(),
            from + mark@.len() <= size,
            forall|j: int| 0 <= j < i ==> bytes@[from + j] == #[trigger] mark@[j],
        decreases mark@.len() - i,
    {
        if bytes[from + i] != mark[i] {
            assert(bytes@.subrange(from as int, from + mark@.len())[i as int] != mark@[i as int]);
            return false;
        }
        i = i + 1;
    }
    assert(bytes@.subrange(from as int, from + mark@.len()) =~= mark@);
    true
}

fn is_done(data: &Vec<u8>) -> (r: bool)
    ensures
        r == says_done(data@),
{
    let mark: Vec<u8> = vec![0x5b, 0x44, 0x4f, 0x4e, 0x45, 0x5d];
    assert(mark@ =~= done_mark());
    let mut k: usize = 0;
    while k < data.len() && is_blank(data[k])
        invariant
            k <= data@.len(),
            forall|i: int| 0 <= i < k ==> blank(#[trigger] data@[i]),
        decreases data@.len() - k,
    {
        k = k + 1;
    }
    assert forall|j: int| #[trigger] alone_at(data@, done_mark(), j) implies j == k by {
        assert(data@.subrange(j, j + 6)[0] == done_mark()[0]);
        if j < k {
            assert(blank(data@[j]));
        } else if k < j {
            assert(blank(data@[k as int]));
        }
    }
    if !begins_with(data, k, &mark) {
        return false;
    }
    let mut i: usize = k + 6;
    while i < data.len()
        invariant
            k + 6 <= i <= data@.len(),
            forall|j: int| k + 6 <= j < i ==> blank(#[trigger] data@[j]),
            forall|j: int| #[trigger] alone_at(data@, done_mark(), j) ==> j == k,
        decreases data@.len() - i,
    {
        if !is_blank(data[i]) {
            assert(!alone_at(data@, done_mark(), k as int));
            return false;
        }
        i = i + 1;
    }
    assert(alone_at(data@, done_mark(), k as int));
    true
}

/// The kind of event that a document says it is.
pub open spec fn kind_of(d: JsonView) -> Seq<char> {
    text_or_empty(d.at("type"@).as_str())
}

fn after_kind(v: Verdict, kind: &str) -> (r: Verdict)
    ensures
        r == v.with_kind(kind@),
{
    reveal(Verdict::with_kind);
    let mut r = v;
    if same(kind, "response.completed") || same(kind, "response.incomplete") || same(
        kind,
        "response.done",
    ) || same(kind, "done") {
        r.terminal = true;
        r.meaningful = true;
    } else if same(kind, "response.failed") || same(kind, "error") {
        if !r.failed {
            r.retryable_failure = !r.meaningful;
        }
        r.failed = true;
        r.terminal = true;
    } else if !(same(kind, "response.created") || same(kind, "response.in_progress") || same(
        kind,
        "",
    )) {
        r.meaningful = true;
        if same(kind, "response.output_text.delta") {
            r.output_text = true;
        }
    }
    r
}

fn declared_kind(v: &Json) -> (r: &str)
    ensures
        r@ == kind_of(v@),
{
    match str_of(at(Some(v), "type")) {
        Some(kind) => kind.as_str(),
        None => "",
    }
}

/// The model of a document, where there is one.
pub open spec fn view_of(doc: Option<&Json>) -> Option<JsonView> {
    match doc {
        Some(v) => Some(v@),
        None => None,
    }
}

impl Observer {
    /// What was seen so far.
    pub open spec fn verdict(self) -> Verdict {
        Verdict {
            terminal: self.terminal,
            failed: self.failed,
            meaningful: self.meaningful,
            output_text: self.output_text,
            retryable_failure: self.retryable_failure,
        }
    }

    fn seen(&self) -> (r: Verdict)
        ensures
            r == self.verdict(),
    {
        Verdict {
            terminal: self.terminal,
            failed: self.failed,
            meaningful: self.meaningful,
            output_text: self.output_text,
            retryable_failure: self.retryable_failure,
        }
    }

    fn see(&mut self, v: Verdict)
        ensures
            final(self)@ == (ObserverView { verdict: v, ..old(self)@ }),
    {
        self.terminal = v.terminal;
        self.failed = v.failed;
        self.meaningful = v.meaningful;
        self.output_text = v.output_text;
        self.retryable_failure = v.retryable_failure;
    }

    /// Learns of one kind of event.
    pub fn kind(&mut self, kind: &str)
        ensures
            final(self)@ == (ObserverView {
                verdict: old(self)@.verdict.with_kind(kind@),
                ..old(self)@
            }),
    {
        let v = self.seen();
        self.see(after_kind(v, kind));
    }

    fn judge(&self, doc: Option<&Json>) -> (r: Verdict)
        ensures
            r == self@.judged(view_of(doc)),
    {
        let mut v = self.seen();
        if is_done(&self.data) {
            v.terminal = true;
            v.meaningful = true;
        }
        let named = match &self.scanner.value {
            Some(kind) => kind.as_str(),
            None => "",
        };
        v = after_kind(after_kind(v, &self.event), named);
        match doc {
            Some(d) => after_kind(v, declared_kind(d)),
            None => v,
        }
    }

    fn reset(&mut self)
        ensures
            final(self)@ == (ObserverView {
                event: Seq::empty(),
                data: Seq::empty(),
                overflow: false,
                scanner: TypeScannerView::fresh(),
                usage_scanner: ScannerView::fresh(),
                usage: match old(self)@.usage_scanner.found {
                    Some(t) => Some(t),
                    None => old(self)@.usage,
                },
                ..old(self)@
            }),
    {
        let found = self.usage_scanner.found.take();
        match found {
            Some(t) => {
                self.usage = Some(t);
            },
            None => {},
        }
        self.usage_scanner = Scanner::default();
        self.scanner = TypeScanner::default();
        self.event = String::new();
        self.data.clear();
        assert(self@.event =~= Seq::empty());
        assert(self@.data =~= Seq::empty());
        self.overflow = false;
    }

    /// Ends a frame whose document is given.
    pub fn frame_with(&mut self, doc: Option<&Json>)
        ensures
            final(self)@ == old(self)@.framed_with(view_of(doc)),
    {
        let v = self.judge(doc);
        self.see(v);
        if self.failed {
            match doc {
                Some(v) => {
                    self.failure_status = Some(errors::classify_parsed(503, Some(v)));
                },
                None => {},
            }
        }
        self.reset();
    }

    fn frame(&mut self)
        ensures
            final(self)@ == old(self)@.framed(),
    {
        let doc = if self.overflow {
            None
        } else {
            json::parse(self.data.as_slice())
        };
        match &doc {
            Some(v) => self.frame_with(Some(v)),
            None => self.frame_with(None),
        }
    }

    fn event_line(&mut self)
        ensures
            final(self)@ == old(self)@.with_event_line(),
    {
        let mark: Vec<u8> = vec![0x65, 0x76, 0x65, 0x6e, 0x74, 0x3a];
        assert(mark@ =~= event_mark());
        if begins_with(&self.line, 0, &mark) {
            assert(self.line@.subrange(0, 6) =~= self.line@.take(6));
            let rest = vstd::slice::slice_subrange(self.line.as_slice(), 6, self.line.len());
            assert(rest@ =~= self.line@.skip(6));
            self.event = take(&trim(&from_utf8_lossy(rest)), 128);
        } else {
            assert(6 <= self.line@.len() ==> self.line@.subrange(0, 6) =~= self.line@.take(6));
        }
    }

    fn data_line(&mut self)
        requires
            old(self)@.sound(),
        ensures
            final(self)@ == old(self)@.with_data_line(),
    {
        if self.data_line {
            self.scanner.byte(ascii::LINE_FEED);
            self.usage_scanner.byte(ascii::LINE_FEED);
            if self.line_size <= 65536 && self.data.len() + self.line.len() < 65536 {
                let rest = vstd::slice::slice_subrange(self.line.as_slice(), 5, self.line.len());
                assert(rest@ =~= self.line@.skip(5));
                self.data.extend_from_slice(rest);
                assert(self.data@ =~= old(self).data@ + self.line@.skip(5));
                self.data.push(ascii::LINE_FEED);
            } else {
                self.overflow = true;
            }
        }
    }

    fn end_line(&mut self)
        requires
            old(self)@.sound(),
        ensures
            final(self)@ == old(self)@.line_ended(),
            final(self)@.sound(),
    {
        proof {
            line_end_keeps_sound(old(self)@);
        }
        if self.line_size == 0 {
            self.frame();
        } else {
            self.event_line();
            self.data_line();
        }
        self.line.clear();
        assert(self@.line =~= Seq::empty());
        self.line_size = 0;
        self.data_line = false;
    }

    fn byte(&mut self, b: u8)
        requires
            old(self)@.sound(),
        ensures
            final(self)@ == old(self)@.step(b),
            final(self)@.sound(),
    {
        proof {
            step_keeps_sound(old(self)@, b);
            returns_are_apart(old(self)@, b == ascii::CARRIAGE_RETURN);
        }
        if b == ascii::LINE_FEED && self.previous_cr {
            self.previous_cr = false;
            return;
        }
        if b == ascii::CARRIAGE_RETURN || b == ascii::LINE_FEED {
            self.end_line();
            self.previous_cr = b == ascii::CARRIAGE_RETURN;
            return;
        }
        self.previous_cr = false;
        self.join(b);
    }

    fn join(&mut self, b: u8)
        requires
            old(self)@.line.len() == old(self)@.line_size || old(self)@.line.len() == 65536,
        ensures
            final(self)@ == old(self)@.with_byte(b),
    {
        self.line_size = self.line_size.saturating_add(1);
        if self.line.len() < 65536 {
            self.line.push(b);
        }
        if self.line_size == 5 {
            let mark: Vec<u8> = vec![0x64, 0x61, 0x74, 0x61, 0x3a];
            assert(mark@ =~= data_mark());
            self.data_line = self.line.len() == 5 && begins_with(&self.line, 0, &mark);
            assert(self.line@.len() == 5 ==> self.line@.subrange(0, 5) =~= self.line@);
        }
        if self.data_line && self.line_size > 5 {
            self.scanner.byte(b);
            self.usage_scanner.byte(b);
        }
    }

    /// Takes the next bytes of the stream.
    pub fn feed(&mut self, bytes: &[u8])
        requires
            old(self)@.sound(),
        ensures
            final(self)@ == old(self)@.fed(bytes@),
            final(self)@.sound(),
    {
        let mut i: usize = 0;
        assert(bytes@.take(0) =~= Seq::empty());
        while i < bytes.len()
            invariant
                i <= bytes@.len(),
                self@ == old(self)@.fed(bytes@.take(i as int)),
                self@.sound(),
            decreases bytes@.len() - i,
        {
            assert(bytes@.take(i + 1).drop_last() =~= bytes@.take(i as int));
            self.byte(bytes[i]);
            i = i + 1;
        }
        assert(bytes@.take(bytes@.len() as int) =~= bytes@);
    }

    /// Takes the end of the stream.
    pub fn finish(&mut self)
        requires
            old(self)@.sound(),
        ensures
            final(self)@ == old(self)@.finished(),
            final(self)@.sound(),
    {
        if self.line_size > 0 {
            self.end_line();
        }
        proof {
            frame_keeps_sound(self@, self@.document());
        }
        if self.data.len() > 0 || !is_empty(self.event.as_str()) || self.overflow {
            self.frame();
        }
    }
}

proof fn frame_keeps_sound(s: ObserverView, doc: Option<JsonView>)
    requires
        s.sound(),
    ensures
        s.framed_with(doc).sound(),
{
    reveal(Verdict::with_kind);
    usage::scanner_stays_sound(Seq::empty());
}

proof fn line_end_keeps_sound(s: ObserverView)
    requires
        s.sound(),
    ensures
        s.line_ended().sound(),
{
    frame_keeps_sound(s, s.document());
    usage::step_keeps_sound(s.usage_scanner, ascii::LINE_FEED);
}

proof fn returns_are_apart(s: ObserverView, cr: bool)
    ensures
        (ObserverView { previous_cr: cr, ..s }).line_ended() == (ObserverView {
            previous_cr: cr,
            ..s.line_ended()
        }),
{
}

/// One byte keeps an observer sound: all that it holds stays bounded.
pub proof fn step_keeps_sound(s: ObserverView, b: u8)
    requires
        s.sound(),
    ensures
        s.step(b).sound(),
{
    line_end_keeps_sound(s);
    returns_are_apart(s, b == ascii::CARRIAGE_RETURN);
    usage::step_keeps_sound(s.usage_scanner, b);
}

/// How a stream was cut into chunks makes no difference.
pub proof fn chunks_do_not_matter(s: ObserverView, a: Seq<u8>, b: Seq<u8>)
    ensures
        s.fed(a + b) == s.fed(a).fed(b),
    decreases b.len(),
{
    if b.len() == 0 {
        assert(a + b =~= a);
    } else {
        assert((a + b).drop_last() =~= a + b.drop_last());
        chunks_do_not_matter(s, a, b.drop_last());
    }
}

/// What was once observed stays so, and the first failure alone decides whether it is retryable.
pub open spec fn keeps(s: Verdict, t: Verdict) -> bool {
    &&& s.terminal ==> t.terminal
    &&& s.meaningful ==> t.meaningful
    &&& s.output_text ==> t.output_text
    &&& s.failed ==> t.failed && t.retryable_failure == s.retryable_failure
}

/// Observations are final: no later byte takes one back, and after a meaningful event no failure
/// counts as retryable.
pub proof fn observations_are_final(s: ObserverView, bytes: Seq<u8>)
    requires
        s.sound(),
    ensures
        s.fed(bytes).sound(),
        keeps(s.verdict, s.fed(bytes).verdict),
        s.usage is Some ==> s.fed(bytes).usage is Some,
        s.verdict.meaningful && !s.verdict.failed ==> !s.fed(bytes).verdict.retryable_failure,
    decreases bytes.len(),
{
    reveal(Verdict::with_kind);
    if bytes.len() > 0 {
        let t = s.fed(bytes.drop_last());
        observations_are_final(s, bytes.drop_last());
        let b = bytes.last();
        step_keeps_sound(t, b);
    }
}

/// A `type` deeper in a document is not taken for the document's own.
pub proof fn nested_type_does_not_count(s: TypeScannerView, b: u8)
    requires
        s.depth != 1,
    ensures
        s.step(b).value == s.value,
        s.step(b).key == s.key,
{
}

/// The value changes only at the end of a string that stands under `type` in the outermost object.
pub proof fn only_type_counts(s: TypeScannerView, b: u8)
    requires
        s.step(b).value != s.value,
    ensures
        s.depth == 1,
        s.string && !s.escape && !s.want_key,
        s.key == "type"@,
        b == ascii::QUOTE,
        s.step(b).value == Some(text::lossy(s.token)),
{
}

proof fn frame_of_nothing(s: ObserverView)
    requires
        s.sound(),
        s.idle(),
    ensures
        s.framed() == s,
{
    reveal(Verdict::with_kind);
    kinds_differ();
    assert(s.event =~= ""@);
    assert(!says_done(s.data)) by {
        assert(done_mark().len() == 6);
    }
    assert(s.verdict.with_data(s.data) == s.verdict);
    assert(s.verdict.with_kind(""@) == s.verdict);
    assert(s.judged(s.document()) == s.verdict);
    assert(s.data =~= Seq::empty());
    assert(s.event =~= Seq::empty());
}

proof fn kinds_differ()
    ensures
        ""@.len() == 0,
        "done"@.len() == 4,
        "error"@.len() == 5,
        "response.done"@.len() == 13,
        "response.failed"@.len() == 15,
        "response.completed"@.len() == 18,
        "response.incomplete"@.len() == 19,
{
    reveal_strlit("");
    reveal_strlit("done");
    reveal_strlit("error");
    reveal_strlit("response.done");
    reveal_strlit("response.failed");
    reveal_strlit("response.completed");
    reveal_strlit("response.incomplete");
}

proof fn fed_one(s: ObserverView, b: u8)
    ensures
        s.fed(seq![b]) == s.step(b),
{
    assert(seq![b].drop_last() =~= Seq::empty());
    assert(s.fed(seq![b].drop_last()) == s);
}

/// What a stream's end gives is what closing its last frame gives: a frame without its empty line
/// counts as if it had one. A second end changes nothing.
pub proof fn finishing_closes_the_frame(s: ObserverView)
    requires
        s.sound(),
    ensures
        ({
            let closed = s.fed(seq![ascii::LINE_FEED, ascii::LINE_FEED]);
            &&& s.finished().usage == closed.usage
            &&& s.finished().failure_status == closed.failure_status
            &&& s.finished().verdict == closed.verdict
        }),
        s.finished().finished() == s.finished(),
{
    let lf = ascii::LINE_FEED;
    assert(seq![lf, lf] =~= seq![lf] + seq![lf]);
    chunks_do_not_matter(s, seq![lf], seq![lf]);
    fed_one(s, lf);
    let one = s.step(lf);
    fed_one(one, lf);
    step_keeps_sound(s, lf);
    if s.line_size > 0 {
        line_end_keeps_sound(s);
        let t = s.line_ended();
        assert(one == (ObserverView { previous_cr: false, ..t }));
        if t.idle() {
            frame_of_nothing(t);
            frame_of_nothing(one);
        }
    } else {
        if s.idle() {
            frame_of_nothing(s);
            frame_of_nothing(ObserverView { previous_cr: false, ..s });
        }
        if !s.previous_cr {
            frame_of_nothing(one);
        }
    }
}

/// The observer after the first bytes of a line that are not yet known to be data.
spec fn begun(s: ObserverView, line: Seq<u8>) -> ObserverView {
    ObserverView { line, line_size: line.len() as usize, previous_cr: false, ..s }
}

proof fn byte_joins(s: ObserverView, line: Seq<u8>, b: u8)
    requires
        s.sound(),
        s.idle(),
        line.len() < 4,
        b != ascii::LINE_FEED,
        b != ascii::CARRIAGE_RETURN,
    ensures
        begun(s, line).step(b) == begun(s, line.push(b)),
{
}

proof fn mark_is_read(s: ObserverView)
    requires
        s.sound(),
        s.idle(),
    ensures
        s.fed(data_mark()) == (ObserverView {
            line: data_mark(),
            line_size: 5,
            data_line: true,
            previous_cr: false,
            ..s
        }),
{
    let m = data_mark();
    let a = m.drop_last();
    let b = a.drop_last();
    let c = b.drop_last();
    let d = c.drop_last();
    let e = Seq::<u8>::empty();
    assert(d.drop_last() =~= e);
    assert(s.line =~= e);
    assert(s.fed(d.drop_last()) == s);
    assert(s.step(0x64) == begun(s, e).step(0x64));
    byte_joins(s, e, 0x64);
    assert(e.push(0x64) =~= d);
    assert(d.last() == 0x64);
    assert(s.fed(d) == begun(s, d));
    byte_joins(s, d, 0x61);
    assert(d.push(0x61) =~= c);
    assert(c.last() == 0x61);
    assert(s.fed(c) == begun(s, c));
    byte_joins(s, c, 0x74);
    assert(c.push(0x74) =~= b);
    assert(b.last() == 0x74);
    assert(s.fed(b) == begun(s, b));
    byte_joins(s, b, 0x61);
    assert(b.push(0x61) =~= a);
    assert(a.last() == 0x61);
    assert(s.fed(a) == begun(s, a));
    assert(a.push(0x3a) =~= m);
}

proof fn line_of_data(s: ObserverView, seg: Seq<u8>)
    requires
        s.sound(),
        s.idle(),
        seg.len() <= 65531,
        forall|i: int|
            0 <= i < seg.len() ==> #[trigger] seg[i] != ascii::LINE_FEED && seg[i]
                != ascii::CARRIAGE_RETURN,
    ensures
        s.fed(data_mark() + seg) == (ObserverView {
            line: data_mark() + seg,
            line_size: (5 + seg.len()) as usize,
            data_line: true,
            previous_cr: false,
            scanner: TypeScannerView::fresh().scan(seg),
            usage_scanner: ScannerView::fresh().scan(seg),
            ..s
        }),
    decreases seg.len(),
{
    let bytes = data_mark() + seg;
    if seg.len() == 0 {
        assert(bytes =~= data_mark());
        mark_is_read(s);
    } else {
        let rest = seg.drop_last();
        assert forall|i: int| 0 <= i < rest.len() implies #[trigger] rest[i] != ascii::LINE_FEED
            && rest[i] != ascii::CARRIAGE_RETURN by {
            assert(rest[i] == seg[i]);
        }
        line_of_data(s, rest);
        assert(bytes.drop_last() =~= data_mark() + rest);
        assert(bytes.last() == seg[seg.len() - 1]);
        assert((data_mark() + rest).push(seg.last()) =~= bytes);
    }
}

/// Between frames, a frame of one line of data is read whole: its type and its usage by the scanners,
/// and its document.
pub proof fn frames_of_data_are_read(s: ObserverView, seg: Seq<u8>)
    requires
        s.sound(),
        s.idle(),
        seg.len() <= 65530,
        forall|i: int|
            0 <= i < seg.len() ==> #[trigger] seg[i] != ascii::LINE_FEED && seg[i]
                != ascii::CARRIAGE_RETURN,
    ensures
        s.fed(data_mark() + seg + seq![ascii::LINE_FEED, ascii::LINE_FEED]) == (ObserverView {
            data: seg.push(ascii::LINE_FEED),
            previous_cr: false,
            scanner: TypeScannerView::fresh().scan(seg).step(ascii::LINE_FEED),
            usage_scanner: ScannerView::fresh().scan(seg).step(ascii::LINE_FEED),
            ..s
        }).framed(),
{
    let lf = ascii::LINE_FEED;
    line_of_data(s, seg);
    let read = s.fed(data_mark() + seg);
    chunks_do_not_matter(s, data_mark() + seg, seq![lf, lf]);
    assert(seq![lf, lf] =~= seq![lf] + seq![lf]);
    chunks_do_not_matter(read, seq![lf], seq![lf]);
    fed_one(read, lf);
    fed_one(read.step(lf), lf);
    assert(s.data =~= Seq::empty());
    assert(s.line =~= Seq::empty());
    assert(read.line[0] == data_mark()[0]);
    assert(read.line.len() >= 6 ==> read.line.take(6)[0] != event_mark()[0]);
    assert(read.line.skip(5) =~= seg);
    assert((s.data + seg).push(lf) =~= seg.push(lf));
    let ended = read.step(lf);
    assert(ended == (ObserverView {
        data: seg.push(lf),
        previous_cr: false,
        scanner: TypeScannerView::fresh().scan(seg).step(lf),
        usage_scanner: ScannerView::fresh().scan(seg).step(lf),
        ..s
    }));
}

/// The first frame that names a failure decides whether another upstream may be tried: it may exactly
/// where nothing meaningful came before, whatever else the frame's document says.
pub proof fn first_failure_decides(s: ObserverView, doc: Option<JsonView>)
    requires
        !s.verdict.failed,
        !says_done(s.data),
        s.event.len() == 0,
        s.scanner.value == Some("error"@) || s.scanner.value == Some("response.failed"@),
    ensures
        s.framed_with(doc).verdict.failed,
        s.framed_with(doc).verdict.terminal,
        s.framed_with(doc).verdict.retryable_failure == !s.verdict.meaningful,
{
    reveal(Verdict::with_kind);
    kinds_differ();
    assert(s.event =~= ""@);
}

proof fn type_scan_in_parts(s: TypeScannerView, a: Seq<u8>, b: Seq<u8>)
    ensures
        s.scan(a + b) == s.scan(a).scan(b),
    decreases b.len(),
{
    if b.len() == 0 {
        assert(a + b =~= a);
    } else {
        assert((a + b).drop_last() =~= a + b.drop_last());
        type_scan_in_parts(s, a, b.drop_last());
    }
}

proof fn scan_next(s: TypeScannerView, a: Seq<u8>, b: u8)
    ensures
        s.scan(a.push(b)) == s.scan(a).step(b),
{
    assert(a.push(b).drop_last() =~= a);
}

/// The bytes ` {"type":"`.
pub open spec fn type_opening() -> Seq<u8> {
    seq![0x20, 0x7b, 0x22, 0x74, 0x79, 0x70, 0x65, 0x22, 0x3a, 0x22]
}

/// The bytes `"}`.
pub open spec fn type_closing() -> Seq<u8> {
    seq![0x22, 0x7d]
}

/// A kind that a document spells as it is: in ASCII, short, without quotes, backslashes or line ends.
pub open spec fn plain_kind(t: Seq<char>) -> bool {
    &&& is_ascii_chars(t)
    &&& t.len() <= 128
    &&& forall|i: int|
        0 <= i < t.len() ==> #[trigger] t[i] != '"' && t[i] != '\\' && t[i] != '\n' && t[i] != '\r'
}

/// A line of data whose document says nothing but its type.
pub open spec fn typed_line(t: Seq<char>) -> Seq<u8> {
    type_opening() + encode_utf8(t) + type_closing()
}

/// A frame whose document says nothing but its type.
pub open spec fn typed_frame(t: Seq<char>) -> Seq<u8> {
    data_mark() + typed_line(t) + seq![ascii::LINE_FEED, ascii::LINE_FEED]
}

proof fn ascii_reads_back(t: Seq<char>)
    ensures
        text::lossy(encode_utf8(t)) == t,
{
    encode_utf8_valid_utf8(t);
    encode_utf8_decode_utf8(t);
}

/// The scanner before the text of the type.
spec fn awaiting() -> TypeScannerView {
    TypeScannerView {
        depth: 1,
        string: true,
        escape: false,
        token: Seq::empty(),
        want_key: false,
        key: "type"@,
        value: None,
    }
}

proof fn opening_is_scanned()
    ensures
        TypeScannerView::fresh().scan(type_opening()) == awaiting(),
{
    reveal_strlit("type");
    let f = TypeScannerView::fresh();
    let e = Seq::<u8>::empty();
    let o1 = e.push(0x20);
    let o2 = o1.push(0x7b);
    let o3 = o2.push(0x22);
    let o4 = o3.push(0x74);
    let o5 = o4.push(0x79);
    let o6 = o5.push(0x70);
    let o7 = o6.push(0x65);
    let o8 = o7.push(0x22);
    let o9 = o8.push(0x3a);
    let o10 = o9.push(0x22);
    assert(o10 =~= type_opening());
    assert(f.scan(e) == f);
    scan_next(f, e, 0x20);
    scan_next(f, o1, 0x7b);
    scan_next(f, o2, 0x22);
    scan_next(f, o3, 0x74);
    scan_next(f, o4, 0x79);
    scan_next(f, o5, 0x70);
    scan_next(f, o6, 0x65);
    scan_next(f, o7, 0x22);
    scan_next(f, o8, 0x3a);
    scan_next(f, o9, 0x22);
    let token = e.push(0x74).push(0x79).push(0x70).push(0x65);
    let key = f.scan(o7);
    assert(key == (TypeScannerView { depth: 1, string: true, want_key: true, token, ..f }));
    assert(is_ascii_chars("type"@));
    is_ascii_chars_encode_utf8("type"@);
    assert(token =~= encode_utf8("type"@)) by {
        assert("type"@.len() == 4);
        assert("type"@[0] == 't' && "type"@[1] == 'y' && "type"@[2] == 'p' && "type"@[3] == 'e');
    }
    ascii_reads_back("type"@);
}

proof fn kind_is_scanned(t: Seq<char>, n: int)
    requires
        plain_kind(t),
        0 <= n <= t.len(),
    ensures
        awaiting().scan(encode_utf8(t).take(n)) == (TypeScannerView {
            token: encode_utf8(t).take(n),
            ..awaiting()
        }),
    decreases n,
{
    is_ascii_chars_encode_utf8(t);
    let bytes = encode_utf8(t);
    if n == 0 {
        assert(bytes.take(0) =~= Seq::empty());
    } else {
        kind_is_scanned(t, n - 1);
        let b = bytes[n - 1];
        assert(t[n - 1] as u8 == b);
        assert(b != ascii::QUOTE && b != ascii::BACKSLASH);
        assert(bytes.take(n - 1).push(b) =~= bytes.take(n));
        scan_next(awaiting(), bytes.take(n - 1), b);
    }
}

proof fn typed_line_is_scanned(t: Seq<char>)
    requires
        plain_kind(t),
    ensures
        TypeScannerView::fresh().scan(typed_line(t)).step(ascii::LINE_FEED).value == Some(t),
{
    let f = TypeScannerView::fresh();
    let bytes = encode_utf8(t);
    opening_is_scanned();
    type_scan_in_parts(f, type_opening(), bytes);
    is_ascii_chars_encode_utf8(t);
    kind_is_scanned(t, t.len() as int);
    assert(bytes.take(t.len() as int) =~= bytes);
    type_scan_in_parts(f, type_opening() + bytes, type_closing());
    let s = f.scan(type_opening() + bytes);
    let e = Seq::<u8>::empty();
    assert(e.push(0x22).push(0x7d) =~= type_closing());
    assert(s.scan(e) == s);
    scan_next(s, e, 0x22);
    scan_next(s, e.push(0x22), 0x7d);
    ascii_reads_back(t);
}

proof fn typed_line_is_one_line(t: Seq<char>)
    requires
        plain_kind(t),
    ensures
        typed_line(t).len() == t.len() + 12,
        forall|i: int|
            0 <= i < typed_line(t).len() ==> #[trigger] typed_line(t)[i] != ascii::LINE_FEED
                && typed_line(t)[i] != ascii::CARRIAGE_RETURN,
{
    is_ascii_chars_encode_utf8(t);
    let line = typed_line(t);
    assert forall|i: int| 0 <= i < line.len() implies #[trigger] line[i] != ascii::LINE_FEED
        && line[i] != ascii::CARRIAGE_RETURN by {
        if 10 <= i < 10 + t.len() {
            assert(line[i] == encode_utf8(t)[i - 10]);
            assert(t[i - 10] as u8 == line[i]);
        }
    }
}

/// Between frames, a frame that names a failure is one: the stream failed, and another
/// upstream may be tried exactly where nothing meaningful came before.
pub proof fn failure_frames_fail(s: ObserverView, kind: Seq<char>)
    requires
        s.sound(),
        s.idle(),
        !s.verdict.failed,
        kind == "error"@ || kind == "response.failed"@,
    ensures
        s.fed(typed_frame(kind)).verdict.failed,
        s.fed(typed_frame(kind)).verdict.terminal,
        s.fed(typed_frame(kind)).verdict.retryable_failure == !s.verdict.meaningful,
{
    reveal_strlit("error");
    reveal_strlit("response.failed");
    kinds_differ();
    assert(plain_kind(kind));
    typed_line_is_scanned(kind);
    typed_line_is_one_line(kind);
    let line = typed_line(kind);
    frames_of_data_are_read(s, line);
    let read = ObserverView {
        data: line.push(ascii::LINE_FEED),
        previous_cr: false,
        scanner: TypeScannerView::fresh().scan(line).step(ascii::LINE_FEED),
        usage_scanner: ScannerView::fresh().scan(line).step(ascii::LINE_FEED),
        ..s
    };
    assert(!says_done(read.data)) by {
        assert forall|k: int| !#[trigger] alone_at(read.data, done_mark(), k) by {
            if alone_at(read.data, done_mark(), k) {
                assert(read.data.subrange(k, k + 6)[0] == done_mark()[0]);
                assert(read.data[0] == 0x20);
                assert(read.data[1] == 0x7b);
                if k > 1 {
                    assert(blank(read.data[1]));
                }
            }
        }
    }
    first_failure_decides(read, read.document());
}

/// A kind that says that a response came to an end.
pub open spec fn ending(kind: Seq<char>) -> bool {
    kind == "response.completed"@ || kind == "response.incomplete"@ || kind == "response.done"@
        || kind == "done"@
}

/// A kind that says that a response failed.
pub open spec fn failing(kind: Seq<char>) -> bool {
    kind == "response.failed"@ || kind == "error"@
}

/// A kind that says only that a response was begun, or nothing.
pub open spec fn announcing(kind: Seq<char>) -> bool {
    kind == "response.created"@ || kind == "response.in_progress"@ || kind == ""@
}

proof fn all_kinds_differ()
    ensures
        ""@.len() == 0,
        "done"@.len() == 4,
        "error"@.len() == 5,
        "response.done"@.len() == 13,
        "response.failed"@.len() == 15,
        "response.created"@.len() == 16,
        "response.completed"@.len() == 18,
        "response.incomplete"@.len() == 19,
        "response.in_progress"@.len() == 20,
        "response.output_text.delta"@.len() == 26,
{
    kinds_differ();
    reveal_strlit("response.created");
    reveal_strlit("response.in_progress");
    reveal_strlit("response.output_text.delta");
}

/// The kind that a document states as its type.
pub open spec fn stated(doc: Option<JsonView>) -> Seq<char> {
    match doc {
        Some(d) => match d.at("type"@) {
            JsonView::Text(t) => t,
            _ => ""@,
        },
        None => ""@,
    }
}

/// A frame says what its kinds say: the name of its event, the type that stands in its data and the one
/// that its document states. A failing kind fails the stream, an ending or failing one ends it, one
/// that is neither announcing nor failing means something, and a delta of text is output; `[DONE]`
/// ends the stream too. Nothing else that a frame holds plays a part.
pub proof fn frames_say_what_their_kinds_say(s: ObserverView, doc: Option<JsonView>)
    ensures
        ({
            let event = s.event;
            let named = match s.scanner.value {
                Some(t) => t,
                None => ""@,
            };
            let told = stated(doc);
            let a = s.verdict;
            let b = s.framed_with(doc).verdict;
            let done = says_done(s.data);
            &&& b.failed <==> a.failed || failing(event) || failing(named) || failing(told)
            &&& b.terminal <==> a.terminal || done || ending(event) || ending(named) || ending(told)
                || failing(event) || failing(named) || failing(told)
            &&& b.meaningful <==> a.meaningful || done || !announcing(event) && !failing(event)
                || !announcing(named) && !failing(named) || !announcing(told) && !failing(told)
            &&& b.output_text <==> a.output_text || event == "response.output_text.delta"@ || named
                == "response.output_text.delta"@ || told == "response.output_text.delta"@
            &&& a.failed ==> b.retryable_failure == a.retryable_failure
            &&& !a.failed && !b.failed ==> b.retryable_failure == a.retryable_failure
            &&& !a.failed && b.failed && (a.meaningful || done) ==> !b.retryable_failure
            &&& !a.failed && b.failed && !b.meaningful ==> b.retryable_failure
        }),
{
    reveal(Verdict::with_kind);
    all_kinds_differ();
}

/// The class of a failure is read from the document of a failed stream, as one of the service where
/// it says nothing else. Reported tokens are kept until others are reported.
pub proof fn failures_are_classified(s: ObserverView, doc: Option<JsonView>)
    ensures
        ({
            let t = s.framed_with(doc);
            &&& t.verdict.failed && doc is Some ==> t.failure_status == Some(
                errors::class_of(503, doc),
            )
            &&& !t.verdict.failed || doc is None ==> t.failure_status == s.failure_status
            &&& s.usage_scanner.found is Some ==> t.usage == s.usage_scanner.found
            &&& s.usage_scanner.found is None ==> t.usage == s.usage
            &&& t.data.len() == 0 && t.event.len() == 0 && !t.overflow
        }),
{
}

/// A kind that a document spells as it is, and that is read back as the document's type where the
/// document is read.
pub open spec fn reads_as_typed(t: Seq<char>) -> bool {
    let doc = json::parsed(typed_line(t).push(ascii::LINE_FEED));
    plain_kind(t) && (doc is Some ==> (doc->0).at("type"@) == JsonView::Text(t))
}

/// Between frames, a frame that says nothing but its type says what its kind says, and leaves the
/// observer between frames.
pub proof fn typed_frames_say_what_their_kind_says(s: ObserverView, kind: Seq<char>)
    requires
        s.sound(),
        s.idle(),
        reads_as_typed(kind),
    ensures
        s.fed(typed_frame(kind)).sound(),
        s.fed(typed_frame(kind)).idle(),
        ({
            let a = s.verdict;
            let b = s.fed(typed_frame(kind)).verdict;
            &&& b.failed <==> a.failed || failing(kind)
            &&& b.terminal <==> a.terminal || ending(kind) || failing(kind)
            &&& b.meaningful <==> a.meaningful || !announcing(kind) && !failing(kind)
            &&& b.output_text <==> a.output_text || kind == "response.output_text.delta"@
            &&& !a.failed && failing(kind) ==> b.retryable_failure == !a.meaningful
            &&& a.failed || !failing(kind) ==> b.retryable_failure == a.retryable_failure
        }),
{
    reveal(Verdict::with_kind);
    all_kinds_differ();
    observations_are_final(s, typed_frame(kind));
    typed_line_is_scanned(kind);
    typed_line_is_one_line(kind);
    let line = typed_line(kind);
    frames_of_data_are_read(s, line);
    let read = ObserverView {
        data: line.push(ascii::LINE_FEED),
        previous_cr: false,
        scanner: TypeScannerView::fresh().scan(line).step(ascii::LINE_FEED),
        usage_scanner: ScannerView::fresh().scan(line).step(ascii::LINE_FEED),
        ..s
    };
    assert(!says_done(read.data)) by {
        assert forall|k: int| !#[trigger] alone_at(read.data, done_mark(), k) by {
            if alone_at(read.data, done_mark(), k) {
                assert(read.data.subrange(k, k + 6)[0] == done_mark()[0]);
                assert(read.data[0] == 0x20);
                assert(read.data[1] == 0x7b);
                if k > 1 {
                    assert(blank(read.data[1]));
                }
            }
        }
    }
    assert(read.event =~= ""@);
    frames_say_what_their_kinds_say(read, read.document());
}

/// Frames whose documents say nothing but their types, one after another.
pub open spec fn typed_frames(kinds: Seq<Seq<char>>) -> Seq<u8>
    decreases kinds.len(),
{
    if kinds.len() == 0 {
        Seq::empty()
    } else {
        typed_frames(kinds.drop_last()) + typed_frame(kinds.last())
    }
}

/// Announcements mean nothing: frames that say only that a response was created or is in progress,
/// however many, change nothing that was seen.
pub proof fn announcements_mean_nothing(s: ObserverView, kinds: Seq<Seq<char>>)
    requires
        s.sound(),
        s.idle(),
        forall|i: int|
            0 <= i < kinds.len() ==> (#[trigger] kinds[i] == "response.created"@ || kinds[i]
                == "response.in_progress"@) && reads_as_typed(kinds[i]),
    ensures
        s.fed(typed_frames(kinds)).sound(),
        s.fed(typed_frames(kinds)).idle(),
        s.fed(typed_frames(kinds)).verdict == s.verdict,
    decreases kinds.len(),
{
    if kinds.len() > 0 {
        let rest = kinds.drop_last();
        assert(forall|i: int| 0 <= i < rest.len() ==> #[trigger] rest[i] == kinds[i]);
        announcements_mean_nothing(s, rest);
        chunks_do_not_matter(s, typed_frames(rest), typed_frame(kinds.last()));
        assert(kinds[kinds.len() - 1] == kinds.last());
        all_kinds_differ();
        typed_frames_say_what_their_kind_says(s.fed(typed_frames(rest)), kinds.last());
    }
}

/// A failure after nothing but announcements is retryable; after a frame that means something it is
/// not, however many announcements came.
pub proof fn failures_after_announcements_are_retryable(
    s: ObserverView,
    kinds: Seq<Seq<char>>,
    kind: Seq<char>,
)
    requires
        s.sound(),
        s.idle(),
        !s.verdict.failed,
        forall|i: int|
            0 <= i < kinds.len() ==> (#[trigger] kinds[i] == "response.created"@ || kinds[i]
                == "response.in_progress"@) && reads_as_typed(kinds[i]),
        kind == "response.failed"@ || kind == "error"@,
        reads_as_typed(kind),
    ensures
        s.fed(typed_frames(kinds) + typed_frame(kind)).verdict.failed,
        s.fed(typed_frames(kinds) + typed_frame(kind)).verdict.retryable_failure
            == !s.verdict.meaningful,
{
    announcements_mean_nothing(s, kinds);
    chunks_do_not_matter(s, typed_frames(kinds), typed_frame(kind));
    typed_frames_say_what_their_kind_says(s.fed(typed_frames(kinds)), kind);
}

/// The bytes ` [DONE]`.
pub open spec fn done_line() -> Seq<u8> {
    seq![0x20, 0x5b, 0x44, 0x4f, 0x4e, 0x45, 0x5d]
}

/// Between frames, a frame of `[DONE]` ends the stream and means something.
pub proof fn done_frames_end_the_stream(s: ObserverView)
    requires
        s.sound(),
        s.idle(),
    ensures
        s.fed(data_mark() + done_line() + seq![ascii::LINE_FEED, ascii::LINE_FEED]).verdict.terminal,
        s.fed(
            data_mark() + done_line() + seq![ascii::LINE_FEED, ascii::LINE_FEED],
        ).verdict.meaningful,
        !s.verdict.failed && json::parsed(done_line().push(ascii::LINE_FEED)) is None ==> !s.fed(
            data_mark() + done_line() + seq![ascii::LINE_FEED, ascii::LINE_FEED],
        ).verdict.failed,
{
    let line = done_line();
    frames_of_data_are_read(s, line);
    let read = ObserverView {
        data: line.push(ascii::LINE_FEED),
        previous_cr: false,
        scanner: TypeScannerView::fresh().scan(line).step(ascii::LINE_FEED),
        usage_scanner: ScannerView::fresh().scan(line).step(ascii::LINE_FEED),
        ..s
    };
    assert(read.data.subrange(1, 7) =~= done_mark());
    assert(alone_at(read.data, done_mark(), 1));
    let f = TypeScannerView::fresh();
    no_strings_are_scanned(f, line, line.len() as int);
    assert(line.take(line.len() as int) =~= line);
    all_kinds_differ();
    assert(read.event =~= ""@);
    frames_say_what_their_kinds_say(read, read.document());
}

proof fn no_strings_are_scanned(s: TypeScannerView, bytes: Seq<u8>, n: int)
    requires
        !s.string,
        s.value is None,
        0 <= n <= bytes.len(),
        forall|i: int| 0 <= i < bytes.len() ==> #[trigger] bytes[i] != ascii::QUOTE,
    ensures
        !s.scan(bytes.take(n)).string,
        s.scan(bytes.take(n)).value is None,
    decreases n,
{
    if n > 0 {
        no_strings_are_scanned(s, bytes, n - 1);
        assert(bytes.take(n).drop_last() =~= bytes.take(n - 1));
    }
}

/// A line that names an event.
pub open spec fn event_line(t: Seq<char>) -> Seq<u8> {
    event_mark() + seq![0x20u8] + encode_utf8(t)
}

/// A frame that holds nothing but the name of an event.
pub open spec fn event_frame(t: Seq<char>) -> Seq<u8> {
    event_line(t) + seq![ascii::LINE_FEED, ascii::LINE_FEED]
}

proof fn line_of_an_event(s: ObserverView, line: Seq<u8>, n: int)
    requires
        s.sound(),
        s.idle(),
        0 <= n <= line.len() <= 65536,
        line.len() > 0,
        line[0] == 0x65,
        forall|i: int|
            0 <= i < line.len() ==> #[trigger] line[i] != ascii::LINE_FEED && line[i]
                != ascii::CARRIAGE_RETURN,
    ensures
        n > 0 ==> s.fed(line.take(n)) == begun(s, line.take(n)),
    decreases n,
{
    if n > 0 {
        assert(line.take(n).drop_last() =~= line.take(n - 1));
        assert(line.take(n - 1).push(line[n - 1]) =~= line.take(n));
        assert(line[n - 1] != ascii::LINE_FEED);
        if n == 1 {
            assert(line.take(0) =~= Seq::empty());
            assert(s.line =~= Seq::empty());
            assert(s.fed(line.take(0)) == s);
        } else {
            line_of_an_event(s, line, n - 1);
        }
        assert(line.take(n)[0] == 0x65);
        assert(data_mark()[0] == 0x64);
        assert(line.take(n) != data_mark());
    }
}

/// Between frames, a frame that holds nothing but the name of an event says what that kind says.
pub proof fn named_frames_say_what_their_name_says(s: ObserverView, kind: Seq<char>)
    requires
        s.sound(),
        s.idle(),
        plain_kind(kind),
        kind.len() > 0,
        !text::whitespace(kind[0]),
        !text::whitespace(kind.last()),
    ensures
        ({
            let a = s.verdict;
            let b = s.fed(event_frame(kind)).verdict;
            &&& b.failed <==> a.failed || failing(kind)
            &&& b.terminal <==> a.terminal || ending(kind) || failing(kind)
            &&& b.meaningful <==> a.meaningful || !announcing(kind) && !failing(kind)
            &&& b.output_text <==> a.output_text || kind == "response.output_text.delta"@
            &&& !a.failed && failing(kind) ==> b.retryable_failure == !a.meaningful
            &&& a.failed || !failing(kind) ==> b.retryable_failure == a.retryable_failure
        }),
{
    let lf = ascii::LINE_FEED;
    let line = event_line(kind);
    is_ascii_chars_encode_utf8(kind);
    assert forall|i: int| 0 <= i < line.len() implies #[trigger] line[i] != lf && line[i]
        != ascii::CARRIAGE_RETURN by {
        if i >= 7 {
            assert(line[i] == encode_utf8(kind)[i - 7]);
            assert(kind[i - 7] as u8 == line[i]);
        }
    }
    line_of_an_event(s, line, line.len() as int);
    assert(line.take(line.len() as int) =~= line);
    let read = s.fed(line);
    assert(read == begun(s, line));
    chunks_do_not_matter(s, line, seq![lf, lf]);
    assert(seq![lf, lf] =~= seq![lf] + seq![lf]);
    chunks_do_not_matter(read, seq![lf], seq![lf]);
    fed_one(read, lf);
    fed_one(read.step(lf), lf);
    assert(line.take(6) =~= event_mark());
    let spaced = seq![' '] + kind;
    assert(is_ascii_chars(spaced));
    is_ascii_chars_encode_utf8(spaced);
    assert(line.skip(6) =~= encode_utf8(spaced)) by {
        assert forall|i: int| 0 <= i < line.skip(6).len() implies #[trigger] line.skip(6)[i]
            == encode_utf8(spaced)[i] by {
            if i > 0 {
                assert(spaced[i] == kind[i - 1]);
                assert(line.skip(6)[i] == encode_utf8(kind)[i - 1]);
            } else {
                assert(spaced[0] == ' ');
                assert(line.skip(6)[0] == 0x20);
            }
        }
    }
    ascii_reads_back(spaced);
    assert(text::trimmed(spaced) == kind) by {
        assert(spaced.first() == ' ');
        assert(spaced.drop_first() =~= kind);
        assert(text::trimmed_front(kind) == kind);
        assert(text::trimmed_front(spaced) == kind);
        assert(text::trimmed_back(kind) == kind);
    }
    let ended = read.step(lf);
    assert(ended.event == kind);
    assert(s.data =~= Seq::empty());
    assert(s.line =~= Seq::empty());
    assert(ended == (ObserverView { event: kind, previous_cr: false, ..s }));
    assert(!says_done(ended.data)) by {
        assert(done_mark().len() == 6);
    }
    all_kinds_differ();
    frames_say_what_their_kinds_say(ended, ended.document());
}

/// A byte is a space, a tab, a line feed, a form feed or a carriage return.
pub open spec fn spacing(b: u8) -> bool {
    b == 32 || b == 9 || b == 10 || b == 12 || b == 13
}

/// `[DONE]` is recognized with any white space of ASCII round it, and with nothing else.
pub proof fn done_may_be_spaced(a: Seq<u8>, b: Seq<u8>, data: Seq<u8>)
    ensures
        (forall|i: int| 0 <= i < a.len() ==> spacing(#[trigger] a[i])) && (forall|i: int|
            0 <= i < b.len() ==> spacing(#[trigger] b[i])) ==> says_done(
            a + seq![0x5bu8, 0x44u8, 0x4fu8, 0x4eu8, 0x45u8, 0x5du8] + b,
        ),
        says_done(data) ==> exists|k: int|
            0 <= k && k + 6 <= data.len() && #[trigger] data.subrange(k, k + 6) == seq![
                0x5bu8,
                0x44u8,
                0x4fu8,
                0x4eu8,
                0x45u8,
                0x5du8,
            ] && (forall|i: int| 0 <= i < k || k + 6 <= i < data.len() ==> spacing(#[trigger] data[i])),
{
    let whole = a + done_mark() + b;
    if (forall|i: int| 0 <= i < a.len() ==> spacing(#[trigger] a[i])) && (forall|i: int|
        0 <= i < b.len() ==> spacing(#[trigger] b[i])) {
        let n = a.len() as int;
        assert(whole.subrange(n, n + 6) =~= done_mark());
        assert forall|i: int| 0 <= i < n implies blank(#[trigger] whole[i]) by {
            assert(whole[i] == a[i]);
        }
        assert forall|i: int| n + 6 <= i < whole.len() implies blank(#[trigger] whole[i]) by {
            assert(whole[i] == b[i - n - 6]);
        }
        assert(alone_at(whole, done_mark(), n));
    }
    if says_done(data) {
        let k = choose|k: int| #[trigger] alone_at(data, done_mark(), k);
        assert(data.subrange(k, k + 6) == done_mark());
    }
}

/// Lines end alike with a line feed, a carriage return, or both one after the other.
pub proof fn line_ends_are_alike(s: ObserverView)
    requires
        !s.previous_cr,
    ensures
        s.step(ascii::CARRIAGE_RETURN).step(ascii::LINE_FEED) == s.step(ascii::LINE_FEED),
        s.step(ascii::CARRIAGE_RETURN) == (ObserverView {
            previous_cr: true,
            ..s.step(ascii::LINE_FEED)
        }),
{
}

/// The lines of data of a frame are joined with line feeds between them, as long as there are fewer than
/// 64 kibibytes of them; more count as too much.
pub proof fn lines_of_data_are_joined(s: ObserverView)
    requires
        s.sound(),
        s.data_line,
        !s.previous_cr,
        s.line.len() < 65536,
        !(s.line.len() >= 6 && s.line.take(6) == event_mark()),
    ensures
        s.data.len() + s.line.len() < 65536 ==> s.step(ascii::LINE_FEED).data == s.data + s.line.skip(
            5,
        ) + seq![ascii::LINE_FEED] && s.step(ascii::LINE_FEED).overflow == s.overflow,
        s.data.len() + s.line.len() >= 65536 ==> s.step(ascii::LINE_FEED).overflow && s.step(
            ascii::LINE_FEED,
        ).data == s.data,
        s.step(ascii::LINE_FEED).event == s.event,
        s.step(ascii::LINE_FEED).verdict == s.verdict,
        s.step(ascii::LINE_FEED).line_size == 0,
{
    assert((s.data + s.line.skip(5)).push(ascii::LINE_FEED) =~= s.data + s.line.skip(5) + seq![
        ascii::LINE_FEED,
    ]);
}

/// Data that was too much is not read as a document.
pub proof fn long_data_is_no_document(s: ObserverView)
    ensures
        s.overflow ==> s.framed() == s.framed_with(None),
        !s.overflow ==> s.framed() == s.framed_with(json::parsed(s.data)),
{
}

/// A line that is neither data nor the name of an event changes nothing but that it is over.
pub proof fn other_lines_are_ignored(s: ObserverView)
    requires
        !s.data_line,
        !s.previous_cr,
        s.line_size > 0,
        !(s.line.len() >= 6 && s.line.take(6) == event_mark()),
    ensures
        s.step(ascii::LINE_FEED) == (ObserverView {
            line: s.step(ascii::LINE_FEED).line,
            line_size: 0,
            ..s
        }),
        s.step(ascii::LINE_FEED).line.len() == 0,
{
}

/// How the type of a document is read, byte by byte: strings run from quote to quote, an escaped quote
/// does not end one; braces and brackets outside of strings nest; in the outermost object the string
/// after the opening brace or a comma is a name, and the one after the name `type` is the type.
pub proof fn types_are_read(s: TypeScannerView, b: u8)
    ensures
        !s.string ==> s.step(0x22u8) == (TypeScannerView { string: true, token: Seq::empty(), ..s }),
        s.string && s.escape ==> s.step(b).string && !s.step(b).escape && s.step(b).depth == s.depth,
        s.string && !s.escape ==> s.step(0x5cu8).escape && s.step(0x5cu8).string,
        s.string && !s.escape ==> !s.step(0x22u8).string && s.step(0x22u8).depth == s.depth,
        s.string && !s.escape && s.depth == 1 && s.want_key ==> s.step(0x22u8).key == text::lossy(
            s.token,
        ) && !s.step(0x22u8).want_key && s.step(0x22u8).value == s.value,
        s.string && !s.escape && s.depth == 1 && !s.want_key && s.key == "type"@ ==> s.step(
            0x22u8,
        ).value == Some(text::lossy(s.token)),
        s.string && !s.escape && s.depth == 1 && b != 0x22 && b != 0x5c && s.token.len() < 128
            ==> s.step(b) == (TypeScannerView { token: s.token.push(b), ..s }),
        s.string ==> s.step(b).depth == s.depth,
        !s.string && s.depth == 1 ==> s.step(0x2cu8).want_key,
        !s.string && s.depth != 1 ==> s.step(0x2cu8) == s,
        !s.string && s.depth == 0 ==> s.step(0x7bu8).depth == 1 && s.step(0x7bu8).want_key,
        !s.string && s.depth == 0 ==> s.step(0x5bu8).depth == 1 && s.step(0x5bu8).want_key
            == s.want_key,
        !s.string && 0 < s.depth < usize::MAX ==> s.step(0x7bu8).depth == s.depth + 1 && s.step(
            0x5bu8,
        ).depth == s.depth + 1,
        !s.string && s.depth > 0 ==> s.step(0x7du8).depth == s.depth - 1 && s.step(0x5du8).depth
            == s.depth - 1,
{
}

} // verus!
