//! Text as sequences of characters.
use vstd::prelude::*;
use vstd::string::*;
use vstd::utf8::*;

verus! {

/// `String::push` appends one character.
pub assume_specification[ String::push ](s: &mut String, c: char)
    ensures
        final(s)@ == old(s)@.push(c),
;

/// Whether two texts hold the same characters.
pub fn same(a: &str, b: &str) -> (r: bool)
    ensures
        r == (a@ == b@),
{
    let x = a.as_bytes();
    let y = b.as_bytes();
    proof {
        encode_utf8_decode_utf8(a@);
        encode_utf8_decode_utf8(b@);
    }
    if x.len() != y.len() {
        return false;
    }
    let mut i: usize = 0;
    while i < x.len()
        invariant
            i <= x@.len(),
            x@.len() == y@.len(),
            x@ == encode_utf8(a@),
            y@ == encode_utf8(b@),
            forall|j: int| 0 <= j < i ==> x@[j] == y@[j],
        decreases x@.len() - i,
    {
        if x[i] != y[i] {
            return false;
        }
        i = i + 1;
    }
    assert(x@ =~= y@);
    true
}

/// Whether a text holds no character.
pub fn is_empty(s: &str) -> (r: bool)
    ensures
        r == (s@.len() == 0),
{
    proof {
        reveal_strlit("");
        assert(s@.len() == 0 ==> s@ =~= ""@);
    }
    same(s, "")
}

/// The characters of a text.
pub fn chars(s: &str) -> (r: Vec<char>)
    ensures
        r@ == s@,
{
    let mut r: Vec<char> = Vec::new();
    for c in it: s.chars()
        invariant
            it.seq() == s@,
            r@ == s@.take(it.index() as int),
    {
        r.push(c);
        assert(s@.take(it.index() + 1) =~= s@.take(it.index() as int).push(c));
    }
    assert(s@.take(s@.len() as int) =~= s@);
    r
}

/// The character is one of ASCII.
pub open spec fn ascii(c: char) -> bool {
    c <= '\x7f'
}

/// The `White_Space` property of a character outside of ASCII.
pub uninterp spec fn wide_whitespace(c: char) -> bool;

/// A character of white space: in ASCII the space and the controls from tab to carriage return,
/// elsewhere what has the `White_Space` property.
pub open spec fn whitespace(c: char) -> bool {
    if ascii(c) {
        c == ' ' || '\t' <= c <= '\r'
    } else {
        wide_whitespace(c)
    }
}

/// `char::is_whitespace`, a function of the character alone: in ASCII the space and the controls
/// from tab to carriage return.
#[verifier::external_body]
fn is_whitespace(c: char) -> (r: bool)
    ensures
        r == (if ascii(c) {
            whitespace(c)
        } else {
            wide_whitespace(c)
        }),
{
    c.is_whitespace()
}

/// The Unicode general categories of numbers hold a character outside of ASCII.
pub uninterp spec fn wide_numeric(c: char) -> bool;

/// A character of numbers: in ASCII the ten digits.
pub open spec fn numeric(c: char) -> bool {
    if ascii(c) {
        '0' <= c <= '9'
    } else {
        wide_numeric(c)
    }
}

/// `char::is_numeric`, a function of the character alone: in ASCII the ten digits.
#[verifier::external_body]
pub(crate) fn is_numeric(c: char) -> (r: bool)
    ensures
        r == (if ascii(c) {
            numeric(c)
        } else {
            wide_numeric(c)
        }),
{
    c.is_numeric()
}

/// The Unicode lowercase of a text with characters outside of ASCII.
pub uninterp spec fn wide_lowercase(s: Seq<char>) -> Seq<char>;

/// The lowercase of a text: that of ASCII where it has no other characters.
pub open spec fn lowercase(s: Seq<char>) -> Seq<char> {
    if forall|i: int| 0 <= i < s.len() ==> ascii(#[trigger] s[i]) {
        lowered(s)
    } else {
        wide_lowercase(s)
    }
}

/// `str::to_lowercase`, a function of the text alone: of a text in ASCII the ASCII lowercase.
#[verifier::external_body]
pub(crate) fn to_lowercase(s: &str) -> (r: String)
    ensures
        r@ == (if forall|i: int| 0 <= i < s@.len() ==> ascii(#[trigger] s@[i]) {
            lowercase(s@)
        } else {
            wide_lowercase(s@)
        }),
{
    s.to_lowercase()
}

/// The text that `String::from_utf8_lossy` makes of bytes that are not UTF-8.
pub uninterp spec fn repaired(bytes: Seq<u8>) -> Seq<char>;

/// The text that bytes hold: what they encode where they are UTF-8.
pub open spec fn lossy(bytes: Seq<u8>) -> Seq<char> {
    if valid_utf8(bytes) {
        decode_utf8(bytes)
    } else {
        repaired(bytes)
    }
}

/// `String::from_utf8_lossy`, a function of the bytes alone: of UTF-8 what it encodes.
#[verifier::external_body]
pub(crate) fn from_utf8_lossy(bytes: &[u8]) -> (r: String)
    ensures
        r@ == (if valid_utf8(bytes@) {
            lossy(bytes@)
        } else {
            repaired(bytes@)
        }),
{
    String::from_utf8_lossy(bytes).into_owned()
}

/// The characters of each of several texts.
pub open spec fn views(s: Seq<String>) -> Seq<Seq<char>> {
    s.map_values(|t: String| t@)
}

/// The ASCII lowercase of one character.
pub open spec fn lower(c: char) -> char {
    if 'A' <= c <= 'Z' {
        ((c as u8) + 32) as char
    } else {
        c
    }
}

/// A text with its ASCII letters in lowercase.
pub open spec fn lowered(s: Seq<char>) -> Seq<char> {
    s.map_values(|c: char| lower(c))
}

/// A text with its ASCII letters in lowercase.
pub fn to_ascii_lowercase(s: &str) -> (r: String)
    ensures
        r@ == lowered(s@),
{
    let cs = chars(s);
    let mut r = String::new();
    let mut i: usize = 0;
    while i < cs.len()
        invariant
            i <= cs@.len(),
            cs@ == s@,
            r@ == lowered(s@).take(i as int),
        decreases cs@.len() - i,
    {
        let c = cs[i];
        let l = if 'A' <= c && c <= 'Z' {
            ((c as u8) + 32) as char
        } else {
            c
        };
        r.push(l);
        assert(lowered(s@).take(i + 1) =~= lowered(s@).take(i as int).push(l));
        i = i + 1;
    }
    assert(lowered(s@).take(i as int) =~= lowered(s@));
    r
}

/// `needle` stands in `hay` at position `i`.
pub open spec fn occurs_at(hay: Seq<char>, needle: Seq<char>, i: int) -> bool {
    0 <= i && i + needle.len() <= hay.len() && hay.subrange(i, i + needle.len()) == needle
}

/// `needle` stands somewhere in `hay`.
pub open spec fn contained(hay: Seq<char>, needle: Seq<char>) -> bool {
    exists|i: int| occurs_at(hay, needle, i)
}

fn at(hay: &[char], needle: &[char], from: usize) -> (r: bool)
    requires
        from + needle@.len() <= hay@.len(),
    ensures
        r == occurs_at(hay@, needle@, from as int),
{
    let size = hay.len();
    let mut j: usize = 0;
    while j < needle.len()
        invariant
            j <= needle@.len(),
            size == hay@.len(),
            from + needle@.len() <= hay@.len(),
            forall|k: int| 0 <= k < j ==> hay@[from + k] == needle@[k],
        decreases needle@.len() - j,
    {
        if hay[from + j] != needle[j] {
            assert(hay@.subrange(from as int, from + needle@.len())[j as int] != needle@[j as int]);
            return false;
        }
        j = j + 1;
    }
    assert(hay@.subrange(from as int, from + needle@.len()) =~= needle@);
    true
}

/// Whether one text stands in another.
pub fn contains(hay: &str, needle: &str) -> (r: bool)
    ensures
        r == contained(hay@, needle@),
{
    let h = chars(hay);
    let n = chars(needle);
    if n.len() > h.len() {
        return false;
    }
    let last = h.len() - n.len();
    let mut i: usize = 0;
    while i <= last
        invariant
            i <= last + 1,
            last == h@.len() - n@.len(),
            h@ == hay@,
            n@ == needle@,
            forall|k: int| 0 <= k < i ==> !occurs_at(hay@, needle@, k),
        decreases last + 1 - i,
    {
        if at(&h, &n, i) {
            return true;
        }
        if i == last {
            return false;
        }
        i = i + 1;
    }
    false
}

/// `s` begins with `p`.
pub open spec fn begins(s: Seq<char>, p: Seq<char>) -> bool {
    p.len() <= s.len() && s.take(p.len() as int) == p
}

/// `s` ends with `p`.
pub open spec fn ends(s: Seq<char>, p: Seq<char>) -> bool {
    p.len() <= s.len() && s.skip(s.len() - p.len()) == p
}

/// Whether a text begins with another.
pub fn starts_with(s: &str, p: &str) -> (r: bool)
    ensures
        r == begins(s@, p@),
{
    let a = chars(s);
    let b = chars(p);
    if b.len() > a.len() {
        return false;
    }
    assert(a@.take(b@.len() as int) =~= a@.subrange(0, b@.len() as int));
    at(&a, &b, 0)
}

/// Whether a text ends with another.
pub fn ends_with(s: &str, p: &str) -> (r: bool)
    ensures
        r == ends(s@, p@),
{
    let a = chars(s);
    let b = chars(p);
    if b.len() > a.len() {
        return false;
    }
    let from = a.len() - b.len();
    assert(a@.skip(from as int) =~= a@.subrange(from as int, from + b@.len()));
    at(&a, &b, from)
}

/// The first `n` characters of a text, or all of it.
pub open spec fn first(s: Seq<char>, n: int) -> Seq<char> {
    if s.len() <= n {
        s
    } else {
        s.take(n)
    }
}

/// The first `n` characters of a text, or all of it.
pub fn take(s: &str, n: usize) -> (r: String)
    ensures
        r@ == first(s@, n as int),
{
    let len = s.unicode_len();
    if len <= n {
        s.to_owned()
    } else {
        assert(s@.subrange(0, n as int) =~= s@.take(n as int));
        s.substring_char(0, n).to_owned()
    }
}

/// What follows a prefix, where the text has it.
pub open spec fn after(s: Seq<char>, p: Seq<char>) -> Option<Seq<char>> {
    if begins(s, p) {
        Some(s.skip(p.len() as int))
    } else {
        None
    }
}

/// What stands before a suffix, where the text has it.
pub open spec fn before(s: Seq<char>, p: Seq<char>) -> Option<Seq<char>> {
    if ends(s, p) {
        Some(s.take(s.len() - p.len()))
    } else {
        None
    }
}

/// The characters of an optional text.
pub open spec fn opt_view(o: Option<String>) -> Option<Seq<char>> {
    match o {
        Some(s) => Some(s@),
        None => None,
    }
}

/// The characters of a text, where there is one.
pub open spec fn str_view(o: Option<&str>) -> Option<Seq<char>> {
    match o {
        Some(s) => Some(s@),
        None => None,
    }
}

/// What follows a prefix, where the text has it.
pub fn strip_prefix(s: &str, p: &str) -> (r: Option<String>)
    ensures
        opt_view(r) == after(s@, p@),
{
    if starts_with(s, p) {
        let n = s.unicode_len();
        let m = p.unicode_len();
        assert(s@.subrange(m as int, n as int) =~= s@.skip(m as int));
        Some(s.substring_char(m, n).to_owned())
    } else {
        None
    }
}

/// What stands before a suffix, where the text has it.
pub fn strip_suffix(s: &str, p: &str) -> (r: Option<String>)
    ensures
        opt_view(r) == before(s@, p@),
{
    if ends_with(s, p) {
        let n = s.unicode_len();
        let m = p.unicode_len();
        assert(s@.subrange(0, n - m) =~= s@.take(n - m));
        Some(s.substring_char(0, n - m).to_owned())
    } else {
        None
    }
}

/// A text without the given character at its end.
pub open spec fn trimmed_end(s: Seq<char>, c: char) -> Seq<char>
    decreases s.len(),
{
    if s.len() > 0 && s.last() == c {
        trimmed_end(s.drop_last(), c)
    } else {
        s
    }
}

/// A text without the given character at its end.
pub fn trim_end_matches(s: &str, c: char) -> (r: String)
    ensures
        r@ == trimmed_end(s@, c),
{
    let cs = chars(s);
    let mut n = cs.len();
    assert(s@.take(n as int) =~= s@);
    while n > 0 && cs[n - 1] == c
        invariant
            n <= cs@.len(),
            cs@ == s@,
            trimmed_end(s@.take(n as int), c) == trimmed_end(s@, c),
        decreases n,
    {
        assert(s@.take(n as int).drop_last() =~= s@.take(n - 1));
        n = n - 1;
    }
    assert(s@.subrange(0, n as int) =~= s@.take(n as int));
    s.substring_char(0, n).to_owned()
}

/// A text without white space at its beginning.
pub open spec fn trimmed_front(s: Seq<char>) -> Seq<char>
    decreases s.len(),
{
    if s.len() > 0 && whitespace(s.first()) {
        trimmed_front(s.drop_first())
    } else {
        s
    }
}

/// A text without white space at its end.
pub open spec fn trimmed_back(s: Seq<char>) -> Seq<char>
    decreases s.len(),
{
    if s.len() > 0 && whitespace(s.last()) {
        trimmed_back(s.drop_last())
    } else {
        s
    }
}

/// A text without white space at either end.
pub open spec fn trimmed(s: Seq<char>) -> Seq<char> {
    trimmed_back(trimmed_front(s))
}

/// A text without white space at either end.
pub fn trim(s: &str) -> (r: String)
    ensures
        r@ == trimmed(s@),
{
    let cs = chars(s);
    let mut a: usize = 0;
    assert(s@.skip(0) =~= s@);
    while a < cs.len() && is_whitespace(cs[a])
        invariant
            a <= cs@.len(),
            cs@ == s@,
            trimmed_front(s@.skip(a as int)) == trimmed_front(s@),
        decreases cs@.len() - a,
    {
        assert(s@.skip(a as int).drop_first() =~= s@.skip(a + 1));
        a = a + 1;
    }
    let mut b = cs.len();
    assert(s@.subrange(a as int, b as int) =~= s@.skip(a as int));
    while b > a && is_whitespace(cs[b - 1])
        invariant
            a <= b <= cs@.len(),
            cs@ == s@,
            trimmed_back(s@.subrange(a as int, b as int)) == trimmed(s@),
        decreases b,
    {
        assert(s@.subrange(a as int, b as int).drop_last() =~= s@.subrange(a as int, b - 1));
        b = b - 1;
    }
    s.substring_char(a, b).to_owned()
}

/// Texts one after another with a separator between them.
pub open spec fn joined(parts: Seq<Seq<char>>, sep: Seq<char>) -> Seq<char>
    decreases parts.len(),
{
    if parts.len() == 0 {
        Seq::empty()
    } else if parts.len() == 1 {
        parts[0]
    } else {
        joined(parts.drop_last(), sep) + sep + parts.last()
    }
}

/// Texts one after another with a separator between them.
pub fn join(parts: &Vec<String>, sep: &str) -> (r: String)
    ensures
        r@ == joined(views(parts@), sep@),
{
    let mut r = String::new();
    let mut i: usize = 0;
    while i < parts.len()
        invariant
            i <= parts@.len(),
            r@ == joined(views(parts@).take(i as int), sep@),
        decreases parts@.len() - i,
    {
        if i > 0 {
            r.append(sep);
        }
        r.append(parts[i].as_str());
        proof {
            let next = views(parts@).take(i + 1);
            assert(next.drop_last() =~= views(parts@).take(i as int));
            assert(next.last() == parts@[i as int]@);
            if i == 0 {
                assert(r@ =~= next[0]);
            }
        }
        i = i + 1;
    }
    assert(views(parts@).take(i as int) =~= views(parts@));
    r
}

/// The pieces of a text between the occurrences of a separating character.
pub open spec fn pieces(s: Seq<char>, c: char) -> Seq<Seq<char>>
    decreases s.len(),
{
    if s.len() == 0 {
        seq![s]
    } else {
        let rest = pieces(s.drop_last(), c);
        if s.last() == c {
            rest.push(Seq::empty())
        } else {
            rest.drop_last().push(rest.last().push(s.last()))
        }
    }
}

/// A text has at least one piece.
pub proof fn pieces_nonempty(s: Seq<char>, c: char)
    ensures
        pieces(s, c).len() > 0,
    decreases s.len(),
{
    if s.len() > 0 {
        pieces_nonempty(s.drop_last(), c);
    }
}

/// The pieces of a text between the occurrences of a separating character.
pub fn split(s: &str, c: char) -> (r: Vec<String>)
    ensures
        views(r@) == pieces(s@, c),
{
    let cs = chars(s);
    let mut r: Vec<String> = Vec::new();
    let mut piece = String::new();
    let mut i: usize = 0;
    assert(s@.take(0) =~= Seq::<char>::empty());
    assert(views(r@).push(piece@) =~= pieces(s@.take(0), c));
    while i < cs.len()
        invariant
            i <= cs@.len(),
            cs@ == s@,
            views(r@).push(piece@) == pieces(s@.take(i as int), c),
        decreases cs@.len() - i,
    {
        let ghost old_r = views(r@);
        let ghost old_piece = piece@;
        proof {
            assert(s@.take(i + 1).drop_last() =~= s@.take(i as int));
            assert(old_r.push(old_piece).drop_last() =~= old_r);
        }
        if cs[i] == c {
            r.push(piece);
            piece = String::new();
            assert(views(r@) =~= old_r.push(old_piece));
        } else {
            piece.push(cs[i]);
        }
        assert(views(r@).push(piece@) =~= pieces(s@.take(i + 1), c));
        i = i + 1;
    }
    assert(s@.take(i as int) =~= s@);
    r.push(piece);
    assert(views(r@) =~= pieces(s@, c));
    r
}

/// The character of a decimal digit.
pub open spec fn digit(d: int) -> char {
    (48 + d) as char
}

/// A natural number in decimal.
pub open spec fn decimal(n: nat) -> Seq<char>
    decreases n,
{
    if n < 10 {
        seq![digit(n as int)]
    } else {
        decimal(n / 10).push(digit((n % 10) as int))
    }
}

/// An integer in decimal, with a minus sign where it is negative.
pub open spec fn signed_decimal(n: int) -> Seq<char> {
    if n < 0 {
        seq!['-'] + decimal((-n) as nat)
    } else {
        decimal(n as nat)
    }
}

/// A natural number in decimal.
pub fn number(n: u64) -> (r: String)
    ensures
        r@ == decimal(n as nat),
    decreases n,
{
    let last = (48 + (n % 10) as u8) as char;
    let mut r = if n < 10 {
        String::new()
    } else {
        number(n / 10)
    };
    r.push(last);
    assert(n < 10 ==> r@ =~= decimal(n as nat));
    r
}

/// An integer in decimal, with a minus sign where it is negative.
pub fn integer(n: i64) -> (r: String)
    ensures
        r@ == signed_decimal(n as int),
{
    if n < 0 {
        let m: u64 = (-(n as i128)) as u64;
        let mut r = String::new();
        r.push('-');
        r.append(number(m).as_str());
        assert(r@ =~= seq!['-'] + decimal(m as nat));
        r
    } else {
        number(n as u64)
    }
}

/// The character of a hexadecimal digit.
pub open spec fn hex_digit(d: int) -> char {
    if d < 10 {
        (48 + d) as char
    } else {
        (87 + d) as char
    }
}

/// The last `width` hexadecimal digits of a natural number, zeros included.
pub open spec fn hex(n: nat, width: nat) -> Seq<char>
    decreases width,
{
    if width == 0 {
        Seq::empty()
    } else {
        hex(n / 16, (width - 1) as nat).push(hex_digit((n % 16) as int))
    }
}

/// The last `width` hexadecimal digits of a natural number, zeros included.
pub fn hexadecimal(n: u128, width: usize) -> (r: String)
    ensures
        r@ == hex(n as nat, width as nat),
    decreases width,
{
    if width == 0 {
        let r = String::new();
        assert(r@ =~= Seq::<char>::empty());
        r
    } else {
        let d = (n % 16) as u8;
        let c = if d < 10 {
            (48 + d) as char
        } else {
            (87 + d) as char
        };
        let mut r = hexadecimal(n / 16, width - 1);
        r.push(c);
        r
    }
}

/// Every character is a decimal digit.
pub open spec fn all_digits(s: Seq<char>) -> bool {
    forall|i: int| 0 <= i < s.len() ==> '0' <= #[trigger] s[i] <= '9'
}

/// The number that decimal digits write.
pub open spec fn digits_value(s: Seq<char>) -> nat
    decreases s.len(),
{
    if s.len() == 0 {
        0
    } else {
        digits_value(s.drop_last()) * 10 + (s.last() as nat - 48) as nat
    }
}

/// The natural number that a text writes: digits, after an optional plus sign.
pub open spec fn unsigned_value(s: Seq<char>) -> Option<nat> {
    let d = if s.len() > 0 && s[0] == '+' {
        s.skip(1)
    } else {
        s
    };
    if d.len() > 0 && all_digits(d) {
        Some(digits_value(d))
    } else {
        None
    }
}

/// The integer that a text writes: digits, after an optional sign.
pub open spec fn signed_value(s: Seq<char>) -> Option<int> {
    if s.len() > 0 && s[0] == '-' {
        if s.len() > 1 && all_digits(s.skip(1)) {
            Some(-(digits_value(s.skip(1)) as int))
        } else {
            None
        }
    } else {
        match unsigned_value(s) {
            Some(n) => Some(n as int),
            None => None,
        }
    }
}

/// The number that digits write from a position on, up to a limit below a quintillion.
fn value_from(cs: &[char], from: usize, limit: u64) -> (r: Option<u64>)
    requires
        from <= cs@.len(),
        limit <= 0x8000_0000_0000_0000,
    ensures
        match r {
            Some(n) => all_digits(cs@.skip(from as int)) && n == digits_value(cs@.skip(from as int))
                && n <= limit,
            None => !all_digits(cs@.skip(from as int)) || digits_value(cs@.skip(from as int))
                > limit,
        },
{
    let ghost d = cs@.skip(from as int);
    let mut n: u64 = 0;
    let mut over = false;
    let mut i = from;
    assert(d.take(0) =~= Seq::<char>::empty());
    while i < cs.len()
        invariant
            from <= i <= cs@.len(),
            d == cs@.skip(from as int),
            limit <= 0x8000_0000_0000_0000,
            forall|k: int| 0 <= k < i - from ==> '0' <= #[trigger] d[k] <= '9',
            !over ==> n == digits_value(d.take(i - from)) && n <= limit,
            over ==> digits_value(d.take(i - from)) > limit,
        decreases cs@.len() - i,
    {
        let c = cs[i];
        assert(c == d[i - from]);
        if c < '0' || '9' < c {
            return None;
        }
        assert(d.take(i + 1 - from).drop_last() =~= d.take(i - from));
        let v = (c as u32 - 48) as u128;
        if !over {
            let m: u128 = n as u128 * 10 + v;
            if m > limit as u128 {
                over = true;
            } else {
                n = m as u64;
            }
        }
        i = i + 1;
    }
    assert(d.take(i - from) =~= d);
    if over {
        None
    } else {
        Some(n)
    }
}

/// The value a text writes, where it fits sixteen bits.
pub fn parse_u16(s: &str) -> (r: Option<u16>)
    ensures
        match r {
            Some(n) => unsigned_value(s@) == Some(n as nat),
            None => match unsigned_value(s@) {
                Some(v) => v > u16::MAX,
                None => true,
            },
        },
{
    let cs = chars(s);
    let from: usize = if cs.len() > 0 && cs[0] == '+' {
        1
    } else {
        0
    };
    assert(from == 0 ==> cs@.skip(0) =~= s@);
    if from == cs.len() {
        return None;
    }
    match value_from(&cs, from, 65535) {
        Some(n) => Some(n as u16),
        None => None,
    }
}

/// The value a text writes, where it fits a signed sixty-four bit integer.
pub fn parse_i64(s: &str) -> (r: Option<i64>)
    ensures
        match r {
            Some(n) => signed_value(s@) == Some(n as int),
            None => match signed_value(s@) {
                Some(v) => v < i64::MIN || v > i64::MAX,
                None => true,
            },
        },
{
    let cs = chars(s);
    let minus = cs.len() > 0 && cs[0] == '-';
    let from: usize = if minus || cs.len() > 0 && cs[0] == '+' {
        1
    } else {
        0
    };
    assert(from == 0 ==> cs@.skip(0) =~= s@);
    if from == cs.len() {
        return None;
    }
    let limit: u64 = if minus {
        0x8000_0000_0000_0000
    } else {
        0x7fff_ffff_ffff_ffff
    };
    match value_from(&cs, from, limit) {
        Some(n) => if minus {
            Some((-(n as i128)) as i64)
        } else {
            Some(n as i64)
        },
        None => None,
    }
}

/// The number of bytes of a text.
pub open spec fn bytes(s: Seq<char>) -> nat {
    encode_utf8(s).len()
}

/// The number of bytes of a text.
pub fn size(s: &str) -> (r: usize)
    ensures
        r == bytes(s@),
{
    s.as_bytes().len()
}

/// Whether a text is among several.
pub fn among(list: &Vec<&String>, s: &str) -> (r: bool)
    ensures
        r == exists|i: int| 0 <= i < list@.len() && (#[trigger] list@[i])@ == s@,
{
    let mut i: usize = 0;
    while i < list.len()
        invariant
            i <= list@.len(),
            forall|k: int| 0 <= k < i ==> (#[trigger] list@[k])@ != s@,
        decreases list@.len() - i,
    {
        if same(list[i].as_str(), s) {
            return true;
        }
        i = i + 1;
    }
    false
}

/// Whether a text holds a character.
pub fn has(s: &str, c: char) -> (r: bool)
    ensures
        r == s@.contains(c),
{
    let cs = chars(s);
    let mut i: usize = 0;
    while i < cs.len()
        invariant
            i <= cs@.len(),
            cs@ == s@,
            forall|k: int| 0 <= k < i ==> s@[k] != c,
        decreases cs@.len() - i,
    {
        if cs[i] == c {
            return true;
        }
        i = i + 1;
    }
    false
}

/// The pieces of a text, put together with the separating character between them, are the text, and no
/// piece holds that character.
pub proof fn pieces_make_up_the_text(s: Seq<char>, c: char)
    ensures
        pieces(s, c).len() > 0,
        joined(pieces(s, c), seq![c]) == s,
        forall|i: int, j: int|
            0 <= i < pieces(s, c).len() && 0 <= j < pieces(s, c)[i].len() ==> #[trigger] pieces(s, c)[i][j]
                != c,
    decreases s.len(),
{
    let sep = seq![c];
    if s.len() > 0 {
        let t = s.drop_last();
        pieces_make_up_the_text(t, c);
        let rest = pieces(t, c);
        let all = pieces(s, c);
        assert(t.push(s.last()) =~= s);
        if s.last() == c {
            assert(all.drop_last() =~= rest);
            assert(joined(all, sep) =~= joined(rest, sep) + sep + Seq::<char>::empty());
            assert(joined(all, sep) =~= s);
        } else {
            let grown = rest.last().push(s.last());
            assert(all.drop_last() =~= rest.drop_last());
            if rest.len() == 1 {
                assert(all[0] == grown);
                assert(joined(all, sep) =~= s);
            } else {
                assert(joined(all, sep) == joined(rest.drop_last(), sep) + sep + grown);
                assert(joined(rest.drop_last(), sep) + sep + grown =~= (joined(rest.drop_last(), sep)
                    + sep + rest.last()).push(s.last()));
            }
            assert forall|i: int, j: int|
                0 <= i < all.len() && 0 <= j < all[i].len() implies #[trigger] all[i][j] != c by {
                if i < rest.len() - 1 {
                    assert(all[i] == rest[i]);
                    assert(rest[i][j] != c);
                } else if j < rest.last().len() {
                    assert(rest[rest.len() - 1][j] != c);
                }
            }
        }
        if s.last() == c {
            assert forall|i: int, j: int|
                0 <= i < all.len() && 0 <= j < all[i].len() implies #[trigger] all[i][j] != c by {
                assert(all[i] == rest[i]);
                assert(rest[i][j] != c);
            }
        }
    }
}

/// A trimmed text is a part of the text around which there is nothing but white space, and it neither
/// begins nor ends with any.
pub proof fn trimming_takes_white_space_away(s: Seq<char>) -> (r: (int, int))
    ensures
        0 <= r.0 <= r.1 <= s.len(),
        trimmed(s) == s.subrange(r.0, r.1),
        forall|i: int| 0 <= i < r.0 || r.1 <= i < s.len() ==> whitespace(#[trigger] s[i]),
        trimmed(s).len() > 0 ==> !whitespace(trimmed(s)[0]) && !whitespace(
            trimmed(s)[trimmed(s).len() - 1],
        ),
{
    let a = front_is_white(s);
    let f = s.skip(a);
    let b = back_is_white(f);
    assert(f.take(b) =~= s.subrange(a, a + b));
    assert forall|i: int| 0 <= i < a || a + b <= i < s.len() implies whitespace(
        #[trigger] s[i],
    ) by {
        if a + b <= i {
            assert(f[i - a] == s[i]);
        }
    }
    if b > 0 {
        assert(f[0] == s[a]);
    }
    (a, a + b)
}

proof fn front_is_white(s: Seq<char>) -> (a: int)
    ensures
        0 <= a <= s.len(),
        trimmed_front(s) == s.skip(a),
        forall|i: int| 0 <= i < a ==> whitespace(#[trigger] s[i]),
        a < s.len() ==> !whitespace(s[a]),
    decreases s.len(),
{
    if s.len() > 0 && whitespace(s.first()) {
        let t = s.drop_first();
        let b = front_is_white(t);
        assert(t.skip(b) =~= s.skip(b + 1));
        assert forall|i: int| 0 <= i < b + 1 implies whitespace(#[trigger] s[i]) by {
            if i > 0 {
                assert(t[i - 1] == s[i]);
            }
        }
        if b < t.len() {
            assert(t[b] == s[b + 1]);
        }
        b + 1
    } else {
        assert(s.skip(0) =~= s);
        0
    }
}

proof fn back_is_white(s: Seq<char>) -> (b: int)
    ensures
        0 <= b <= s.len(),
        trimmed_back(s) == s.take(b),
        forall|i: int| b <= i < s.len() ==> whitespace(#[trigger] s[i]),
        b > 0 ==> !whitespace(s[b - 1]),
    decreases s.len(),
{
    if s.len() > 0 && whitespace(s.last()) {
        let t = s.drop_last();
        let b = back_is_white(t);
        assert(t.take(b) =~= s.take(b));
        assert forall|i: int| b <= i < s.len() implies whitespace(#[trigger] s[i]) by {
            if i < t.len() {
                assert(t[i] == s[i]);
            }
        }
        b
    } else {
        assert(s.take(s.len() as int) =~= s);
        s.len() as int
    }
}

/// White space is the space, the tab, the line feed, the vertical tab, the form feed, the carriage
/// return, and outside of ASCII what counts as such there.
pub proof fn spaces_are_white(c: char)
    requires
        c <= '\x7f',
    ensures
        whitespace(c) <==> c == ' ' || c == '\t' || c == '\n' || c == '\x0b' || c == '\x0c' || c == '\r',
        numeric(c) <==> '0' <= c && c <= '9',
{
}

/// A text without a character at its end is the text up to where nothing else follows, and ends with
/// another one.
pub proof fn ends_are_cut(s: Seq<char>, c: char)
    ensures
        trimmed_end(s, c).len() <= s.len(),
        trimmed_end(s, c) == s.take(trimmed_end(s, c).len() as int),
        forall|i: int| trimmed_end(s, c).len() <= i < s.len() ==> #[trigger] s[i] == c,
        trimmed_end(s, c).len() > 0 ==> trimmed_end(s, c)[trimmed_end(s, c).len() - 1] != c,
    decreases s.len(),
{
    if s.len() > 0 && s.last() == c {
        let t = s.drop_last();
        ends_are_cut(t, c);
        let n = trimmed_end(t, c).len() as int;
        assert(t.take(n) =~= s.take(n));
        assert forall|i: int| n <= i < s.len() implies #[trigger] s[i] == c by {
            if i < t.len() {
                assert(t[i] == s[i]);
            }
        }
    } else {
        assert(s.take(s.len() as int) =~= s);
    }
}

/// Only capital letters of ASCII change, each to the small letter of the same place in the alphabet.
pub proof fn capitals_become_small(c: char)
    ensures
        'A' <= c && c <= 'Z' ==> lower(c) as int - 'a' as int == c as int - 'A' as int,
        !('A' <= c && c <= 'Z') ==> lower(c) == c,
{
}

/// Lowering changes each character on its own.
pub proof fn lowering_goes_by_characters(s: Seq<char>, i: int)
    requires
        0 <= i < s.len(),
    ensures
        lowered(s).len() == s.len(),
        lowered(s)[i] == lower(s[i]),
{
}

/// What follows a prefix is what was put after it, and there is something only after the prefix.
pub proof fn prefixes_are_cut(p: Seq<char>, r: Seq<char>, s: Seq<char>)
    ensures
        after(p + r, p) == Some(r),
        after(s, p) == Some(r) <==> s == p + r,
        before(r + p, p) == Some(r),
        before(s, p) == Some(r) <==> s == r + p,
{
    assert((p + r).take(p.len() as int) =~= p);
    assert((p + r).skip(p.len() as int) =~= r);
    assert((r + p).skip(r.len() as int) =~= p);
    assert((r + p).take(r.len() as int) =~= r);
    if after(s, p) == Some(r) {
        assert(s =~= s.take(p.len() as int) + s.skip(p.len() as int));
    }
    if before(s, p) == Some(r) {
        assert(s =~= s.take(s.len() - p.len()) + s.skip(s.len() - p.len()));
    }
}

/// A text stands in another whatever is put around it, and only where it makes up a part of it.
pub proof fn parts_are_contained(a: Seq<char>, needle: Seq<char>, b: Seq<char>)
    ensures
        contained(a + needle + b, needle),
        needle.len() > a.len() ==> !contained(a, needle),
{
    let hay = a + needle + b;
    assert(hay.subrange(a.len() as int, a.len() as int + needle.len()) =~= needle);
    assert(occurs_at(hay, needle, a.len() as int));
}

/// The place at which a text stands in another splits the other.
pub proof fn contained_parts_split(hay: Seq<char>, needle: Seq<char>) -> (r: (Seq<char>, Seq<char>))
    requires
        contained(hay, needle),
    ensures
        hay == r.0 + needle + r.1,
{
    let i = choose|i: int| occurs_at(hay, needle, i);
    let a = hay.take(i);
    let b = hay.skip(i + needle.len());
    assert(hay =~= a + hay.subrange(i, i + needle.len()) + b);
    (a, b)
}

/// The first characters of a text are the text where it is short enough, and else as many as are asked
/// for.
pub proof fn first_characters(s: Seq<char>, n: int)
    requires
        0 <= n,
    ensures
        first(s, n).len() == (if s.len() < n {
            s.len() as int
        } else {
            n
        }),
        forall|i: int| 0 <= i < first(s, n).len() ==> #[trigger] first(s, n)[i] == s[i],
{
}

/// A number that was written in decimal is read as the number, and only a zero is written with a zero
/// in front.
pub proof fn decimals_are_read_back(n: nat)
    ensures
        all_digits(decimal(n)),
        decimal(n).len() > 0,
        digits_value(decimal(n)) == n,
        n > 0 ==> decimal(n)[0] != '0',
        unsigned_value(decimal(n)) == Some(n),
        unsigned_value(seq!['+'] + decimal(n)) == Some(n),
        signed_value(signed_decimal(n as int)) == Some(n as int),
        signed_value(signed_decimal(-(n as int))) == Some(-(n as int)),
    decreases n,
{
    let d = decimal(n);
    if n >= 10 {
        decimals_are_read_back(n / 10);
        assert(d.drop_last() =~= decimal(n / 10));
        assert(digit((n % 10) as int) as nat == 48 + n % 10);
        assert(d[0] == decimal(n / 10)[0]);
        assert forall|i: int| 0 <= i < d.len() implies '0' <= #[trigger] d[i] <= '9' by {
            if i < d.len() - 1 {
                assert(d[i] == decimal(n / 10)[i]);
            }
        }
    } else {
        assert(digit(n as int) as nat == 48 + n);
        assert(d.drop_last() =~= Seq::<char>::empty());
        assert(digits_value(d.drop_last()) == 0);
        assert(d.last() == digit(n as int));
        assert(digits_value(d) == n);
    }
    assert('0' <= d[0] <= '9');
    let plus = seq!['+'] + d;
    assert(plus.skip(1) =~= d);
    let minus = seq!['-'] + d;
    assert(minus.skip(1) =~= d);
    assert(minus[0] == '-');
}

/// The value of a hexadecimal digit.
pub open spec fn hex_value(c: char) -> int {
    if '0' <= c && c <= '9' {
        c as int - '0' as int
    } else {
        c as int - 'a' as int + 10
    }
}

/// The number that hexadecimal digits write.
pub open spec fn hex_number(s: Seq<char>) -> int
    decreases s.len(),
{
    if s.len() == 0 {
        0
    } else {
        hex_number(s.drop_last()) * 16 + hex_value(s.last())
    }
}

/// A byte in hexadecimal is read as the byte.
pub proof fn bytes_are_read_back(n: u8)
    ensures
        hex(n as nat, 2).len() == 2,
        hex_number(hex(n as nat, 2)) == n,
{
    reveal_with_fuel(hex, 3);
    reveal_with_fuel(hex_number, 3);
    let h = hex(n as nat, 2);
    let a = (n as nat / 16) % 16;
    let b = n as nat % 16;
    assert(hex(n as nat / 16, 1) =~= seq![hex_digit(a as int)]);
    assert(h =~= seq![hex_digit(a as int), hex_digit(b as int)]);
    assert(hex_value(hex_digit(a as int)) == a);
    assert(hex_value(hex_digit(b as int)) == b);
    assert(h.drop_last() =~= seq![hex_digit(a as int)]);
    assert(h.drop_last().drop_last() =~= Seq::<char>::empty());
    assert(hex_number(h.drop_last()) == a);
}

/// What stands before the first separating character is the first piece; a text without one is a piece
/// by itself.
pub proof fn first_pieces(a: Seq<char>, b: Seq<char>, c: char)
    requires
        forall|i: int| 0 <= i < a.len() ==> #[trigger] a[i] != c,
    ensures
        pieces(a, c) == seq![a],
        pieces(a + seq![c] + b, c).len() >= 2,
        pieces(a + seq![c] + b, c)[0] == a,
    decreases b.len(), a.len(),
{
    undivided(a, c);
    let s = a + seq![c] + b;
    if b.len() == 0 {
        assert(s.drop_last() =~= a);
        assert(s.last() == c);
    } else {
        assert(s.drop_last() =~= a + seq![c] + b.drop_last());
        first_pieces(a, b.drop_last(), c);
    }
}

proof fn undivided(a: Seq<char>, c: char)
    requires
        forall|i: int| 0 <= i < a.len() ==> #[trigger] a[i] != c,
    ensures
        pieces(a, c) == seq![a],
    decreases a.len(),
{
    if a.len() > 0 {
        let t = a.drop_last();
        assert(forall|i: int| 0 <= i < t.len() ==> #[trigger] t[i] == a[i]);
        undivided(t, c);
        assert(a[a.len() - 1] != c);
        assert(seq![t].drop_last().push(t.push(a.last())) =~= seq![a]) by {
            assert(t.push(a.last()) =~= a);
        }
    }
}

} // verus!
