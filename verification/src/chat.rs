//! Chat messages, and how they are carried.

use vstd::prelude::*;
use vstd::string::StrSliceExecFns;
use vstd::utf8;
use crate::bytes::copy_bytes;
use crate::text::{self, push_decimal, push_signed_decimal};

verus! {

/// A second is one that a date can be told for: it lies in the years from -262143 to 262142.
pub open spec fn is_date_second(seconds: i64) -> bool {
    -8334601228800 <= seconds <= 8210266876799
}

/// `chrono::DateTime::from_timestamp` gives a date for a number of seconds since the start of 1970,
/// unless the number lies before the first day or after the last day that there is a date for.
#[verifier::external_body]
fn has_date(seconds: i64) -> (r: bool)
    ensures
        r == is_date_second(seconds),
{
    chrono::DateTime::from_timestamp(seconds, 0).is_some()
}

/// A character is white space, as Unicode has it.
pub open spec fn is_white(c: char) -> bool {
    let code = c as int;
    ||| 0x9 <= code <= 0xd
    ||| code == 0x20
    ||| code == 0x85
    ||| code == 0xa0
    ||| code == 0x1680
    ||| 0x2000 <= code <= 0x200a
    ||| 0x2028 <= code <= 0x2029
    ||| code == 0x202f
    ||| code == 0x205f
    ||| code == 0x3000
}

/// `char::is_whitespace` tells whether a character has the Unicode property `White_Space`.
#[verifier::external_body]
fn white(c: char) -> (r: bool)
    ensures
        r == is_white(c),
{
    c.is_whitespace()
}

/// The text that is made of bytes that are not UTF-8.
pub uninterp spec fn lossy_text(bytes: Seq<u8>) -> Seq<char>;

/// `std::string::String::from_utf8_lossy` gives the text of bytes that are UTF-8. It makes a text
/// of other bytes too, in which some characters stand for bytes that are none.
#[verifier::external_body]
fn text_of_bytes(bytes: &[u8]) -> (r: String)
    ensures
        utf8::valid_utf8(bytes@) ==> r@ == utf8::decode_utf8(bytes@),
        !utf8::valid_utf8(bytes@) ==> r@ == lossy_text(bytes@),
{
    String::from_utf8_lossy(bytes).into_owned()
}

/// The text of bytes.
pub open spec fn text_in(bytes: Seq<u8>) -> Seq<char> {
    if utf8::valid_utf8(bytes) {
        utf8::decode_utf8(bytes)
    } else {
        lossy_text(bytes)
    }
}

/// A text without the white space at its start.
pub open spec fn trimmed_start(s: Seq<char>) -> Seq<char>
    decreases s.len(),
{
    if s.len() > 0 && is_white(s[0]) {
        trimmed_start(s.drop_first())
    } else {
        s
    }
}

/// A text without the white space at its end.
pub open spec fn trimmed_end(s: Seq<char>) -> Seq<char>
    decreases s.len(),
{
    if s.len() > 0 && is_white(s.last()) {
        trimmed_end(s.drop_last())
    } else {
        s
    }
}

/// A text without the white space at its start and its end.
pub open spec fn trimmed(s: Seq<char>) -> Seq<char> {
    trimmed_end(trimmed_start(s))
}

/// The part of a text from `from` to `to` without the white space at its start and its end.
fn trim(s: &str, from: usize, to: usize) -> (r: String)
    requires
        from <= to <= s@.len(),
    ensures
        r@ == trimmed(s@.subrange(from as int, to as int)),
{
    let mut start: usize = from;
    let ghost whole = s@.subrange(from as int, to as int);
    while start < to && white(s.get_char(start))
        invariant
            from <= start <= to <= s@.len(),
            trimmed_start(whole) == trimmed_start(s@.subrange(start as int, to as int)),
        decreases to - start,
    {
        assert(s@.subrange(start as int, to as int).drop_first() =~= s@.subrange(
            start + 1,
            to as int,
        ));
        start += 1;
    }
    let ghost rest = s@.subrange(start as int, to as int);
    assert(trimmed_start(whole) == rest);
    let mut end: usize = to;
    while start < end && white(s.get_char(end - 1))
        invariant
            start <= end <= s@.len(),
            trimmed_end(rest) == trimmed_end(s@.subrange(start as int, end as int)),
        decreases end - start,
    {
        assert(s@.subrange(start as int, end as int).drop_last() =~= s@.subrange(
            start as int,
            end - 1,
        ));
        end -= 1;
    }
    s.substring_char(start, end).to_owned()
}

/// Where a text first holds a character, from `from` on.
pub open spec fn find_char(s: Seq<char>, c: char, from: int) -> Option<int>
    decreases s.len() - from,
{
    if from < 0 || from >= s.len() {
        None
    } else if s[from] == c {
        Some(from)
    } else {
        find_char(s, c, from + 1)
    }
}

/// Where a text first holds a closing bracket with a space behind it, from `from` on.
pub open spec fn find_close(s: Seq<char>, from: int) -> Option<int>
    decreases s.len() - from,
{
    if from < 0 || from + 1 >= s.len() {
        None
    } else if s[from] == ']' && s[from + 1] == ' ' {
        Some(from)
    } else {
        find_close(s, from + 1)
    }
}

/// The value of a digit.
pub open spec fn digit_value(c: char) -> Option<nat> {
    if '0' <= c && c <= '9' {
        Some((c as nat - 48) as nat)
    } else {
        None
    }
}

/// The number that digits stand for. No digits stand for zero.
pub open spec fn number_of(s: Seq<char>) -> Option<nat>
    decreases s.len(),
{
    if s.len() == 0 {
        Some(0)
    } else {
        match (number_of(s.drop_last()), digit_value(s.last())) {
            (Some(n), Some(d)) => Some(n * 10 + d),
            _ => None,
        }
    }
}

/// The number that at least one digit stands for, if it is no larger than `limit`.
pub open spec fn number_within(s: Seq<char>, limit: nat) -> Option<nat> {
    match number_of(s) {
        Some(n) => if s.len() > 0 && n <= limit {
            Some(n)
        } else {
            None
        },
        None => None,
    }
}

/// The unsigned number that a text stands for: digits, with a plus sign before them or without.
pub open spec fn unsigned_in(s: Seq<char>) -> Option<nat> {
    if s.len() > 0 && s[0] == '+' {
        number_within(s.drop_first(), u64::MAX as nat)
    } else {
        number_within(s, u64::MAX as nat)
    }
}

/// The signed number that a text stands for: digits, with a sign before them or without.
pub open spec fn signed_in(s: Seq<char>) -> Option<int> {
    if s.len() > 0 && s[0] == '-' {
        match number_within(s.drop_first(), i64::MAX as nat + 1) {
            Some(n) => Some(-(n as int)),
            None => None,
        }
    } else if s.len() > 0 && s[0] == '+' {
        match number_within(s.drop_first(), i64::MAX as nat) {
            Some(n) => Some(n as int),
            None => None,
        }
    } else {
        match number_within(s, i64::MAX as nat) {
            Some(n) => Some(n as int),
            None => None,
        }
    }
}

/// What the text of a message holds.
#[verifier::ext_equal]
pub enum Parsed {
    /// A time, a number, and what was said.
    Full { timestamp: i64, sequence: u64, content: Seq<char> },
    /// Only what was said.
    Plain { content: Seq<char> },
    /// A time or a number that is none.
    Broken,
}

/// What the text of a message holds: `[time:number] what was said`, or only what was said.
pub open spec fn parsed(s: Seq<char>) -> Parsed {
    let plain = Parsed::Plain { content: trimmed(s) };
    if s.len() > 0 && s[0] == '[' {
        match find_close(s, 1) {
            None => plain,
            Some(close) => {
                let meta = s.subrange(1, close);
                match find_char(meta, ':', 0) {
                    None => plain,
                    Some(colon) => match (
                        signed_in(meta.take(colon)),
                        unsigned_in(meta.skip(colon + 1)),
                    ) {
                        (Some(timestamp), Some(sequence)) => if is_date_second(timestamp as i64) {
                            Parsed::Full {
                                timestamp: timestamp as i64,
                                sequence: sequence as u64,
                                content: trimmed(s.subrange(close + 2, s.len() as int)),
                            }
                        } else {
                            Parsed::Broken
                        },
                        _ => Parsed::Broken,
                    },
                }
            },
        }
    } else {
        plain
    }
}

/// The number that at least one digit in a part of a text stands for, if it is no larger than
/// `limit`.
fn read_number(s: &str, from: usize, to: usize, limit: u64) -> (r: Option<u64>)
    requires
        from <= to <= s@.len(),
        limit >= 9,
    ensures
        match r {
            Some(n) => number_within(s@.subrange(from as int, to as int), limit as nat) == Some(
                n as nat,
            ),
            None => number_within(s@.subrange(from as int, to as int), limit as nat) is None,
        },
{
    let ghost whole = s@.subrange(from as int, to as int);
    if from == to {
        return None;
    }
    let mut n: u64 = 0;
    let mut i: usize = from;
    assert(whole.take(0) =~= seq![]);
    while i < to
        invariant
            from <= i <= to <= s@.len(),
            from < to,
            whole == s@.subrange(from as int, to as int),
            number_of(whole.take(i - from)) == Some(n as nat),
            n <= limit,
            limit >= 9,
        decreases to - i,
    {
        let c: char = s.get_char(i);
        let ghost next = whole.take(i + 1 - from);
        assert(next.drop_last() =~= whole.take(i - from));
        assert(next.last() == c);
        if c < '0' || '9' < c {
            proof {
                lemma_number_fails(whole, i + 1 - from);
            }
            return None;
        }
        let d: u64 = (c as u64) - 48;
        if n > limit / 10 || n * 10 > limit - d {
            proof {
                lemma_number_grows(whole, i + 1 - from);
            }
            return None;
        }
        n = n * 10 + d;
        i += 1;
    }
    assert(whole.take(i - from) =~= whole);
    Some(n)
}

proof fn lemma_number_fails(s: Seq<char>, m: int)
    requires
        0 <= m <= s.len(),
        number_of(s.take(m)) is None,
    ensures
        number_of(s) is None,
    decreases s.len() - m,
{
    if m < s.len() {
        assert(s.take(m + 1).drop_last() =~= s.take(m));
        lemma_number_fails(s, m + 1);
    } else {
        assert(s.take(m) =~= s);
    }
}

proof fn lemma_number_grows(s: Seq<char>, m: int)
    requires
        0 <= m <= s.len(),
        number_of(s.take(m)) is Some,
    ensures
        number_of(s) is Some ==> number_of(s)->0 >= number_of(s.take(m))->0,
    decreases s.len() - m,
{
    if m < s.len() {
        assert(s.take(m + 1).drop_last() =~= s.take(m));
        if number_of(s.take(m + 1)) is Some {
            lemma_number_grows(s, m + 1);
        } else {
            lemma_number_fails(s, m + 1);
        }
    } else {
        assert(s.take(m) =~= s);
    }
}

/// The unsigned number that a part of a text stands for.
fn read_unsigned(s: &str, from: usize, to: usize) -> (r: Option<u64>)
    requires
        from <= to <= s@.len(),
    ensures
        match r {
            Some(n) => unsigned_in(s@.subrange(from as int, to as int)) == Some(n as nat),
            None => unsigned_in(s@.subrange(from as int, to as int)) is None,
        },
{
    let ghost whole = s@.subrange(from as int, to as int);
    if from < to && s.get_char(from) == '+' {
        assert(whole.drop_first() =~= s@.subrange(from + 1, to as int));
        read_number(s, from + 1, to, u64::MAX)
    } else {
        read_number(s, from, to, u64::MAX)
    }
}

/// The signed number that a part of a text stands for.
fn read_signed(s: &str, from: usize, to: usize) -> (r: Option<i64>)
    requires
        from <= to <= s@.len(),
    ensures
        match r {
            Some(n) => signed_in(s@.subrange(from as int, to as int)) == Some(n as int),
            None => signed_in(s@.subrange(from as int, to as int)) is None,
        },
{
    let ghost whole = s@.subrange(from as int, to as int);
    if from < to && s.get_char(from) == '-' {
        assert(whole.drop_first() =~= s@.subrange(from + 1, to as int));
        match read_number(s, from + 1, to, 0x8000_0000_0000_0000) {
            Some(n) => if n == 0x8000_0000_0000_0000 {
                Some(i64::MIN)
            } else {
                Some(-(n as i64))
            },
            None => None,
        }
    } else if from < to && s.get_char(from) == '+' {
        assert(whole.drop_first() =~= s@.subrange(from + 1, to as int));
        match read_number(s, from + 1, to, 0x7fff_ffff_ffff_ffff) {
            Some(n) => Some(n as i64),
            None => None,
        }
    } else {
        match read_number(s, from, to, 0x7fff_ffff_ffff_ffff) {
            Some(n) => Some(n as i64),
            None => None,
        }
    }
}

/// A chat message.
#[derive(Debug)]
pub struct ChatMessage {
    /// When it was said, in seconds since the start of 1970.
    pub timestamp: i64,
    pub sequence: u64,
    pub user_id: String,
    pub username: String,
    pub content: String,
}

/// A chat message.
#[verifier::ext_equal]
pub struct ChatMessageView {
    pub timestamp: i64,
    pub sequence: u64,
    pub user_id: Seq<char>,
    pub username: Seq<char>,
    pub content: Seq<char>,
}

impl View for ChatMessage {
    type V = ChatMessageView;

    open spec fn view(&self) -> ChatMessageView {
        ChatMessageView {
            timestamp: self.timestamp,
            sequence: self.sequence,
            user_id: self.user_id@,
            username: self.username@,
            content: self.content@,
        }
    }
}

/// The text of a message.
pub open spec fn message_text(timestamp: i64, sequence: u64, content: Seq<char>) -> Seq<char> {
    "["@ + text::signed_decimal(timestamp as int) + ":"@ + text::decimal(sequence as nat) + "] "@
        + content + "\n"@
}

/// The seconds since midnight.
pub open spec fn second_of_day(timestamp: i64) -> int {
    (timestamp as int) % 86400
}

/// A number below a hundred in two digits.
pub open spec fn two_digits(n: int) -> Seq<char> {
    text::decimal((n / 10) as nat) + text::decimal((n % 10) as nat)
}

/// The time of day, as a message is shown with.
pub open spec fn clock_text(timestamp: i64) -> Seq<char> {
    let s = second_of_day(timestamp);
    two_digits(s / 3600) + ":"@ + two_digits((s / 60) % 60) + ":"@ + two_digits(s % 60)
}

fn push_two_digits(out: &mut String, n: u64)
    requires
        n < 100,
    ensures
        final(out)@ == old(out)@ + two_digits(n as int),
{
    let ghost before = out@;
    push_decimal(out, n / 10);
    push_decimal(out, n % 10);
    assert(out@ =~= before + two_digits(n as int));
}

/// The seconds since midnight.
fn seconds_of(timestamp: i64) -> (r: u64)
    ensures
        r == second_of_day(timestamp),
        r < 86400,
{
    if timestamp >= 0 {
        (timestamp % 86400) as u64
    } else {
        (86399 - (-(timestamp + 1)) % 86400) as u64
    }
}

fn push_clock(out: &mut String, timestamp: i64)
    ensures
        final(out)@ == old(out)@ + clock_text(timestamp),
{
    let ghost before = out@;
    let second: u64 = seconds_of(timestamp);
    push_two_digits(out, second / 3600);
    out.append(":");
    push_two_digits(out, (second / 60) % 60);
    out.append(":");
    push_two_digits(out, second % 60);
    assert(out@ =~= before + clock_text(timestamp));
}

impl ChatMessage {
    /// A message that is said now.
    pub fn new(user_id: &str, username: &str, content: String, now: i64) -> (r: Self)
        ensures
            r@ == (ChatMessageView {
                timestamp: now,
                sequence: 0,
                user_id: user_id@,
                username: username@,
                content: content@,
            }),
    {
        ChatMessage {
            timestamp: now,
            sequence: 0,
            user_id: user_id.to_owned(),
            username: username.to_owned(),
            content,
        }
    }

    /// The bytes that carry the message.
    pub fn encode(&self) -> (r: Vec<u8>)
        ensures
            r@ == utf8::encode_utf8(message_text(self.timestamp, self.sequence, self.content@)),
    {
        let mut out: String = "[".to_owned();
        push_signed_decimal(&mut out, self.timestamp);
        out.append(":");
        push_decimal(&mut out, self.sequence);
        out.append("] ");
        out.append(self.content.as_str());
        out.append("\n");
        assert(out@ =~= message_text(self.timestamp, self.sequence, self.content@));
        copy_bytes(out.as_str().as_bytes())
    }

    /// The message that bytes carry. If they carry only what was said, it is taken to be said now.
    /// `None` if they carry a time or a number that is none.
    pub fn decode(user_id: &str, username: &str, data: &[u8], now: i64) -> (r: Option<Self>)
        ensures
            match r {
                Some(message) => message@ == (ChatMessageView {
                    timestamp: match parsed(text_in(data@)) {
                        Parsed::Full { timestamp, sequence, content } => timestamp,
                        _ => now,
                    },
                    sequence: match parsed(text_in(data@)) {
                        Parsed::Full { timestamp, sequence, content } => sequence,
                        _ => 0,
                    },
                    user_id: user_id@,
                    username: username@,
                    content: match parsed(text_in(data@)) {
                        Parsed::Full { timestamp, sequence, content } => content,
                        Parsed::Plain { content } => content,
                        Parsed::Broken => message@.content,
                    },
                }) && !(parsed(text_in(data@)) is Broken),
                None => parsed(text_in(data@)) is Broken,
            },
    {
        let owned: String = text_of_bytes(data);
        let s: &str = owned.as_str();
        assert(s@ == text_in(data@));
        let n: usize = s.unicode_len();
        let (timestamp, sequence, content): (i64, u64, String) = match split(s) {
            Split::Plain => (now, 0, trim_all(s, n)),
            Split::Parts(colon, close) => {
                let ghost meta = s@.subrange(1, close as int);
                assert(meta.take(colon - 1) =~= s@.subrange(1, colon as int));
                assert(meta.skip(colon as int) =~= s@.subrange(colon + 1, close as int));
                let timestamp: i64 = read_signed(s, 1, colon)?;
                let sequence: u64 = read_unsigned(s, colon + 1, close)?;
                if !has_date(timestamp) {
                    return None;
                }
                (timestamp, sequence, trim(s, close + 2, n))
            },
        };
        Some(
            ChatMessage {
                timestamp,
                sequence,
                user_id: user_id.to_owned(),
                username: username.to_owned(),
                content,
            },
        )
    }

    /// The message as it is shown.
    pub fn display(&self) -> (r: String)
        ensures
            r@ == "["@ + clock_text(self.timestamp) + "] "@ + self.username@ + ": "@
                + self.content@,
    {
        let mut out: String = "[".to_owned();
        push_clock(&mut out, self.timestamp);
        out.append("] ");
        out.append(self.username.as_str());
        out.append(": ");
        out.append(self.content.as_str());
        out
    }
}

/// How a text splits.
enum Split {
    Plain,
    /// The place of the colon and of the closing bracket.
    Parts(usize, usize),
}

fn trim_all(s: &str, n: usize) -> (r: String)
    requires
        n == s@.len(),
    ensures
        r@ == trimmed(s@),
{
    assert(s@.subrange(0, n as int) =~= s@);
    trim(s, 0, n)
}

/// Finds the colon and the closing bracket of the text of a message.
fn split(s: &str) -> (r: Split)
    ensures
        match r {
            Split::Plain => parsed(s@) == (Parsed::Plain { content: trimmed(s@) }),
            Split::Parts(colon, close) => {
                &&& 1 <= colon < close
                &&& close + 2 <= s@.len() <= usize::MAX
                &&& s@[0] == '['
                &&& find_close(s@, 1) == Some(close as int)
                &&& find_char(s@.subrange(1, close as int), ':', 0) == Some(colon - 1)
            },
        },
{
    let n: usize = s.unicode_len();
    if n == 0 || s.get_char(0) != '[' {
        return Split::Plain;
    }
    let mut close: usize = 1;
    while n - close > 1 && !closes(s, close)
        invariant
            1 <= close <= n,
            n == s@.len(),
            find_close(s@, 1) == find_close(s@, close as int),
        decreases n - close,
    {
        close += 1;
    }
    if n - close <= 1 {
        return Split::Plain;
    }
    let ghost meta = s@.subrange(1, close as int);
    let mut colon: usize = 1;
    while colon < close && s.get_char(colon) != ':'
        invariant
            1 <= colon <= close,
            close + 1 < n,
            n == s@.len(),
            meta == s@.subrange(1, close as int),
            find_char(meta, ':', 0) == find_char(meta, ':', colon - 1),
        decreases close - colon,
    {
        colon += 1;
    }
    if colon == close {
        return Split::Plain;
    }
    Split::Parts(colon, close)
}

fn closes(s: &str, at: usize) -> (r: bool)
    requires
        at + 1 < s@.len() <= usize::MAX,
    ensures
        r == (s@[at as int] == ']' && s@[at + 1] == ' '),
{
    s.get_char(at) == ']' && s.get_char(at + 1) == ' '
}

/// Where the characters before `at` are none of `c`, a text holds it first at `at`.
proof fn lemma_find_char(s: Seq<char>, c: char, from: int, at: int)
    requires
        0 <= from <= at < s.len(),
        s[at] == c,
        forall|k: int| from <= k < at ==> s[k] != c,
    ensures
        find_char(s, c, from) == Some(at),
    decreases at - from,
{
    if from < at {
        lemma_find_char(s, c, from + 1, at);
    }
}

proof fn lemma_find_close(s: Seq<char>, from: int, at: int)
    requires
        0 <= from <= at,
        at + 1 < s.len(),
        s[at] == ']',
        s[at + 1] == ' ',
        forall|k: int| from <= k < at ==> s[k] != ']',
    ensures
        find_close(s, from) == Some(at),
    decreases at - from,
{
    if from < at {
        lemma_find_close(s, from + 1, at);
    }
}

/// The digits of a number stand for it.
proof fn lemma_decimal_reads_back(n: nat)
    ensures
        number_of(text::decimal(n)) == Some(n),
        text::decimal(n).len() > 0,
        forall|k: int|
            0 <= k < text::decimal(n).len() ==> '0' <= #[trigger] text::decimal(n)[k]
                && text::decimal(n)[k] <= '9',
    decreases n,
{
    let s = text::decimal(n);
    let last = (n % 10) as int;
    assert(text::digit_char(last) as int == 48 + last);
    if n < 10 {
        assert(s.drop_last() =~= seq![]);
        assert(s.last() == text::digit_char(n as int));
        assert(number_of(s.drop_last()) == Some(0nat));
    } else {
        lemma_decimal_reads_back(n / 10);
        assert(s.drop_last() =~= text::decimal(n / 10));
        assert(s.last() == text::digit_char(last));
        assert forall|k: int| 0 <= k < s.len() implies '0' <= #[trigger] s[k] && s[k] <= '9' by {
            if k < s.len() - 1 {
                assert(s[k] == text::decimal(n / 10)[k]);
            }
        }
    }
}

proof fn lemma_signed_reads_back(n: i64)
    ensures
        signed_in(text::signed_decimal(n as int)) == Some(n as int),
        forall|k: int|
            0 <= k < text::signed_decimal(n as int).len() ==> #[trigger] text::signed_decimal(
                n as int,
            )[k] != ':' && text::signed_decimal(n as int)[k] != ']',
{
    let s = text::signed_decimal(n as int);
    if n < 0 {
        let digits = text::decimal((-n) as nat);
        lemma_decimal_reads_back((-n) as nat);
        assert(s.drop_first() =~= digits);
        assert forall|k: int| 0 <= k < s.len() implies #[trigger] s[k] != ':' && s[k] != ']' by {
            if k > 0 {
                assert(s[k] == digits[k - 1]);
            }
        }
    } else {
        lemma_decimal_reads_back(n as nat);
        assert(s[0] != '-' && s[0] != '+');
    }
}

proof fn lemma_unsigned_reads_back(n: u64)
    ensures
        unsigned_in(text::decimal(n as nat)) == Some(n as nat),
{
    lemma_decimal_reads_back(n as nat);
    assert(text::decimal(n as nat)[0] != '+');
}

/// What is said reads back, with its time and its number. White space around it is dropped, with
/// the end of the line. A time that no date can be told for is refused.
pub proof fn law_message_round_trip(timestamp: i64, sequence: u64, content: Seq<char>)
    ensures
        parsed(text_in(utf8::encode_utf8(message_text(timestamp, sequence, content)))) == (
        if is_date_second(timestamp) {
            Parsed::Full { timestamp, sequence, content: trimmed(content + "\n"@) }
        } else {
            Parsed::Broken
        }),
{
    let s = message_text(timestamp, sequence, content);
    utf8::encode_utf8_valid_utf8(s);
    utf8::encode_utf8_decode_utf8(s);
    reveal_strlit("[");
    reveal_strlit(":");
    reveal_strlit("] ");
    let time = text::signed_decimal(timestamp as int);
    let number = text::decimal(sequence as nat);
    lemma_signed_reads_back(timestamp);
    lemma_decimal_reads_back(sequence as nat);
    lemma_unsigned_reads_back(sequence);
    let colon = time.len() as int;
    let close = 1 + colon + 1 + number.len() as int;
    let meta = time + seq![':'] + number;
    assert("["@ =~= seq!['[']);
    assert(":"@ =~= seq![':']);
    assert("] "@ =~= seq![']', ' ']);
    assert(s =~= seq!['['] + meta + seq![']', ' '] + (content + "\n"@));
    assert forall|k: int| 1 <= k < close implies s[k] != ']' by {
        assert(s[k] == meta[k - 1]);
        if k - 1 < colon {
            assert(meta[k - 1] == time[k - 1]);
        } else if k - 1 > colon {
            assert(meta[k - 1] == number[k - 2 - colon]);
        }
    }
    lemma_find_close(s, 1, close);
    assert(s.subrange(1, close) =~= meta);
    assert forall|k: int| 0 <= k < colon implies meta[k] != ':' by {
        assert(meta[k] == time[k]);
    }
    lemma_find_char(meta, ':', 0, colon);
    assert(meta.take(colon) =~= time);
    assert(meta.skip(colon + 1) =~= number);
    assert(s.subrange(close + 2, s.len() as int) =~= content + "\n"@);
}

/// The counter of a publisher that sends each message in a stream of its own. A message that
/// cannot be sent uses up its number.
#[derive(Debug, Clone, Copy, PartialEq, Eq, Structural)]
pub struct StreamSequence {
    pub sequence: u64,
}

impl StreamSequence {
    /// No message was sent.
    pub fn new() -> (r: Self)
        ensures
            r.sequence == 0,
    {
        StreamSequence { sequence: 0 }
    }

    /// The number of the next message, which is used up.
    pub fn publish(&mut self) -> (r: u64)
        requires
            old(self).sequence < u64::MAX,
        ensures
            r == old(self).sequence,
            final(self).sequence == old(self).sequence + 1,
    {
        let sequence: u64 = self.sequence;
        self.sequence = self.sequence + 1;
        sequence
    }
}

/// The counters of a publisher that sends messages in datagrams, each in a group of its own. A
/// message that cannot be sent does not use up its number.
#[derive(Debug, Clone, Copy, PartialEq, Eq, Structural)]
pub struct DatagramSequence {
    pub sequence: u64,
    pub group_id: u64,
}

impl DatagramSequence {
    /// No message was sent.
    pub fn new() -> (r: Self)
        ensures
            r == (DatagramSequence { sequence: 0, group_id: 0 }),
    {
        DatagramSequence { sequence: 0, group_id: 0 }
    }

    /// Notes whether the message with the current numbers was sent.
    pub fn publish(&mut self, sent: bool)
        requires
            old(self).sequence < u64::MAX,
            old(self).group_id < u64::MAX,
        ensures
            *final(self) == (if sent {
                DatagramSequence {
                    sequence: (old(self).sequence + 1) as u64,
                    group_id: (old(self).group_id + 1) as u64,
                }
            } else {
                *old(self)
            }),
    {
        if sent {
            self.sequence = self.sequence + 1;
            self.group_id = self.group_id + 1;
        }
    }
}

/// Whether a line holds something to be said.
pub fn is_said(line: &str) -> (r: bool)
    ensures
        r == (trimmed(line@).len() > 0),
{
    let said: String = trim_all(line, line.unicode_len());
    !said.as_str().is_empty()
}

/// The namespace of the users of a session.
pub fn chat_namespace(session: &str) -> (r: String)
    ensures
        r@ == "chat/"@ + session@,
{
    let mut out: String = "chat/".to_owned();
    out.append(session);
    out
}

/// The track of a user under the namespace of the session.
pub fn user_track(user_id: &str) -> (r: String)
    ensures
        r@ == user_id@ + "/text"@,
{
    let mut out: String = user_id.to_owned();
    out.append("/text");
    out
}

/// The namespace of a user.
pub fn user_namespace(session: &str, user_id: &str) -> (r: String)
    ensures
        r@ == "chat/"@ + session@ + "/"@ + user_id@,
{
    let mut out: String = chat_namespace(session);
    out.append("/");
    out.append(user_id);
    out
}

/// The name of a user that gave none.
pub fn default_username(user_id: &str) -> (r: String)
    requires
        user_id@.len() >= 4,
    ensures
        r@ == "user-"@ + user_id@.take(4),
{
    let mut out: String = "user-".to_owned();
    out.append(user_id.substring_char(0, 4));
    assert(user_id@.subrange(0, 4) =~= user_id@.take(4));
    out
}

/// The namespace of a user lies under the namespace of the session.
pub proof fn law_user_is_in_session(session: Seq<char>, user_id: Seq<char>)
    ensures
        ("chat/"@ + session).is_prefix_of("chat/"@ + session + "/"@ + user_id),
{
    assert(("chat/"@ + session + "/"@ + user_id).subrange(0, ("chat/"@ + session).len() as int)
        =~= "chat/"@ + session);
}

/// Trimming takes white space off both ends of a text and nothing else.
pub proof fn law_trimming_takes_white_space_off_the_ends(s: Seq<char>)
    ensures
        exists|a: Seq<char>, b: Seq<char>|
            s == #[trigger] (a + trimmed(s) + b) && (forall|i: int|
                0 <= i < a.len() ==> is_white(#[trigger] a[i])) && (forall|i: int|
                0 <= i < b.len() ==> is_white(#[trigger] b[i])),
        trimmed(s).len() > 0 ==> !is_white(trimmed(s)[0]) && !is_white(trimmed(s).last()),
{
    lemma_trimmed_start(s);
    let rest = trimmed_start(s);
    lemma_trimmed_end(rest);
    let kept = trimmed(s);
    let a = s.take(s.len() - rest.len());
    let b = rest.skip(kept.len() as int);
    assert(s =~= a + kept + b);
}

proof fn lemma_trimmed_start(s: Seq<char>)
    ensures
        trimmed_start(s).len() <= s.len(),
        s.skip(s.len() - trimmed_start(s).len()) == trimmed_start(s),
        forall|i: int| 0 <= i < s.len() - trimmed_start(s).len() ==> is_white(#[trigger] s[i]),
        trimmed_start(s).len() > 0 ==> !is_white(trimmed_start(s)[0]),
    decreases s.len(),
{
    if s.len() > 0 && is_white(s[0]) {
        let rest = s.drop_first();
        lemma_trimmed_start(rest);
        let n = s.len() - trimmed_start(s).len();
        assert(s.skip(n) =~= rest.skip(n - 1));
        assert forall|i: int| 0 <= i < n implies is_white(#[trigger] s[i]) by {
            if i > 0 {
                assert(rest[i - 1] == s[i]);
            }
        }
    } else {
        assert(s.skip(0) =~= s);
    }
}

proof fn lemma_trimmed_end(s: Seq<char>)
    ensures
        trimmed_end(s).len() <= s.len(),
        s.take(trimmed_end(s).len() as int) == trimmed_end(s),
        forall|i: int| trimmed_end(s).len() <= i < s.len() ==> is_white(#[trigger] s[i]),
        trimmed_end(s).len() > 0 ==> !is_white(trimmed_end(s).last()),
    decreases s.len(),
{
    if s.len() > 0 && is_white(s.last()) {
        let rest = s.drop_last();
        lemma_trimmed_end(rest);
        assert(s.take(trimmed_end(s).len() as int) =~= rest.take(trimmed_end(s).len() as int));
        assert forall|i: int| trimmed_end(s).len() <= i < s.len() implies is_white(
            #[trigger] s[i],
        ) by {
            if i < rest.len() {
                assert(rest[i] == s[i]);
            }
        }
    } else {
        assert(s.take(s.len() as int) =~= s);
    }
}

/// Among the characters of ASCII, white space is the space and what moves it along: tabs, line
/// feeds, form feeds and carriage returns.
pub proof fn law_spaces_and_line_ends_are_white(c: char)
    requires
        (c as int) < 128,
    ensures
        is_white(c) <==> c == ' ' || c == '\t' || c == '\n' || c == '\r' || c as int == 11 || c as int
            == 12,
{
}

/// A character is found where the text first holds it.
pub proof fn law_first_character_is_found(s: Seq<char>, c: char, from: int)
    requires
        0 <= from,
    ensures
        match find_char(s, c, from) {
            Some(at) => from <= at < s.len() && s[at] == c && forall|i: int|
                from <= i < at ==> #[trigger] s[i] != c,
            None => forall|i: int| from <= i < s.len() ==> #[trigger] s[i] != c,
        },
    decreases s.len() - from,
{
    if from < s.len() && s[from] != c {
        law_first_character_is_found(s, c, from + 1);
    }
}

/// A bracket closes where the text first holds one with a space behind it.
pub proof fn law_first_close_is_found(s: Seq<char>, from: int)
    requires
        0 <= from,
    ensures
        match find_close(s, from) {
            Some(at) => from <= at && at + 1 < s.len() && s[at] == ']' && s[at + 1] == ' '
                && forall|i: int|
                from <= i < at ==> !(#[trigger] s[i] == ']' && s[i + 1] == ' '),
            None => forall|i: int|
                from <= i && i + 1 < s.len() ==> !(#[trigger] s[i] == ']' && s[i + 1] == ' '),
        },
    decreases s.len() - from,
{
    if from + 1 < s.len() && !(s[from] == ']' && s[from + 1] == ' ') {
        law_first_close_is_found(s, from + 1);
    }
}

/// A number reads back from its digits, with a sign before them or without, as long as it fits. One
/// that does not fit is no number, nor is a sign alone.
pub proof fn law_numbers_read_back(n: nat)
    ensures
        unsigned_in(text::decimal(n)) == unsigned_in(seq!['+'] + text::decimal(n)),
        unsigned_in(text::decimal(n)) == if n <= u64::MAX {
            Some(n)
        } else {
            None
        },
        signed_in(text::decimal(n)) == signed_in(seq!['+'] + text::decimal(n)),
        signed_in(text::decimal(n)) == if n <= i64::MAX {
            Some(n as int)
        } else {
            None
        },
        signed_in(seq!['-'] + text::decimal(n)) == if n <= i64::MAX + 1 {
            Some(-(n as int))
        } else {
            None
        },
        unsigned_in(seq!['-'] + text::decimal(n)) is None,
        unsigned_in(Seq::empty()) is None && signed_in(Seq::empty()) is None,
        signed_in(seq!['-']) is None && signed_in(seq!['+']) is None && unsigned_in(seq!['+']) is None,
{
    let digits = text::decimal(n);
    lemma_decimal_reads_back(n);
    assert((seq!['+'] + digits).drop_first() =~= digits);
    assert((seq!['-'] + digits).drop_first() =~= digits);
    assert(digits[0] != '+' && digits[0] != '-');
    law_only_digits_are_numbers(seq!['-'] + digits, 0);
    assert(seq!['-'].drop_first() =~= Seq::<char>::empty());
    assert(seq!['+'].drop_first() =~= Seq::<char>::empty());
}

/// A text that holds anything but digits stands for no number.
pub proof fn law_only_digits_are_numbers(s: Seq<char>, i: int)
    requires
        0 <= i < s.len(),
        !('0' <= s[i] && s[i] <= '9'),
    ensures
        number_of(s) is None,
        i > 0 ==> unsigned_in(s) is None && signed_in(s) is None,
    decreases s.len(),
{
    let rest = s.drop_last();
    if i < rest.len() {
        assert(rest[i] == s[i]);
        law_only_digits_are_numbers(rest, i);
    }
    if i > 0 {
        let behind = s.drop_first();
        assert(behind[i - 1] == s[i]);
        law_only_digits_are_numbers(behind, i - 1);
    }
}

/// A text that begins with no bracket, or with one that never closes, or that holds no colon inside
/// it, is all said. One with anything but two numbers inside the brackets is refused.
pub proof fn law_texts_without_a_head_are_all_said(s: Seq<char>)
    ensures
        s.len() == 0 || s[0] != '[' ==> parsed(s) == (Parsed::Plain { content: trimmed(s) }),
        (forall|i: int| 1 <= i && i + 1 < s.len() ==> !(#[trigger] s[i] == ']' && s[i + 1] == ' '))
            ==> parsed(s) == (Parsed::Plain { content: trimmed(s) }),
        (forall|i: int| 0 <= i < s.len() ==> #[trigger] s[i] != ':') ==> parsed(s) == (
        Parsed::Plain { content: trimmed(s) }),
        parsed(s) matches Parsed::Full { timestamp, sequence, content } ==> exists|
            colon: int,
            close: int,
        |
            0 < colon < close && close + 2 <= s.len() && s[0] == '[' && #[trigger] s[colon] == ':'
                && #[trigger] s[close] == ']' && s[close + 1] == ' ' && signed_in(
                s.subrange(1, colon),
            ) == Some(timestamp as int) && unsigned_in(s.subrange(colon + 1, close)) == Some(
                sequence as nat,
            ) && content == trimmed(s.skip(close + 2)),
{
    law_first_close_is_found(s, 1);
    if s.len() > 0 && s[0] == '[' {
        match find_close(s, 1) {
            Some(close) => {
                let meta = s.subrange(1, close);
                law_first_character_is_found(meta, ':', 0);
                match find_char(meta, ':', 0) {
                    Some(at) => {
                        assert(meta[at] == s[at + 1]);
                        assert(meta.take(at) =~= s.subrange(1, at + 1));
                        assert(meta.skip(at + 1) =~= s.subrange(at + 2, close));
                        assert(s.subrange(close + 2, s.len() as int) =~= s.skip(close + 2));
                        assert(s[close] == ']');
                        lemma_numbers_fit(meta.take(at), meta.skip(at + 1));
                    },
                    None => {},
                }
            },
            None => {},
        }
    }
}

proof fn lemma_numbers_fit(time: Seq<char>, number: Seq<char>)
    ensures
        signed_in(time) matches Some(n) ==> i64::MIN <= n <= i64::MAX,
        unsigned_in(number) matches Some(n) ==> n <= u64::MAX,
{
}

/// The days from the first of January of the year one to that of another year.
pub open spec fn days_before_year(year: int) -> int {
    365 * (year - 1) + (year - 1) / 4 - (year - 1) / 100 + (year - 1) / 400
}

/// Dates are told from the first second of the year -262143 to the last one of the year 262142.
pub proof fn law_dates_are_told_for_whole_years(seconds: i64)
    ensures
        is_date_second(seconds) <==> (days_before_year(-262143) - days_before_year(1970)) * 86400
            <= seconds < (days_before_year(262143) - days_before_year(1970)) * 86400,
{
}

/// The clock shows the hour, the minute and the second of the day, in two digits each.
pub proof fn law_clock_tells_the_time_of_day(timestamp: i64, day: int, h: int, m: int, s: int)
    requires
        0 <= h < 24,
        0 <= m < 60,
        0 <= s < 60,
        timestamp == day * 86400 + h * 3600 + m * 60 + s,
    ensures
        clock_text(timestamp) == two_digits(h) + ":"@ + two_digits(m) + ":"@ + two_digits(s),
{
    let of_day = second_of_day(timestamp);
    assert(of_day == h * 3600 + m * 60 + s) by (nonlinear_arith)
        requires
            of_day == (day * 86400 + h * 3600 + m * 60 + s) % 86400,
            0 <= h * 3600 + m * 60 + s < 86400,
    ;
    assert(of_day / 3600 == h);
    assert((of_day / 60) % 60 == m);
    assert(of_day % 60 == s);
}

/// A number in two digits has its tens before its ones.
pub proof fn law_tens_stand_before_ones(tens: int, ones: int)
    requires
        0 <= tens < 10,
        0 <= ones < 10,
    ensures
        two_digits(tens * 10 + ones) == seq!["0123456789"@[tens], "0123456789"@[ones]],
{
    text::law_decimal_grows_by_digits(0, tens as nat);
    text::law_decimal_grows_by_digits(0, ones as nat);
    let n = tens * 10 + ones;
    assert(n / 10 == tens && n % 10 == ones);
    assert(two_digits(n) =~= seq!["0123456789"@[tens], "0123456789"@[ones]]);
}

} // verus!
