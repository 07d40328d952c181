//! One syslog line: either a parsed record (timestamp, tag, pid, message) or
//! an unparsable one kept verbatim. Also the chronological comparators used
//! by every merge, and the cached skip links used by the filtered iterator.

use core::cmp::Ordering;
use vstd::prelude::*;

verus! {

/// A coarse classification of a line's content.
#[derive(PartialEq, Eq, Structural, Debug, Clone, Copy)]
pub enum Label {
    Unknown,
    Debug,
    Info,
    Warn,
    Error,
}

/// The direction of a traversal; skip links are kept per direction.
#[derive(Clone, Copy)]
pub enum LogDirection {
    /// From old to new.
    Forward,
    /// From new to old.
    Backward,
}

/// A cached shortcut written during filtered iteration: starting from the
/// line that carries it, the next line visible under the filter of version
/// `ver` lies `skip` steps ahead in the link's direction.
#[derive(PartialEq, Eq, Structural, Debug, Clone, Copy)]
pub struct LogLink {
    /// The tag-filter version this link was computed under.
    pub ver: usize,
    /// How many steps ahead the next visible line lies.
    pub skip: usize,
}

impl Default for LogLink {
    /// A link that never claims anything: version zero, skip zero.
    fn default() -> (r: LogLink)
        ensures
            r == (LogLink { ver: 0, skip: 0 }),
    {
        LogLink { ver: 0, skip: 0 }
    }
}

/// A successfully parsed syslog line.
#[derive(Debug)]
pub struct NormalLogLine {
    /// Microseconds since the Unix epoch.
    pub timestamp: i64,
    /// The program that produced the line.
    pub tag: Vec<u8>,
    /// The producing process id, or zero when the line carries none.
    pub pid: i32,
    /// The free-form message.
    pub message: Vec<u8>,
    /// Content classification.
    pub label: Label,
    /// Set by the user to flag the line.
    pub marked: bool,
    /// Cached shortcut for forward filtered iteration.
    pub forward_link: LogLink,
    /// Cached shortcut for backward filtered iteration.
    pub backward_link: LogLink,
}

/// A line that did not parse; kept verbatim.
#[derive(Debug)]
pub struct BrokenLogLine {
    /// The raw line.
    pub content: Vec<u8>,
    /// Set by the user to flag the line.
    pub marked: bool,
}

/// One line of a log.
#[derive(Debug)]
pub enum LogLine {
    Good(NormalLogLine),
    Bad(BrokenLogLine),
}

/// The mathematical value of a line, without its cached skip links: what the
/// line *is*, as opposed to what iteration has learnt about its surroundings.
pub ghost enum LineData {
    Good { timestamp: int, tag: Seq<u8>, pid: int, message: Seq<u8>, label: Label, marked: bool },
    Bad { content: Seq<u8>, marked: bool },
}

impl LineData {
    /// Is the line a parsed one?
    pub open spec fn is_good(self) -> bool {
        self is Good
    }

    /// The tag of a parsed line.
    pub open spec fn tag(self) -> Seq<u8> {
        self->Good_tag
    }

    /// The mark flag.
    pub open spec fn marked(self) -> bool {
        match self {
            LineData::Good { marked, .. } => marked,
            LineData::Bad { marked, .. } => marked,
        }
    }

    /// The same line with the mark flag replaced.
    pub open spec fn with_marked(self, m: bool) -> LineData {
        match self {
            LineData::Good { timestamp, tag, pid, message, label, .. } => LineData::Good {
                timestamp,
                tag,
                pid,
                message,
                label,
                marked: m,
            },
            LineData::Bad { content, .. } => LineData::Bad { content, marked: m },
        }
    }
}

/// `Less` when `lhs` is older than `rhs`. A `Bad` line is treated as older
/// than everything, itself included, so that it is surfaced at once instead
/// of starving behind a comparison that can never resolve.
pub open spec fn older_order(lhs: LineData, rhs: LineData) -> Ordering {
    match (lhs, rhs) {
        (LineData::Good { timestamp: a, .. }, LineData::Good { timestamp: b, .. }) => if a < b {
            Ordering::Less
        } else if a == b {
            Ordering::Equal
        } else {
            Ordering::Greater
        },
        (LineData::Good { .. }, LineData::Bad { .. }) => Ordering::Greater,
        (LineData::Bad { .. }, LineData::Good { .. }) => Ordering::Less,
        (LineData::Bad { .. }, LineData::Bad { .. }) => Ordering::Less,
    }
}

/// `Less` when `lhs` is newer than `rhs`; `Bad` lines again sort first.
pub open spec fn newer_order(lhs: LineData, rhs: LineData) -> Ordering {
    match (lhs, rhs) {
        (LineData::Good { timestamp: a, .. }, LineData::Good { timestamp: b, .. }) => if a > b {
            Ordering::Less
        } else if a == b {
            Ordering::Equal
        } else {
            Ordering::Greater
        },
        (LineData::Good { .. }, LineData::Bad { .. }) => Ordering::Greater,
        (LineData::Bad { .. }, LineData::Good { .. }) => Ordering::Less,
        (LineData::Bad { .. }, LineData::Bad { .. }) => Ordering::Less,
    }
}

impl LogLine {
    /// The line's value, cached links excluded.
    pub open spec fn data(self) -> LineData {
        match self {
            LogLine::Good(l) => LineData::Good {
                timestamp: l.timestamp as int,
                tag: l.tag@,
                pid: l.pid as int,
                message: l.message@,
                label: l.label,
                marked: l.marked,
            },
            LogLine::Bad(l) => LineData::Bad { content: l.content@, marked: l.marked },
        }
    }

    /// The cached link for the given direction; a `Bad` line never carries
    /// one.
    pub open spec fn spec_link(self, direction: LogDirection) -> LogLink {
        match self {
            LogLine::Good(l) => match direction {
                LogDirection::Forward => l.forward_link,
                LogDirection::Backward => l.backward_link,
            },
            LogLine::Bad(_) => LogLink { ver: 0, skip: 0 },
        }
    }

    /// Compares two lines chronologically; see `older_order`.
    pub fn is_older(lhs: &LogLine, rhs: &LogLine) -> (r: Ordering)
        ensures
            r == older_order(lhs.data(), rhs.data()),
    {
        match (lhs, rhs) {
            (LogLine::Good(a), LogLine::Good(b)) => {
                if a.timestamp < b.timestamp {
                    Ordering::Less
                } else if a.timestamp == b.timestamp {
                    Ordering::Equal
                } else {
                    Ordering::Greater
                }
            },
            (LogLine::Good(_), LogLine::Bad(_)) => Ordering::Greater,
            (LogLine::Bad(_), LogLine::Good(_)) => Ordering::Less,
            (LogLine::Bad(_), LogLine::Bad(_)) => Ordering::Less,
        }
    }

    /// Compares two lines reverse-chronologically; see `newer_order`.
    pub fn is_newer(lhs: &LogLine, rhs: &LogLine) -> (r: Ordering)
        ensures
            r == newer_order(lhs.data(), rhs.data()),
    {
        match (lhs, rhs) {
            (LogLine::Good(a), LogLine::Good(b)) => {
                if a.timestamp > b.timestamp {
                    Ordering::Less
                } else if a.timestamp == b.timestamp {
                    Ordering::Equal
                } else {
                    Ordering::Greater
                }
            },
            (LogLine::Good(_), LogLine::Bad(_)) => Ordering::Greater,
            (LogLine::Bad(_), LogLine::Good(_)) => Ordering::Less,
            (LogLine::Bad(_), LogLine::Bad(_)) => Ordering::Less,
        }
    }

    /// Flips the user-visible mark on this line.
    pub fn toggle_mark(&mut self)
        ensures
            final(self).data() == old(self).data().with_marked(!old(self).data().marked()),
            forall|d: LogDirection| final(self).spec_link(d) == old(self).spec_link(d),
    {
        match self {
            LogLine::Good(l) => l.marked = !l.marked,
            LogLine::Bad(l) => l.marked = !l.marked,
        }
    }

    /// Whether the user has marked this line.
    pub fn is_marked(&self) -> (r: bool)
        ensures
            r == self.data().marked(),
    {
        match self {
            LogLine::Good(l) => l.marked,
            LogLine::Bad(l) => l.marked,
        }
    }

    /// The cached link of this line for the given direction.
    pub fn get_link(&self, direction: LogDirection) -> (r: LogLink)
        ensures
            r == self.spec_link(direction),
    {
        match self {
            LogLine::Good(l) => match direction {
                LogDirection::Forward => l.forward_link,
                LogDirection::Backward => l.backward_link,
            },
            LogLine::Bad(_) => LogLink::default(),
        }
    }

    /// Replaces the cached link of this line for the given direction; a
    /// `Bad` line keeps none.
    pub fn set_link(&mut self, direction: LogDirection, new_link: LogLink)
        ensures
            final(self).data() == old(self).data(),
            final(self).spec_link(direction) == if old(self).data().is_good() {
                new_link
            } else {
                old(self).spec_link(direction)
            },
            final(self).spec_link(opposite(direction)) == old(self).spec_link(
                opposite(direction),
            ),
    {
        match self {
            LogLine::Good(l) => match direction {
                LogDirection::Forward => l.forward_link = new_link,
                LogDirection::Backward => l.backward_link = new_link,
            },
            LogLine::Bad(_) => {},
        }
    }

    /// The tag of a parsed line; a `Bad` line has none.
    pub fn get_tag(&self) -> (r: Option<&Vec<u8>>)
        ensures
            match r {
                Some(t) => self.data().is_good() && t@ == self.data().tag(),
                None => !self.data().is_good(),
            },
    {
        match self {
            LogLine::Good(l) => Some(&l.tag),
            LogLine::Bad(_) => None,
        }
    }

    /// The message of a parsed line, or the raw content of a broken one.
    pub fn get_content(&self) -> (r: &Vec<u8>)
        ensures
            r@ == match self.data() {
                LineData::Good { message, .. } => message,
                LineData::Bad { content, .. } => content,
            },
    {
        match self {
            LogLine::Good(l) => &l.message,
            LogLine::Bad(l) => &l.content,
        }
    }
}

/// The smallest index at which `b` occurs in `s`.
pub open spec fn find_byte(s: Seq<u8>, b: u8) -> Option<int>
    decreases s.len(),
{
    if s.len() == 0 {
        None
    } else if s[0] == b {
        Some(0)
    } else {
        match find_byte(s.skip(1), b) {
            Some(i) => Some(i + 1),
            None => None,
        }
    }
}

/// A found byte lies in range and is the byte sought.
pub proof fn lemma_find_byte_in_range(s: Seq<u8>, b: u8)
    ensures
        match find_byte(s, b) {
            Some(p) => 0 <= p < s.len() && s[p] == b,
            None => true,
        },
    decreases s.len(),
{
    if s.len() > 0 && s[0] != b {
        lemma_find_byte_in_range(s.skip(1), b);
    }
}

/// What the seeker's `find_next` yields on `s`: the bytes before the first
/// occurrence of `b`, and the bytes after it, provided that occurrence is
/// neither at the start nor preceded by a backslash.
pub open spec fn find_next_spec(s: Seq<u8>, b: u8) -> Option<(Seq<u8>, Seq<u8>)> {
    match find_byte(s, b) {
        Some(p) => if p > 0 && s[p - 1] != 92 {
            Some((s.take(p), s.skip(p + 1)))
        } else {
            None
        },
        None => None,
    }
}

/// Is `b` a decimal digit?
pub open spec fn is_digit(b: u8) -> bool {
    48 <= b <= 57
}

/// Does `s` consist of decimal digits only?
pub open spec fn all_digits(s: Seq<u8>) -> bool {
    forall|i: int| 0 <= i < s.len() ==> is_digit(#[trigger] s[i])
}

/// The value of a digit string.
pub open spec fn digits_value(s: Seq<u8>) -> int
    decreases s.len(),
{
    if s.len() == 0 {
        0
    } else {
        digits_value(s.take(s.len() - 1)) * 10 + (s.last() - 48)
    }
}

/// What Rust's `i32` parsing accepts: an optional sign, then one or more
/// digits, with the value in `i32` range.
pub open spec fn parse_i32_spec(s: Seq<u8>) -> Option<int> {
    let negative = s.len() > 0 && s[0] == 45;
    let digits = if s.len() > 0 && (s[0] == 43 || s[0] == 45) {
        s.skip(1)
    } else {
        s
    };
    if digits.len() > 0 && all_digits(digits) {
        let v = if negative {
            -digits_value(digits)
        } else {
            digits_value(digits)
        };
        if -2147483648 <= v < 2147483648 {
            Some(v)
        } else {
            None
        }
    } else {
        None
    }
}

/// The tag, pid and message of a line, once its timestamp prefix is gone.
pub ghost struct RestFields {
    pub tag: Seq<u8>,
    pub pid: int,
    pub message: Seq<u8>,
}

/// The grammar of a line after its timestamp:
/// ` {hostname} {tag}[{pid}]: {message}` or ` {hostname} {tag}: {message}`.
pub open spec fn parse_rest_spec(s: Seq<u8>) -> Option<RestFields> {
    if s.len() == 0 || s[0] != 32 {
        None
    } else {
        let s1 = s.skip(1);
        match find_next_spec(s1, 32) {
            None => None,
            Some((host, s2)) => match find_next_spec(s2, 58) {
                None => None,
                Some((tagpid, s3)) => if s3.len() == 0 || s3[0] != 32 {
                    None
                } else {
                    let message = s3.skip(1);
                    match find_next_spec(tagpid, 91) {
                        Some((tag, after_tag)) => match find_next_spec(after_tag, 93) {
                            None => None,
                            Some((pid_bytes, _)) => match parse_i32_spec(pid_bytes) {
                                Some(p) => Some(RestFields { tag, pid: p, message }),
                                None => None,
                            },
                        },
                        None => Some(RestFields { tag: tagpid, pid: 0, message }),
                    }
                },
            },
        }
    }
}

/// Does the line start with the fixed-width RFC 3339 timestamp that chrono
/// can resolve? The shape test is 32 bytes with a literal `T` at offset 10.
pub open spec fn parses_modern(s: Seq<u8>) -> bool {
    s.len() >= 32 && s[10] == 84 && rfc3339_micros(s.take(32)) is Some
}

/// The instant, in microseconds since the Unix epoch, that an RFC 3339
/// timestamp string denotes, if it parses. Named, not spelt out: the
/// calendar arithmetic lives in chrono.
pub uninterp spec fn rfc3339_micros(s: Seq<u8>) -> Option<i64>;

/// Relies on chrono's `DateTime::parse_from_rfc3339` and `timestamp_micros`:
/// the result depends on the bytes alone, so it is only given a name. A
/// 32-byte RFC 3339 string has a four-digit year, for which
/// `timestamp_micros` cannot overflow.
#[verifier::external_body]
fn parse_rfc3339_micros(s: &[u8]) -> (r: Option<i64>)
    requires
        s@.len() == 32,
    ensures
        r == rfc3339_micros(s@),
{
    let text = String::from_utf8_lossy(s);
    match chrono::DateTime::parse_from_rfc3339(&text) {
        Ok(d) => Some(d.timestamp_micros()),
        Err(_) => None,
    }
}

/// Relies on chrono's `NaiveDateTime::parse_from_str` and the `Local` time
/// zone: resolves a `"Mon DD HH:MM:SS"` prefix plus an explicit year to an
/// instant, in microseconds since the Unix epoch. The result depends on the
/// machine's time zone, so nothing is promised of it beyond its presence
/// being decided by chrono.
#[verifier::external_body]
fn parse_traditional_micros(s: &[u8], year: i32) -> (r: Option<i64>) {
    let text = String::from_utf8_lossy(s).to_string() + &year.to_string();
    let dt = match chrono::NaiveDateTime::parse_from_str(&text, "%b %d %T%Y") {
        Ok(d) => d,
        Err(_) => return None,
    };
    match chrono::TimeZone::from_local_datetime(&chrono::Local, &dt).single() {
        Some(resolved) => Some(resolved.timestamp_micros()),
        None => None,
    }
}

/// Relies on chrono's `Local::now`: the current instant in microseconds
/// since the Unix epoch, and the current calendar year in the local zone.
#[verifier::external_body]
fn now_micros_and_year() -> (r: (i64, i32)) {
    let now = chrono::Local::now();
    (now.timestamp_micros(), chrono::Datelike::year(&now))
}

/// Walks a byte string from left to right while the line parser consumes it.
pub struct BytesSeeker<'a> {
    bytes: &'a [u8],
}

impl<'a> BytesSeeker<'a> {
    /// The bytes not yet consumed.
    pub closed spec fn rest(self) -> Seq<u8> {
        self.bytes@
    }

    /// Starts at the beginning of `bytes`.
    pub fn new(bytes: &'a [u8]) -> (r: Self)
        ensures
            r.rest() == bytes@,
    {
        BytesSeeker { bytes }
    }

    /// Consumes and returns the next `count` bytes, if that many remain.
    pub fn take(&mut self, count: usize) -> (r: Option<&'a [u8]>)
        ensures
            match r {
                Some(taken) => {
                    &&& old(self).rest().len() >= count
                    &&& taken@ == old(self).rest().take(count as int)
                    &&& final(self).rest() == old(self).rest().skip(count as int)
                },
                None => {
                    &&& old(self).rest().len() < count
                    &&& final(self).rest() == old(self).rest()
                },
            },
    {
        let cur = self.bytes;
        if cur.len() >= count {
            let res = &cur[0..count];
            self.bytes = &cur[count..cur.len()];
            proof {
                assert(res@ =~= old(self).rest().take(count as int));
                assert(self.bytes@ =~= old(self).rest().skip(count as int));
            }
            Some(res)
        } else {
            None
        }
    }

    /// Consumes the next byte provided it equals `byte`.
    pub fn next_is(&mut self, byte: u8) -> (r: Option<()>)
        ensures
            match r {
                Some(_) => {
                    &&& old(self).rest().len() > 0
                    &&& old(self).rest()[0] == byte
                    &&& final(self).rest() == old(self).rest().skip(1)
                },
                None => {
                    &&& old(self).rest().len() == 0 || old(self).rest()[0] != byte
                    &&& final(self).rest() == old(self).rest()
                },
            },
    {
        let cur = self.bytes;
        if cur.len() > 0 && cur[0] == byte {
            self.bytes = &cur[1..cur.len()];
            proof {
                assert(self.bytes@ =~= old(self).rest().skip(1));
            }
            Some(())
        } else {
            None
        }
    }

    /// Consumes up to and including the first occurrence of `byte` and
    /// returns what came before it; fails if that occurrence opens the
    /// string or follows a backslash.
    pub fn find_next(&mut self, byte: u8) -> (r: Option<&'a [u8]>)
        ensures
            match r {
                Some(before) => {
                    &&& find_next_spec(old(self).rest(), byte) is Some
                    &&& before@ == find_next_spec(old(self).rest(), byte).unwrap().0
                    &&& final(self).rest() == find_next_spec(old(self).rest(), byte).unwrap().1
                },
                None => {
                    &&& find_next_spec(old(self).rest(), byte) is None
                    &&& final(self).rest() == old(self).rest()
                },
            },
    {
        let cur = self.bytes;
        match find_pos(cur, byte) {
            Some(pos) => {
                if pos != 0 && cur[pos - 1] != 92 {
                    let res = &cur[0..pos];
                    self.bytes = &cur[pos + 1..cur.len()];
                    proof {
                        assert(res@ =~= old(self).rest().take(pos as int));
                        assert(self.bytes@ =~= old(self).rest().skip(pos + 1));
                    }
                    Some(res)
                } else {
                    None
                }
            },
            None => None,
        }
    }

    /// Hands back whatever was not consumed.
    pub fn rest_of_all(self) -> (r: &'a [u8])
        ensures
            r@ == self.rest(),
    {
        self.bytes
    }
}

/// The position of the first occurrence of `b` in `s`.
fn find_pos(s: &[u8], b: u8) -> (r: Option<usize>)
    ensures
        match r {
            Some(p) => find_byte(s@, b) == Some(p as int) && 0 <= p < s@.len() && s@[p as int]
                == b,
            None => find_byte(s@, b) is None,
        },
{
    let n = s.len();
    let mut i: usize = 0;
    while i < n
        invariant
            0 <= i <= n,
            n == s@.len(),
            forall|j: int| 0 <= j < i ==> s@[j] != b,
        decreases n - i,
    {
        if s[i] == b {
            proof {
                lemma_find_byte_at(s@, b, i as int);
            }
            return Some(i);
        }
        i += 1;
    }
    proof {
        lemma_find_byte_none(s@, b);
    }
    None
}

/// `find_byte` lands on the first position that carries the byte.
proof fn lemma_find_byte_at(s: Seq<u8>, b: u8, i: int)
    requires
        0 <= i < s.len(),
        s[i] == b,
        forall|j: int| 0 <= j < i ==> s[j] != b,
    ensures
        find_byte(s, b) == Some(i),
    decreases i,
{
    if i > 0 {
        assert(forall|j: int| 0 <= j < i - 1 ==> s.skip(1)[j] == s[j + 1] && s[j + 1] != b);
        assert(s.skip(1)[i - 1] == s[i]);
        lemma_find_byte_at(s.skip(1), b, i - 1);
    }
}

/// `find_byte` fails exactly when the byte is absent.
proof fn lemma_find_byte_none(s: Seq<u8>, b: u8)
    requires
        forall|j: int| 0 <= j < s.len() ==> s[j] != b,
    ensures
        find_byte(s, b) is None,
    decreases s.len(),
{
    if s.len() > 0 {
        assert(forall|j: int| 0 <= j < s.skip(1).len() ==> s.skip(1)[j] == s[j + 1] && s[j + 1]
            != b);
        lemma_find_byte_none(s.skip(1), b);
    }
}

/// Parses a decimal `i32` exactly as Rust's `str::parse::<i32>` accepts it:
/// an optional sign, then one or more digits, value in range.
pub fn parse_i32(s: &[u8]) -> (r: Option<i32>)
    ensures
        match r {
            Some(v) => parse_i32_spec(s@) == Some(v as int),
            None => parse_i32_spec(s@) is None,
        },
{
    let n = s.len();
    let mut i: usize = 0;
    let mut negative = false;
    if n > 0 && (s[0] == 43 || s[0] == 45) {
        negative = s[0] == 45;
        i = 1;
    }
    let ghost digits = if s@.len() > 0 && (s@[0] == 43 || s@[0] == 45) {
        s@.skip(1)
    } else {
        s@
    };
    let start = i;
    if i == n {
        return None;
    }
    // Accumulate with saturation just above `i32` magnitude: once the value
    // cannot fit, its exact size no longer matters.
    let mut acc: i64 = 0;
    while i < n
        invariant
            start <= i <= n,
            n == s@.len(),
            start == (if s@.len() > 0 && (s@[0] == 43 || s@[0] == 45) {
                1int
            } else {
                0int
            }),
            digits == s@.skip(start as int),
            forall|j: int| start <= j < i ==> is_digit(#[trigger] s@[j]),
            0 <= acc <= 2147483649,
            ({
                let v = digits_value(s@.subrange(start as int, i as int));
                if v <= 2147483648 {
                    acc == v
                } else {
                    acc == 2147483649
                }
            }),
        decreases n - i,
    {
        let c = s[i];
        if c < 48 || c > 57 {
            proof {
                assert(!is_digit(digits[i - start]));
            }
            return None;
        }
        let d = (c - 48) as i64;
        let ghost pre = s@.subrange(start as int, i as int);
        proof {
            assert(s@.subrange(start as int, i + 1).take(i - start) =~= pre);
            assert(s@.subrange(start as int, i + 1).last() == s@[i as int]);
        }
        if acc <= 2147483648 {
            acc = acc * 10 + d;
            if acc > 2147483648 {
                acc = 2147483649;
            }
        }
        proof {
            let v = digits_value(s@.subrange(start as int, i + 1));
            assert(v == digits_value(pre) * 10 + (s@[i as int] - 48));
        }
        i += 1;
    }
    proof {
        assert(s@.subrange(start as int, n as int) =~= digits);
        assert(all_digits(digits));
        assert(digits.len() > 0);
    }
    if negative {
        if acc <= 2147483648 {
            proof {
                assert(parse_i32_spec(s@) == Some(-digits_value(digits)));
            }
            Some((-acc) as i32)
        } else {
            None
        }
    } else {
        if acc <= 2147483647 {
            Some(acc as i32)
        } else {
            None
        }
    }
}

/// What parsing the raw bytes `s` may yield as a line value. For a modern
/// timestamp the instant is pinned through `rfc3339_micros`; for the
/// traditional form it depends on the machine's clock and time zone, so only
/// the other fields are pinned.
pub open spec fn parses_to(s: Seq<u8>, d: LineData) -> bool {
    if parses_modern(s) {
        match parse_rest_spec(s.skip(32)) {
            Some(f) => d == (LineData::Good {
                timestamp: rfc3339_micros(s.take(32)).unwrap() as int,
                tag: f.tag,
                pid: f.pid,
                message: f.message,
                label: Label::Unknown,
                marked: false,
            }),
            None => d == (LineData::Bad { content: s, marked: false }),
        }
    } else if s.len() >= 15 {
        match parse_rest_spec(s.skip(15)) {
            Some(f) => d == (LineData::Bad { content: s, marked: false }) || (exists|ts: int|
            d == (LineData::Good {
                timestamp: ts,
                tag: f.tag,
                pid: f.pid,
                message: f.message,
                label: Label::Unknown,
                marked: false,
            })),
            None => d == (LineData::Bad { content: s, marked: false }),
        }
    } else {
        d == (LineData::Bad { content: s, marked: false })
    }
}

impl LogLine {
    /// Parses a raw line. A line that opens with a timestamp chrono can
    /// resolve and then follows the syslog shape becomes `Good`; anything
    /// else is kept verbatim as `Bad`; see `parses_to`.
    pub fn new(line: Vec<u8>) -> (r: LogLine)
        ensures
            parses_to(line@, r.data()),
            !r.data().marked(),
            r.spec_link(LogDirection::Forward) == (LogLink { ver: 0, skip: 0 }),
            r.spec_link(LogDirection::Backward) == (LogLink { ver: 0, skip: 0 }),
    {
        let parsed = match Self::try_parse_modern_timestamp(line.as_slice()) {
            Some((ts, seeker)) => Self::try_parse_rest(ts, seeker),
            None => match Self::try_parse_traditional_timestamp(line.as_slice()) {
                Some((ts, seeker)) => Self::try_parse_rest(ts, seeker),
                None => None,
            },
        };
        match parsed {
            Some(l) => {
                let ghost lts = l.timestamp as int;
                let res = LogLine::Good(l);
                proof {
                    let s = line@;
                    if !parses_modern(s) && s.len() >= 15 && parse_rest_spec(s.skip(15)) is Some {
                        let f = parse_rest_spec(s.skip(15)).unwrap();
                        assert(res.data() == (LineData::Good {
                            timestamp: lts,
                            tag: f.tag,
                            pid: f.pid,
                            message: f.message,
                            label: Label::Unknown,
                            marked: false,
                        }));
                    }
                }
                res
            },
            None => LogLine::Bad(BrokenLogLine { content: line, marked: false }),
        }
    }

    /// Recognises the fixed-width RFC 3339 form: 32 bytes with a literal
    /// `T` at offset 10, resolved to an instant by chrono.
    fn try_parse_modern_timestamp<'a>(bytes: &'a [u8]) -> (r: Option<(i64, BytesSeeker<'a>)>)
        ensures
            match r {
                Some((ts, sk)) => {
                    &&& parses_modern(bytes@)
                    &&& rfc3339_micros(bytes@.take(32)) == Some(ts)
                    &&& sk.rest() == bytes@.skip(32)
                },
                None => !parses_modern(bytes@),
            },
    {
        let mut seeker = BytesSeeker::new(bytes);
        match seeker.take(32) {
            Some(ts_bytes) => {
                proof {
                    assert(ts_bytes@[10] == bytes@[10]);
                }
                if ts_bytes[10] == 84 {
                    match parse_rfc3339_micros(ts_bytes) {
                        Some(ts) => Some((ts, seeker)),
                        None => None,
                    }
                } else {
                    None
                }
            },
            None => None,
        }
    }

    /// Recognises the traditional 15-byte `"Mon DD HH:MM:SS"` form. The year
    /// is taken as the current one unless that would place the line in the
    /// future, in which case the previous year is used; the time zone is the
    /// machine's. Both resolutions are chrono's, so the instant itself is
    /// not pinned down.
    fn try_parse_traditional_timestamp<'a>(bytes: &'a [u8]) -> (r: Option<(i64, BytesSeeker<'a>)>)
        ensures
            bytes@.len() < 15 ==> r is None,
            match r {
                Some((ts, sk)) => bytes@.len() >= 15 && sk.rest() == bytes@.skip(15),
                None => true,
            },
    {
        let mut seeker = BytesSeeker::new(bytes);
        let ts_bytes = match seeker.take(15) {
            Some(t) => t,
            None => {
                return None;
            },
        };
        let (now, year) = now_micros_and_year();
        if year == i32::MIN {
            return None;
        }
        let this_year = match parse_traditional_micros(ts_bytes, year) {
            Some(t) => t,
            None => {
                return None;
            },
        };
        let prev_year = match parse_traditional_micros(ts_bytes, year - 1) {
            Some(t) => t,
            None => {
                return None;
            },
        };
        let ts = if this_year <= now {
            this_year
        } else {
            prev_year
        };
        Some((ts, seeker))
    }

    /// Parses ` {hostname} {tag}[{pid}]: {message}` (or the pid-less form)
    /// once the timestamp is resolved.
    fn try_parse_rest(timestamp: i64, seeker: BytesSeeker<'_>) -> (r: Option<NormalLogLine>)
        ensures
            match r {
                Some(l) => {
                    &&& parse_rest_spec(seeker.rest()) == Some(
                        RestFields { tag: l.tag@, pid: l.pid as int, message: l.message@ },
                    )
                    &&& l.timestamp == timestamp
                    &&& l.label == Label::Unknown
                    &&& !l.marked
                    &&& l.forward_link == (LogLink { ver: 0, skip: 0 })
                    &&& l.backward_link == (LogLink { ver: 0, skip: 0 })
                },
                None => parse_rest_spec(seeker.rest()) is None,
            },
    {
        let mut seeker = seeker;
        if seeker.next_is(32).is_none() {
            return None;
        }
        if seeker.find_next(32).is_none() {
            return None;
        }
        let tag_and_pid = match seeker.find_next(58) {
            Some(t) => t,
            None => {
                return None;
            },
        };
        if seeker.next_is(32).is_none() {
            return None;
        }
        let message = seeker.rest_of_all();
        let mut pid_seeker = BytesSeeker::new(tag_and_pid);
        let (tag, pid) = match pid_seeker.find_next(91) {
            Some(tag) => {
                let pid_bytes = match pid_seeker.find_next(93) {
                    Some(p) => p,
                    None => {
                        return None;
                    },
                };
                let pid = match parse_i32(pid_bytes) {
                    Some(p) => p,
                    None => {
                        return None;
                    },
                };
                (tag, pid)
            },
            None => (tag_and_pid, 0),
        };
        Some(
            NormalLogLine {
                timestamp,
                tag: crate::bytes::copy_bytes(tag),
                pid,
                message: crate::bytes::copy_bytes(message),
                label: Label::Unknown,
                marked: false,
                forward_link: LogLink::default(),
                backward_link: LogLink::default(),
            },
        )
    }
}

/// Are two directions the same?
pub open spec fn direction_eq(a: LogDirection, b: LogDirection) -> bool {
    match (a, b) {
        (LogDirection::Forward, LogDirection::Forward) => true,
        (LogDirection::Backward, LogDirection::Backward) => true,
        _ => false,
    }
}

/// The other direction.
pub open spec fn opposite(d: LogDirection) -> LogDirection {
    match d {
        LogDirection::Forward => LogDirection::Backward,
        LogDirection::Backward => LogDirection::Forward,
    }
}

impl Clone for LogLine {
    /// A clone carries the same value and the same cached links.
    fn clone(&self) -> (r: Self)
        ensures
            r.data() == self.data(),
            forall|d: LogDirection| r.spec_link(d) == self.spec_link(d),
    {
        match self {
            LogLine::Good(l) => LogLine::Good(
                NormalLogLine {
                    timestamp: l.timestamp,
                    tag: crate::bytes::copy_bytes(l.tag.as_slice()),
                    pid: l.pid,
                    message: crate::bytes::copy_bytes(l.message.as_slice()),
                    label: l.label,
                    marked: l.marked,
                    forward_link: l.forward_link,
                    backward_link: l.backward_link,
                },
            ),
            LogLine::Bad(l) => LogLine::Bad(
                BrokenLogLine {
                    content: crate::bytes::copy_bytes(l.content.as_slice()),
                    marked: l.marked,
                },
            ),
        }
    }
}

impl PartialEq for LogLine {
    /// Lines compare by value; the cached links are ignored, as they only
    /// record what iteration has learnt, not what the line is.
    fn eq(&self, other: &Self) -> (r: bool) {
        match (self, other) {
            (LogLine::Good(a), LogLine::Good(b)) => a.timestamp == b.timestamp
                && crate::bytes::bytes_eq(a.tag.as_slice(), b.tag.as_slice()) && a.pid == b.pid
                && crate::bytes::bytes_eq(a.message.as_slice(), b.message.as_slice()) && a.label
                == b.label && a.marked == b.marked,
            (LogLine::Bad(a), LogLine::Bad(b)) => crate::bytes::bytes_eq(
                a.content.as_slice(),
                b.content.as_slice(),
            ) && a.marked == b.marked,
            _ => false,
        }
    }
}

impl vstd::std_specs::cmp::PartialEqSpecImpl for LogLine {
    open spec fn obeys_eq_spec() -> bool {
        true
    }

    open spec fn eq_spec(&self, other: &LogLine) -> bool {
        self.data() == other.data()
    }
}

} // verus!
