//! Hybrid logical clock: timestamps `(millis, counter, node)`, the send and
//! receive steps, and the canonical string form.

use vstd::prelude::*;

use vstd::string::*;

use crate::error::Error;
use crate::text::{chars_of, lex_lt, push_char};

verus! {

/// Largest distance, in ms, that the logical time may run ahead of the
/// physical clock.
pub const MAX_DRIFT: i64 = 60000;

/// Largest counter value: four hexadecimal digits.
pub const MAX_COUNTER: usize = 65535;

/// What a timestamp stands for.
pub struct TimestampView {
    pub millis: i64,
    pub counter: usize,
    pub node: Seq<char>,
}

#[derive(Debug)]
pub struct Timestamp {
    millis: i64,
    counter: usize,
    node: String,
}

impl View for Timestamp {
    type V = TimestampView;

    closed spec fn view(&self) -> TimestampView {
        TimestampView { millis: self.millis, counter: self.counter, node: self.node@ }
    }
}

pub open spec fn max_i64(a: i64, b: i64) -> i64 {
    if a >= b { a } else { b }
}

/// The state after a send at physical time `phys`, or the error it fails with.
pub open spec fn send_next(t: TimestampView, phys: i64) -> Result<TimestampView, Error> {
    let l_new = max_i64(t.millis, phys);
    let c_new: int = if l_new == t.millis { t.counter + 1 } else { 0 };
    if l_new - phys > MAX_DRIFT {
        Err(Error::ClockDrift)
    } else if c_new > MAX_COUNTER {
        Err(Error::Overflow)
    } else {
        Ok(TimestampView { millis: l_new, counter: c_new as usize, node: t.node })
    }
}

/// The state after receiving `o` at physical time `phys`, or the error it
/// fails with.
pub open spec fn recv_next(t: TimestampView, o: TimestampView, phys: i64) -> Result<TimestampView, Error> {
    let l_new = max_i64(max_i64(t.millis, phys), o.millis);
    let c_new: int = if l_new == t.millis && l_new == o.millis {
        if t.counter >= o.counter { t.counter + 1 } else { o.counter + 1 }
    } else if l_new == t.millis {
        t.counter + 1
    } else if l_new == o.millis {
        o.counter + 1
    } else {
        0
    };
    if o.node == t.node {
        Err(Error::DuplicateNode)
    } else if o.millis - phys > MAX_DRIFT {
        Err(Error::ClockDrift)
    } else if l_new - phys > MAX_DRIFT {
        Err(Error::ClockDrift)
    } else if c_new > MAX_COUNTER {
        Err(Error::Overflow)
    } else {
        Ok(TimestampView { millis: l_new, counter: c_new as usize, node: t.node })
    }
}

/// The order of timestamps: by millis, then counter, then node.
pub open spec fn ts_lt(a: TimestampView, b: TimestampView) -> bool {
    a.millis < b.millis || (a.millis == b.millis && a.counter < b.counter) || (a.millis
        == b.millis && a.counter == b.counter && lex_lt(a.node, b.node))
}

/// One step of a node's clock: a successful send or receive.
pub open spec fn clock_step(a: TimestampView, b: TimestampView) -> bool {
    (exists|phys: i64| #[trigger] send_next(a, phys) == Ok::<TimestampView, Error>(b)) || (exists|
        o: TimestampView,
        phys: i64,
    | #[trigger] recv_next(a, o, phys) == Ok::<TimestampView, Error>(b))
}

/// How a send at `phys` relates the clock before, the clock after and the
/// result.
pub open spec fn sent_at(
    before: TimestampView,
    after: TimestampView,
    r: Result<Timestamp, Error>,
    phys: i64,
) -> bool {
    match send_next(before, phys) {
        Ok(v) => after == v && r is Ok && r->Ok_0@ == v,
        Err(e) => after == before && r == Err::<Timestamp, Error>(e),
    }
}

/// How a receive of `o` at `phys` relates the clock before, the clock after
/// and the result.
pub open spec fn received_at(
    before: TimestampView,
    after: TimestampView,
    o: TimestampView,
    r: Result<(), Error>,
    phys: i64,
) -> bool {
    match recv_next(before, o, phys) {
        Ok(v) => after == v && r == Ok::<(), Error>(()),
        Err(e) => after == before && r == Err::<(), Error>(e),
    }
}

/// Relies on `SystemTime::now` and `duration_since(UNIX_EPOCH)`: the wall
/// clock in ms since the epoch, or `None` when it reads before the epoch.
#[verifier::external_body]
fn now_ms() -> (r: Option<i64>) {
    match std::time::SystemTime::now().duration_since(std::time::UNIX_EPOCH) {
        Ok(d) => Some(d.as_millis() as i64),
        Err(_) => None,
    }
}

/// The RFC 3339 text of a time given in ms since the epoch.
pub uninterp spec fn rfc3339_of(millis: i64) -> Seq<char>;

/// The time, in ms since the epoch, that an RFC 3339 text denotes.
pub uninterp spec fn rfc3339_millis_of(s: Seq<char>) -> Option<i64>;

/// The 32-bit MurmurHash3 of the UTF-8 bytes of a text.
pub uninterp spec fn murmur3_of(s: Seq<char>) -> u32;

/// Relies on chrono's `DateTime::from_timestamp_millis` (the epoch when out of
/// range, as `unwrap_or_default` gives) and `to_rfc3339_opts` with
/// millisecond precision.
#[verifier::external_body]
fn format_rfc3339(millis: i64) -> (r: String)
    ensures
        r@ == rfc3339_of(millis),
{
    chrono::DateTime::from_timestamp_millis(millis).unwrap_or_default().to_rfc3339_opts(chrono::SecondsFormat::Millis, false)
}

/// Relies on chrono's `DateTime::parse_from_rfc3339` and `timestamp_millis`.
#[verifier::external_body]
fn parse_rfc3339_millis(s: &str) -> (r: Option<i64>)
    ensures
        r == rfc3339_millis_of(s@),
{
    match chrono::DateTime::parse_from_rfc3339(s) {
        Ok(d) => Some(d.timestamp_millis()),
        Err(_) => None,
    }
}

/// Relies on `murmurhash32::murmurhash3` over the UTF-8 bytes of `s`.
#[verifier::external_body]
fn murmur3(s: &str) -> (r: u32)
    ensures
        r == murmur3_of(s@),
{
    murmurhash32::murmurhash3(s.as_bytes())
}

/// Relies on uuid's `Uuid::new_v4` and its simple form: 32 lower-case
/// hexadecimal digits.
#[verifier::external_body]
fn random_simple_uuid() -> (r: String)
    ensures
        r@.len() == 32,
        forall|i: int| 0 <= i < 32 ==> is_lower_hex(#[trigger] r@[i]),
{
    uuid::Uuid::new_v4().simple().to_string()
}

pub open spec fn is_lower_hex(c: char) -> bool {
    ('0' <= c && c <= '9') || ('a' <= c && c <= 'f')
}

/// The upper-case hexadecimal digits, by value.
pub open spec fn hex_chars() -> Seq<char> {
    seq!['0', '1', '2', '3', '4', '5', '6', '7', '8', '9', 'A', 'B', 'C', 'D', 'E', 'F']
}

/// `n` in upper-case hexadecimal, without leading zeros.
pub open spec fn hex_of(n: nat) -> Seq<char>
    decreases n,
{
    if n < 16 {
        seq![hex_chars()[n as int]]
    } else {
        hex_of(n / 16).push(hex_chars()[(n % 16) as int])
    }
}

/// `n` in upper-case hexadecimal, zero-padded to at least four digits.
pub open spec fn hex4(n: nat) -> Seq<char> {
    let h = hex_of(n);
    if h.len() < 4 {
        Seq::new((4 - h.len()) as nat, |i: int| '0') + h
    } else {
        h
    }
}

/// `s` padded with spaces on the right to at least sixteen characters.
pub open spec fn pad16(s: Seq<char>) -> Seq<char> {
    if s.len() < 16 {
        s + Seq::new((16 - s.len()) as nat, |i: int| ' ')
    } else {
        s
    }
}

/// The canonical string form: `<RFC 3339>-<counter:4 hex>-<node:16>`.
pub open spec fn ts_string(t: TimestampView) -> Seq<char> {
    rfc3339_of(t.millis) + seq!['-'] + hex4(t.counter as nat) + seq!['-'] + pad16(t.node)
}

/// The hash that a timestamp contributes to a merkle trie.
pub open spec fn ts_hash(t: TimestampView) -> u64 {
    murmur3_of(ts_string(t)) as u64
}

/// The pieces of `s` between the `-` characters.
pub open spec fn split_dash(s: Seq<char>) -> Seq<Seq<char>>
    decreases s.len(),
{
    if s.len() == 0 {
        seq![Seq::<char>::empty()]
    } else {
        let r = split_dash(s.drop_last());
        if s.last() == '-' {
            r.push(Seq::<char>::empty())
        } else {
            r.update(r.len() - 1, r.last().push(s.last()))
        }
    }
}

/// The value of a hexadecimal digit of either case.
pub open spec fn hex_digit_value(c: char) -> Option<nat> {
    if '0' <= c && c <= '9' {
        Some((c as int - '0' as int) as nat)
    } else if 'a' <= c && c <= 'f' {
        Some((c as int - 'a' as int + 10) as nat)
    } else if 'A' <= c && c <= 'F' {
        Some((c as int - 'A' as int + 10) as nat)
    } else {
        None
    }
}

/// The value of a run of hexadecimal digits (zero for none).
pub open spec fn hex_digits_value(s: Seq<char>) -> Option<nat>
    decreases s.len(),
{
    if s.len() == 0 {
        Some(0)
    } else {
        match (hex_digits_value(s.drop_last()), hex_digit_value(s.last())) {
            (Some(v), Some(d)) => Some(v * 16 + d),
            _ => None,
        }
    }
}

/// A hexadecimal number as `usize::from_str_radix(_, 16)` reads it: an
/// optional `+`, then one or more digits; `None` when malformed or too large.
pub open spec fn parse_hex(s: Seq<char>) -> Option<nat> {
    let body = if s.len() > 0 && s[0] == '+' { s.drop_first() } else { s };
    if body.len() == 0 {
        None
    } else {
        match hex_digits_value(body) {
            Some(v) => if v <= usize::MAX { Some(v) } else { None },
            None => None,
        }
    }
}

/// The timestamp that a string denotes: five `-`-separated pieces, the
/// first three an RFC 3339 date, then a hexadecimal counter and the node.
pub open spec fn parse_spec(s: Seq<char>) -> Option<TimestampView> {
    let parts = split_dash(s);
    if parts.len() != 5 {
        None
    } else {
        let date = parts[0] + seq!['-'] + parts[1] + seq!['-'] + parts[2];
        match (rfc3339_millis_of(date), parse_hex(parts[3])) {
            (Some(m), Some(c)) => Some(TimestampView { millis: m, counter: c as usize, node: parts[4] }),
            _ => None,
        }
    }
}

/// The floor of all timestamp strings at or after an RFC 3339 time.
pub open spec fn since_spec(iso: Seq<char>) -> Seq<char> {
    iso + seq!['-', '0', '0', '0', '0', '-'] + Seq::new(16, |i: int| '0')
}

/// The pieces joined back with `-` between them.
pub open spec fn join_dash(parts: Seq<Seq<char>>) -> Seq<char>
    decreases parts.len(),
{
    if parts.len() == 0 {
        seq![]
    } else if parts.len() == 1 {
        parts[0]
    } else {
        join_dash(parts.drop_last()) + seq!['-'] + parts.last()
    }
}

/// A timestamp whose string form reads back as itself: a counter of at
/// most four hexadecimal digits, a node of sixteen characters without `-`,
/// and millis whose RFC 3339 text holds exactly two `-` and reads back as
/// the same millis.
pub open spec fn valid_timestamp(t: TimestampView) -> bool {
    &&& t.counter <= MAX_COUNTER
    &&& t.node.len() == 16
    &&& !t.node.contains('-')
    &&& split_dash(rfc3339_of(t.millis)).len() == 3
    &&& rfc3339_millis_of(rfc3339_of(t.millis)) == Some(t.millis)
}

proof fn lemma_split_nonempty(s: Seq<char>)
    ensures
        split_dash(s).len() >= 1,
    decreases s.len(),
{
    if s.len() > 0 {
        lemma_split_nonempty(s.drop_last());
    }
}

proof fn lemma_split_join(s: Seq<char>)
    ensures
        join_dash(split_dash(s)) == s,
    decreases s.len(),
{
    if s.len() == 0 {
        assert(join_dash(split_dash(s)) =~= s);
    } else {
        let r = split_dash(s.drop_last());
        lemma_split_nonempty(s.drop_last());
        lemma_split_join(s.drop_last());
        if s.last() == '-' {
            assert(r.push(Seq::<char>::empty()).drop_last() =~= r);
            assert(join_dash(split_dash(s)) =~= s);
        } else {
            let u = r.update(r.len() - 1, r.last().push(s.last()));
            if r.len() == 1 {
                assert(join_dash(u) =~= s);
            } else {
                assert(u.drop_last() =~= r.drop_last());
                assert(join_dash(u) =~= join_dash(r).push(s.last()));
                assert(s =~= s.drop_last().push(s.last()));
            }
        }
    }
}

proof fn lemma_split_no_dash(s: Seq<char>)
    requires
        !s.contains('-'),
    ensures
        split_dash(s) == seq![s],
    decreases s.len(),
{
    if s.len() == 0 {
        assert(s =~= Seq::<char>::empty());
        assert(split_dash(s) =~= seq![s]);
    } else {
        assert(!s.drop_last().contains('-')) by {
            if s.drop_last().contains('-') {
                let i = choose|i: int| 0 <= i < s.drop_last().len() && s.drop_last()[i] == '-';
                assert(s[i] == '-');
            }
        }
        lemma_split_no_dash(s.drop_last());
        assert(s.last() != '-') by {
            assert(s[s.len() - 1] == s.last());
        }
        assert(s.drop_last().push(s.last()) =~= s);
        assert(split_dash(s) =~= seq![s]);
    }
}

proof fn lemma_split_concat(a: Seq<char>, b: Seq<char>)
    ensures
        split_dash(a + seq!['-'] + b) == split_dash(a) + split_dash(b),
    decreases b.len(),
{
    lemma_split_nonempty(a);
    if b.len() == 0 {
        assert((a + seq!['-'] + b).drop_last() =~= a);
        assert(split_dash(a + seq!['-'] + b) =~= split_dash(a) + split_dash(b));
    } else {
        lemma_split_concat(a, b.drop_last());
        lemma_split_nonempty(b.drop_last());
        assert((a + seq!['-'] + b).drop_last() =~= a + seq!['-'] + b.drop_last());
        assert((a + seq!['-'] + b).last() == b.last());
        assert(split_dash(a + seq!['-'] + b) =~= split_dash(a) + split_dash(b));
    }
}

proof fn lemma_hex_digit_of_value(n: nat)
    requires
        n < 16,
    ensures
        hex_digit_value(hex_chars()[n as int]) == Some(n),
        hex_chars()[n as int] != '-',
        hex_chars()[n as int] != '+',
{
    assert(hex_chars()[n as int] == seq!['0', '1', '2', '3', '4', '5', '6', '7', '8', '9', 'A', 'B', 'C', 'D', 'E', 'F'][n as int]);
}

proof fn lemma_hex_of_value(n: nat)
    ensures
        hex_digits_value(hex_of(n)) == Some(n),
        !hex_of(n).contains('-'),
        hex_of(n).len() > 0,
        hex_of(n)[0] != '+',
    decreases n,
{
    if n < 16 {
        lemma_hex_digit_of_value(n);
        assert(hex_of(n).drop_last() =~= Seq::<char>::empty());
        assert(hex_digits_value(hex_of(n).drop_last()) == Some(0nat));
    } else {
        lemma_hex_of_value(n / 16);
        lemma_hex_digit_of_value(n % 16);
        assert(hex_of(n).drop_last() =~= hex_of(n / 16));
        assert(n == (n / 16) * 16 + n % 16);
        assert(!hex_of(n).contains('-')) by {
            if hex_of(n).contains('-') {
                let i = choose|i: int| 0 <= i < hex_of(n).len() && hex_of(n)[i] == '-';
                if i < hex_of(n).len() - 1 {
                    assert(hex_of(n / 16)[i] == '-');
                }
            }
        }
    }
}

proof fn lemma_leading_zeros(k: nat, s: Seq<char>)
    ensures
        hex_digits_value(Seq::new(k, |i: int| '0') + s) == hex_digits_value(s),
    decreases s.len(), k,
{
    let z = Seq::new(k, |i: int| '0');
    if s.len() == 0 {
        assert(z + s =~= z);
        if k > 0 {
            lemma_leading_zeros((k - 1) as nat, s);
            assert(z.drop_last() =~= Seq::new((k - 1) as nat, |i: int| '0'));
            assert(Seq::new((k - 1) as nat, |i: int| '0') + s =~= Seq::new((k - 1) as nat, |i: int| '0'));
        }
    } else {
        lemma_leading_zeros(k, s.drop_last());
        assert((z + s).drop_last() =~= z + s.drop_last());
        assert((z + s).last() == s.last());
    }
}

/// The string form reads back: parsing the canonical string of a valid
/// timestamp gives the timestamp.
pub proof fn lemma_parse_round_trip(t: TimestampView)
    requires
        valid_timestamp(t),
    ensures
        parse_spec(ts_string(t)) == Some(t),
{
    let d = rfc3339_of(t.millis);
    let h = hex4(t.counter as nat);
    let n = pad16(t.node);
    assert(n =~= t.node);
    lemma_hex_of_value(t.counter as nat);
    let hx = hex_of(t.counter as nat);
    let k: nat = if hx.len() < 4 { (4 - hx.len()) as nat } else { 0 };
    lemma_leading_zeros(k, hx);
    assert(h =~= Seq::new(k, |i: int| '0') + hx);
    assert(!h.contains('-')) by {
        if h.contains('-') {
            let i = choose|i: int| 0 <= i < h.len() && h[i] == '-';
            if i >= k {
                assert(hx[i - k] == '-');
            }
        }
    }
    assert(h.len() > 0 && h[0] != '+') by {
        if k > 0 {
            assert(h[0] == '0');
        } else {
            assert(h[0] == hx[0]);
        }
    }
    assert(ts_string(t) =~= d + seq!['-'] + (h + seq!['-'] + n));
    lemma_split_concat(d, h + seq!['-'] + n);
    lemma_split_concat(h, n);
    lemma_split_no_dash(h);
    lemma_split_no_dash(n);
    let parts = split_dash(ts_string(t));
    let dp = split_dash(d);
    assert(parts =~= dp + seq![h] + seq![n]);
    lemma_split_join(d);
    let d1 = dp.drop_last();
    let d0 = d1.drop_last();
    assert(join_dash(d0) == dp[0]);
    assert(join_dash(d1) == join_dash(d0) + seq!['-'] + dp[1]);
    assert(join_dash(dp) == join_dash(d1) + seq!['-'] + dp[2]);
    assert(parts[0] + seq!['-'] + parts[1] + seq!['-'] + parts[2] =~= d);
    assert(parts[3] == h && parts[4] == n);
}

fn hex_char(d: usize) -> (r: char)
    requires
        d < 16,
    ensures
        r == hex_chars()[d as int],
{
    if d == 0 { '0' } else if d == 1 { '1' } else if d == 2 { '2' } else if d == 3 { '3' }
    else if d == 4 { '4' } else if d == 5 { '5' } else if d == 6 { '6' } else if d == 7 { '7' }
    else if d == 8 { '8' } else if d == 9 { '9' } else if d == 10 { 'A' } else if d == 11 { 'B' }
    else if d == 12 { 'C' } else if d == 13 { 'D' } else if d == 14 { 'E' } else { 'F' }
}

fn push_hex(s: &mut String, n: usize)
    ensures
        final(s)@ == old(s)@ + hex_of(n as nat),
    decreases n,
{
    if n >= 16 {
        push_hex(s, n / 16);
    }
    push_char(s, hex_char(n % 16));
    assert(final(s)@ =~= old(s)@ + hex_of(n as nat));
}

fn hex_digit(c: char) -> (r: Option<usize>)
    ensures
        r matches Some(d) ==> hex_digit_value(c) == Some(d as nat) && d < 16,
        r is None ==> hex_digit_value(c) is None,
{
    if '0' <= c && c <= '9' {
        Some(((c as u32) - ('0' as u32)) as usize)
    } else if 'a' <= c && c <= 'f' {
        Some(((c as u32) - ('a' as u32) + 10) as usize)
    } else if 'A' <= c && c <= 'F' {
        Some(((c as u32) - ('A' as u32) + 10) as usize)
    } else {
        None
    }
}

proof fn lemma_hex_digits_prefix(s: Seq<char>, i: int)
    requires
        0 <= i <= s.len(),
        hex_digits_value(s) is Some,
    ensures
        hex_digits_value(s.subrange(0, i)) is Some,
        hex_digits_value(s.subrange(0, i))->Some_0 <= hex_digits_value(s)->Some_0,
    decreases s.len(),
{
    if i < s.len() {
        assert(s.drop_last() =~= s.subrange(0, s.len() - 1));
        lemma_hex_digits_prefix(s.drop_last(), i);
        assert(s.drop_last().subrange(0, i) =~= s.subrange(0, i));
    } else {
        assert(s.subrange(0, i) =~= s);
    }
}

/// Reads a hexadecimal number as `usize::from_str_radix(_, 16)` does.
pub fn parse_hex_usize(s: &Vec<char>) -> (r: Option<usize>)
    ensures
        r matches Some(v) ==> parse_hex(s@) == Some(v as nat),
        r is None ==> parse_hex(s@) is None,
{
    let start: usize = if s.len() > 0 && s[0] == '+' { 1 } else { 0 };
    let ghost body = if s@.len() > 0 && s@[0] == '+' { s@.drop_first() } else { s@ };
    assert(body =~= s@.subrange(start as int, s@.len() as int));
    if start == s.len() {
        return None;
    }
    let mut v: usize = 0;
    let mut i: usize = start;
    assert(body.subrange(0, 0) =~= Seq::<char>::empty());
    while i < s.len()
        invariant
            start <= i <= s@.len(),
            body =~= s@.subrange(start as int, s@.len() as int),
            body == (if s@.len() > 0 && s@[0] == '+' { s@.drop_first() } else { s@ }),
            body.len() > 0,
            hex_digits_value(body.subrange(0, i - start)) == Some(v as nat),
        decreases s.len() - i,
    {
        let ghost pre = body.subrange(0, i - start);
        let ghost next = body.subrange(0, i + 1 - start);
        assert(next.drop_last() =~= pre);
        assert(next.last() == s@[i as int]);
        match hex_digit(s[i]) {
            None => {
                proof {
                    assert(hex_digits_value(next) is None);
                    if hex_digits_value(body) is Some {
                        lemma_hex_digits_prefix(body, i + 1 - start);
                        assert(false);
                    }
                    assert(parse_hex(s@) is None);
                }
                return None;
            }
            Some(d) => {
                if v > (usize::MAX - d) / 16 {
                    proof {
                        assert(v * 16 + d > usize::MAX) by (nonlinear_arith)
                            requires v > (usize::MAX - d) / 16, d < 16;
                        assert(hex_digits_value(next) == Some((v * 16 + d) as nat));
                        if hex_digits_value(body) is Some {
                            lemma_hex_digits_prefix(body, i + 1 - start);
                            assert(hex_digits_value(body)->Some_0 > usize::MAX);
                        }
                        assert(parse_hex(s@) is None);
                    }
                    return None;
                }
                v = v * 16 + d;
            }
        }
        i = i + 1;
    }
    assert(body.subrange(0, i - start) =~= body);
    Some(v)
}

impl Timestamp {
    pub fn new(millis: i64, counter: usize, node: String) -> (r: Self)
        ensures
            r@ == (TimestampView { millis, counter, node: node@ }),
    {
        Timestamp { millis, counter, node }
    }

    pub fn millis(&self) -> (r: i64)
        ensures
            r == self@.millis,
    {
        self.millis
    }

    pub fn counter(&self) -> (r: usize)
        ensures
            r == self@.counter,
    {
        self.counter
    }

    pub fn node(&self) -> (r: &str)
        ensures
            r@ == self@.node,
    {
        self.node.as_str()
    }

    /// A copy of this timestamp.
    pub fn copy(&self) -> (r: Timestamp)
        ensures
            r@ == self@,
    {
        Timestamp { millis: self.millis, counter: self.counter, node: self.node.clone() }
    }

    /// The canonical string form.
    pub fn to_string(&self) -> (r: String)
        ensures
            r@ == ts_string(self@),
    {
        let mut r = format_rfc3339(self.millis);
        push_char(&mut r, '-');
        let mut h = String::new();
        push_hex(&mut h, self.counter);
        let hl = h.as_str().unicode_len();
        let mut k: usize = hl;
        while k < 4
            invariant
                hl == hex_of(self.counter as nat).len(),
                hl <= k <= 4 || (k == hl && hl >= 4),
                r@ == rfc3339_of(self.millis) + seq!['-'] + Seq::new((k - hl) as nat, |i: int| '0'),
            decreases 4 - k,
        {
            push_char(&mut r, '0');
            k = k + 1;
            assert(r@ =~= rfc3339_of(self.millis) + seq!['-'] + Seq::new((k - hl) as nat, |i: int| '0'));
        }
        r.append(h.as_str());
        push_char(&mut r, '-');
        assert(r@ =~= rfc3339_of(self.millis) + seq!['-'] + hex4(self.counter as nat) + seq!['-']);
        r.append(self.node.as_str());
        let nl = self.node.as_str().unicode_len();
        let ghost base = r@;
        let mut k: usize = nl;
        while k < 16
            invariant
                nl == self.node@.len(),
                nl <= k <= 16 || (k == nl && nl >= 16),
                r@ == base + Seq::new((k - nl) as nat, |i: int| ' '),
            decreases 16 - k,
        {
            push_char(&mut r, ' ');
            k = k + 1;
            assert(r@ =~= base + Seq::new((k - nl) as nat, |i: int| ' '));
        }
        assert(r@ =~= ts_string(self@));
        r
    }

    /// 32-bit MurmurHash3 of the canonical string form, widened.
    pub fn hash(&self) -> (r: u64)
        ensures
            r == ts_hash(self@),
    {
        let s = self.to_string();
        murmur3(s.as_str()) as u64
    }

    /// Reads a timestamp from its string form.
    pub fn parse(timestamp: &str) -> (r: Result<Timestamp, Error>)
        ensures
            match parse_spec(timestamp@) {
                Some(v) => r is Ok && r->Ok_0@ == v,
                None => r == Err::<Timestamp, Error>(Error::Parse),
            },
    {
        let cs = chars_of(timestamp);
        let mut done: Vec<String> = Vec::new();
        let mut cur = String::new();
        let mut i: usize = 0;
        assert(cs@.subrange(0, 0) =~= Seq::<char>::empty());
        while i < cs.len()
            invariant
                i <= cs@.len(),
                cs@ == timestamp@,
                split_dash(cs@.subrange(0, i as int)) =~= done@.map_values(|x: String| x@).push(cur@),
            decreases cs.len() - i,
        {
            let ghost pre = cs@.subrange(0, i as int);
            assert(cs@.subrange(0, i + 1).drop_last() =~= pre);
            if cs[i] == '-' {
                let piece = cur;
                done.push(piece);
                cur = String::new();
            } else {
                push_char(&mut cur, cs[i]);
            }
            i = i + 1;
        }
        assert(cs@.subrange(0, cs@.len() as int) =~= timestamp@);
        let ghost parts = split_dash(timestamp@);
        assert(parts.len() == done@.len() + 1);
        if done.len() != 4 {
            return Err(Error::Parse);
        }
        let mut date = done[0].clone();
        push_char(&mut date, '-');
        date.append(done[1].as_str());
        push_char(&mut date, '-');
        date.append(done[2].as_str());
        let counter_chars = chars_of(done[3].as_str());
        assert(parts[0] == done@[0]@ && parts[1] == done@[1]@ && parts[2] == done@[2]@);
        assert(parts[3] == done@[3]@ && parts[4] == cur@);
        assert(date@ =~= parts[0] + seq!['-'] + parts[1] + seq!['-'] + parts[2]);
        match parse_rfc3339_millis(date.as_str()) {
            Some(millis) => match parse_hex_usize(&counter_chars) {
                Some(counter) => Ok(Timestamp { millis, counter, node: cur }),
                None => Err(Error::Parse),
            },
            None => Err(Error::Parse),
        }
    }

    /// The floor of all timestamp strings at or after `iso_string`.
    pub fn since(iso_string: &str) -> (r: String)
        ensures
            r@ == since_spec(iso_string@),
    {
        let mut r = iso_string.to_owned();
        r.append("-0000-0000000000000000");
        proof {
            reveal_strlit("-0000-0000000000000000");
        }
        assert(r@ =~= since_spec(iso_string@));
        r
    }

    /// The floor of all timestamp strings at or after `millis`.
    pub fn format_since(millis: i64) -> (r: String)
        ensures
            r@ == since_spec(rfc3339_of(millis)),
    {
        let iso = format_rfc3339(millis);
        Timestamp::since(iso.as_str())
    }

    /// A random node id: sixteen lower-case hexadecimal digits.
    pub fn generate_short_uuid() -> (r: String)
        ensures
            r@.len() == 16,
            forall|i: int| 0 <= i < 16 ==> is_lower_hex(#[trigger] r@[i]),
    {
        let u = random_simple_uuid();
        let cs = chars_of(u.as_str());
        let mut r = String::new();
        let mut i: usize = 32;
        while i > 16
            invariant
                16 <= i <= 32,
                cs@ == u@,
                u@.len() == 32,
                forall|j: int| 0 <= j < 32 ==> is_lower_hex(#[trigger] u@[j]),
                r@.len() == 32 - i,
                forall|j: int| 0 <= j < r@.len() ==> is_lower_hex(#[trigger] r@[j]),
            decreases i,
        {
            i = i - 1;
            push_char(&mut r, cs[i]);
        }
        r
    }

    /// The send step at physical time `phys`: on success the clock advances
    /// and a copy of the new time is returned; on failure the clock is kept.
    pub fn send_at(&mut self, phys: i64) -> (r: Result<Timestamp, Error>)
        ensures
            sent_at(old(self)@, final(self)@, r, phys),
    {
        let l_old = self.millis;
        let c_old = self.counter;
        let l_new = if l_old >= phys { l_old } else { phys };
        if (l_new as i128) - (phys as i128) > (MAX_DRIFT as i128) {
            return Err(Error::ClockDrift);
        }
        let c_new: usize = if l_new == l_old {
            if c_old >= MAX_COUNTER {
                return Err(Error::Overflow);
            }
            c_old + 1
        } else {
            0
        };
        self.millis = l_new;
        self.counter = c_new;
        Ok(self.copy())
    }

    /// The receive step at physical time `phys`: merges `other` into this
    /// clock, or fails and keeps it.
    pub fn recv_at(&mut self, other: &Timestamp, phys: i64) -> (r: Result<(), Error>)
        ensures
            received_at(old(self)@, final(self)@, other@, r, phys),
    {
        let l_msg = other.millis;
        let c_msg = other.counter;
        if other.node == self.node {
            return Err(Error::DuplicateNode);
        }
        if (l_msg as i128) - (phys as i128) > (MAX_DRIFT as i128) {
            return Err(Error::ClockDrift);
        }
        let l_old = self.millis;
        let c_old = self.counter;
        let l_max = if l_old >= phys { l_old } else { phys };
        let l_new = if l_max >= l_msg { l_max } else { l_msg };
        if (l_new as i128) - (phys as i128) > (MAX_DRIFT as i128) {
            return Err(Error::ClockDrift);
        }
        let c_base: usize = if l_new == l_old && l_new == l_msg {
            if c_old >= c_msg { c_old } else { c_msg }
        } else if l_new == l_old {
            c_old
        } else if l_new == l_msg {
            c_msg
        } else {
            0
        };
        let c_new: usize = if l_new == l_old || l_new == l_msg {
            if c_base >= MAX_COUNTER {
                return Err(Error::Overflow);
            }
            c_base + 1
        } else {
            0
        };
        self.millis = l_new;
        self.counter = c_new;
        Ok(())
    }

    /// Advances the clock for an outgoing event and returns the new time.
    pub fn send(&mut self) -> (r: Result<Timestamp, Error>)
        ensures
            (r == Err::<Timestamp, Error>(Error::ClockUnavailable) && final(self)@ == old(self)@)
                || exists|phys: i64| sent_at(old(self)@, final(self)@, r, phys),
    {
        match now_ms() {
            Some(phys) => self.send_at(phys),
            None => Err(Error::ClockUnavailable),
        }
    }

    /// Merges the time of an incoming event into the clock.
    pub fn recv(&mut self, other_timestamp: &Timestamp) -> (r: Result<(), Error>)
        ensures
            (r == Err::<(), Error>(Error::ClockUnavailable) && final(self)@ == old(self)@)
                || exists|phys: i64| received_at(old(self)@, final(self)@, other_timestamp@, r, phys),
    {
        match now_ms() {
            Some(phys) => self.recv_at(other_timestamp, phys),
            None => Err(Error::ClockUnavailable),
        }
    }
}

/// A successful send moves the clock strictly forward and keeps its node.
pub proof fn lemma_send_advances(t: TimestampView, phys: i64)
    requires
        send_next(t, phys) is Ok,
    ensures
        ts_lt(t, send_next(t, phys)->Ok_0),
        send_next(t, phys)->Ok_0.node == t.node,
{
}

/// A successful receive moves the clock strictly forward and keeps its node.
pub proof fn lemma_recv_advances(t: TimestampView, o: TimestampView, phys: i64)
    requires
        recv_next(t, o, phys) is Ok,
    ensures
        ts_lt(t, recv_next(t, o, phys)->Ok_0),
        recv_next(t, o, phys)->Ok_0.node == t.node,
{
}

pub proof fn lemma_ts_lt_transitive(a: TimestampView, b: TimestampView, c: TimestampView)
    requires
        ts_lt(a, b),
        ts_lt(b, c),
    ensures
        ts_lt(a, c),
{
    if a.millis == b.millis && b.millis == c.millis && a.counter == b.counter && b.counter
        == c.counter {
        crate::text::lemma_lex_lt_transitive(a.node, b.node, c.node);
    }
}

/// Monotonicity and uniqueness: along any run of successful sends and
/// receives on one node, each clock state is strictly later than every
/// earlier one, so no two of them (and no two timestamps handed out by
/// `send`) are equal.
pub proof fn lemma_clock_run_strictly_increasing(h: Seq<TimestampView>)
    requires
        forall|i: int| 0 <= i < h.len() - 1 ==> #[trigger] clock_step(h[i], h[i + 1]),
    ensures
        forall|i: int, j: int| 0 <= i < j < h.len() ==> #[trigger] ts_lt(h[i], h[j]),
        forall|i: int, j: int| 0 <= i < j < h.len() ==> h[i] != h[j],
    decreases h.len(),
{
    if h.len() > 1 {
        let g = h.drop_last();
        assert forall|i: int| 0 <= i < g.len() - 1 implies #[trigger] clock_step(g[i], g[i + 1]) by {
            assert(clock_step(h[i], h[i + 1]));
        }
        lemma_clock_run_strictly_increasing(g);
        let n = h.len() - 1;
        let k = n - 1;
        assert(clock_step(h[k], h[k + 1]));
        if exists|phys: i64| #[trigger] send_next(h[n - 1], phys) == Ok::<TimestampView, Error>(h[n]) {
            let phys = choose|phys: i64| #[trigger] send_next(h[n - 1], phys) == Ok::<TimestampView, Error>(h[n]);
            lemma_send_advances(h[n - 1], phys);
        } else {
            let (o, phys) = choose|o: TimestampView, phys: i64| #[trigger] recv_next(h[n - 1], o, phys) == Ok::<TimestampView, Error>(h[n]);
            lemma_recv_advances(h[n - 1], o, phys);
        }
        assert forall|i: int, j: int| 0 <= i < j < h.len() implies #[trigger] ts_lt(h[i], h[j]) by {
            if j < n {
                assert(ts_lt(g[i], g[j]));
            } else if i < n - 1 {
                assert(ts_lt(g[i], g[n - 1]));
                lemma_ts_lt_transitive(h[i], h[n - 1], h[n]);
            }
        }
        assert forall|i: int, j: int| 0 <= i < j < h.len() implies h[i] != h[j] by {
            assert(ts_lt(h[i], h[j]));
            crate::text::lemma_lex_lt_irreflexive(h[i].node);
        }
    } else {
        assert forall|i: int, j: int| 0 <= i < j < h.len() implies h[i] != h[j] by {}
    }
}

} // verus!
