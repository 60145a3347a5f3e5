//! Framing for the line-delimited JSON-RPC transport: a payload is sent as
//! `Content-Length: N\r\n\r\n<payload>`, where `N` is the payload's length
//! in bytes, written in decimal.

use vstd::prelude::*;
use vstd::string::StringSliceAdditionalSpecFns;
use vstd::string::StrSliceExecFns;

verus! {

/// The decimal digits of `n`, most significant first, as ASCII bytes.
pub open spec fn dec_bytes(n: nat) -> Seq<u8>
    decreases n,
{
    if n < 10 {
        seq![(48 + n) as u8]
    } else {
        dec_bytes(n / 10).push((48 + n % 10) as u8)
    }
}

/// The bytes of the frame header prefix, `Content-Length: `.
pub open spec fn content_length_prefix() -> Seq<u8> {
    seq![
        67u8, 111u8, 110u8, 116u8, 101u8, 110u8, 116u8, 45u8, 76u8, 101u8, 110u8, 103u8, 116u8, 104u8,
        58u8, 32u8,
    ]
}

/// The full frame for a payload: the header prefix, the payload's byte
/// length in decimal, a blank line, and the payload itself.
pub open spec fn frame_bytes(payload: Seq<u8>) -> Seq<u8> {
    content_length_prefix() + dec_bytes(payload.len()) + seq![13u8, 10u8, 13u8, 10u8]
        + payload
}

/// Appends the decimal digits of `n` to `out`.
fn push_dec(n: u64, out: &mut Vec<u8>)
    ensures
        final(out)@ == old(out)@ + dec_bytes(n as nat),
    decreases n,
{
    if n < 10 {
        out.push(48 + n as u8);
        proof {
            assert(out@ =~= old(out)@ + dec_bytes(n as nat));
        }
    } else {
        push_dec(n / 10, out);
        out.push(48 + (n % 10) as u8);
        proof {
            assert(out@ =~= old(out)@ + dec_bytes(n as nat));
        }
    }
}

/// Builds the framed transport message for one request payload.
pub fn new_request_buf(request: &str) -> (r: Vec<u8>)
    ensures
        r@ == frame_bytes(request.spec_bytes()),
{
    let mut buffer: Vec<u8> = Vec::new();
    buffer.push(67u8);
    buffer.push(111u8);
    buffer.push(110u8);
    buffer.push(116u8);
    buffer.push(101u8);
    buffer.push(110u8);
    buffer.push(116u8);
    buffer.push(45u8);
    buffer.push(76u8);
    buffer.push(101u8);
    buffer.push(110u8);
    buffer.push(103u8);
    buffer.push(116u8);
    buffer.push(104u8);
    buffer.push(58u8);
    buffer.push(32u8);
    proof {
        assert(buffer@ =~= content_length_prefix());
    }
    let payload = request.as_bytes();
    push_dec(payload.len() as u64, &mut buffer);
    buffer.push(13u8);
    buffer.push(10u8);
    buffer.push(13u8);
    buffer.push(10u8);
    let mut i: usize = 0;
    let n = payload.len();
    while i < n
        invariant
            i <= n,
            n == payload@.len(),
            payload@ == request.spec_bytes(),
            buffer@ == content_length_prefix() + dec_bytes(payload@.len()) + seq![
                13u8,
                10u8,
                13u8,
                10u8,
            ] + payload@.take(i as int),
        decreases n - i,
    {
        buffer.push(payload[i]);
        proof {
            assert(buffer@ =~= content_length_prefix() + dec_bytes(payload@.len()) + seq![
                13u8,
                10u8,
                13u8,
                10u8,
            ] + payload@.take(i + 1));
        }
        i = i + 1;
    }
    proof {
        assert(payload@.take(n as int) =~= payload@);
    }
    buffer
}

} // verus!

use vstd::prelude::*;

verus! {

/// A decimal digit.
pub open spec fn is_digit(c: char) -> bool {
    '0' <= c && c <= '9'
}

/// A character trimmed from around a header value.
pub open spec fn is_trim_char(c: char) -> bool {
    c == ' ' || c == '\t' || c == '\r' || c == '\n'
}

/// The characters of the header key, `Content-Length`.
pub open spec fn content_length_key() -> Seq<char> {
    seq!['C', 'o', 'n', 't', 'e', 'n', 't', '-', 'L', 'e', 'n', 'g', 't', 'h']
}

/// The number written by a sequence of decimal digits, most significant
/// first.
pub open spec fn dec_value(s: Seq<char>) -> nat
    decreases s.len(),
{
    if s.len() == 0 {
        0
    } else {
        (dec_value(s.drop_last()) * 10 + (s.last() as int - 48)) as nat
    }
}

/// `s` without its leading trimmed characters.
pub open spec fn trim_front(s: Seq<char>) -> Seq<char>
    decreases s.len(),
{
    if s.len() > 0 && is_trim_char(s[0]) {
        trim_front(s.drop_first())
    } else {
        s
    }
}

/// `s` without its trailing trimmed characters.
pub open spec fn trim_back(s: Seq<char>) -> Seq<char>
    decreases s.len(),
{
    if s.len() > 0 && is_trim_char(s.last()) {
        trim_back(s.drop_last())
    } else {
        s
    }
}

/// What a transport header line announces as the payload length: the line
/// must read `Content-Length: N` — the key, one colon, and a decimal
/// number N with optional surrounding whitespace. Any other line announces
/// nothing.
pub open spec fn spec_content_length(s: Seq<char>) -> Option<nat> {
    if s.len() >= 15 && s.take(14) == content_length_key() && s[14] == ':' && (forall|k: int|
        15 <= k < s.len() ==> s[k] != ':') {
        let v = trim_back(trim_front(s.skip(15)));
        if v.len() > 0 && (forall|i: int| 0 <= i < v.len() ==> is_digit(#[trigger] v[i])) {
            Option::Some(dec_value(v))
        } else {
            Option::None
        }
    } else {
        Option::None
    }
}

proof fn lemma_trim_front_is(s: Seq<char>, k: int)
    requires
        0 <= k <= s.len(),
        forall|i: int| 0 <= i < k ==> is_trim_char(#[trigger] s[i]),
        k == s.len() || !is_trim_char(s[k]),
    ensures
        trim_front(s) == s.skip(k),
    decreases k,
{
    if k == 0 {
        assert(s.skip(0) =~= s);
    } else {
        assert forall|i: int| 0 <= i < k - 1 implies is_trim_char(
            #[trigger] s.drop_first()[i],
        ) by {
            assert(s[i + 1] == s.drop_first()[i]);
        }
        if k - 1 < s.drop_first().len() {
            assert(s.drop_first()[k - 1] == s[k]);
        }
        lemma_trim_front_is(s.drop_first(), k - 1);
        assert(s.drop_first().skip(k - 1) =~= s.skip(k));
    }
}

proof fn lemma_trim_back_is(s: Seq<char>, k: int)
    requires
        0 <= k <= s.len(),
        forall|i: int| k <= i < s.len() ==> is_trim_char(#[trigger] s[i]),
        k == 0 || !is_trim_char(s[k - 1]),
    ensures
        trim_back(s) == s.take(k),
    decreases s.len(),
{
    if s.len() > 0 && is_trim_char(s.last()) {
        lemma_trim_back_is(s.drop_last(), k);
        assert(s.drop_last().take(k) =~= s.take(k));
    } else {
        assert(s.take(s.len() as int) =~= s);
    }
}

proof fn lemma_dec_value_take_step(s: Seq<char>, i: int)
    requires
        0 <= i < s.len(),
        is_digit(s[i]),
    ensures
        dec_value(s.take(i + 1)) == dec_value(s.take(i)) * 10 + (s[i] as int - 48),
{
    assert(s.take(i + 1).drop_last() =~= s.take(i));
    assert(s.take(i + 1).last() == s[i]);
}

proof fn lemma_dec_value_monotone(s: Seq<char>, i: int)
    requires
        0 <= i <= s.len(),
        forall|k: int| 0 <= k < s.len() ==> is_digit(#[trigger] s[k]),
    ensures
        dec_value(s) >= dec_value(s.take(i)),
    decreases s.len() - i,
{
    if i < s.len() {
        lemma_dec_value_take_step(s, i);
        lemma_dec_value_monotone(s, i + 1);
    } else {
        assert(s.take(i) =~= s);
    }
}

/// The character of the header key at position `k`.
fn key_char(k: usize) -> (c: char)
    requires
        k < 14,
    ensures
        c == content_length_key()[k as int],
{
    if k == 0 { 'C' }
    else if k == 1 { 'o' }
    else if k == 2 { 'n' }
    else if k == 3 { 't' }
    else if k == 4 { 'e' }
    else if k == 5 { 'n' }
    else if k == 6 { 't' }
    else if k == 7 { '-' }
    else if k == 8 { 'L' }
    else if k == 9 { 'e' }
    else if k == 10 { 'n' }
    else if k == 11 { 'g' }
    else if k == 12 { 't' }
    else { 'h' }
}

fn is_trim_char_exec(c: char) -> (r: bool)
    ensures
        r == is_trim_char(c),
{
    c == ' ' || c == '\t' || c == '\r' || c == '\n'
}

/// Reads the payload length a transport header line announces, or `None`
/// for any other line or a length beyond `u64`.
pub fn parse_content_length(line: &str) -> (r: Option<u64>)
    ensures
        r matches Some(v) ==> spec_content_length(line@) == Option::Some(v as nat),
        r is None ==> spec_content_length(line@) is None || spec_content_length(
            line@,
        ).unwrap() > u64::MAX,
{
    let n = line.unicode_len();
    if n < 15 {
        return None;
    }
    let mut k: usize = 0;
    while k < 14
        invariant
            k <= 14,
            n == line@.len(),
            n >= 15,
            forall|i: int| 0 <= i < k ==> line@[i] == content_length_key()[i],
        decreases 14 - k,
    {
        if line.get_char(k) != key_char(k) {
            proof {
                assert(line@.take(14)[k as int] != content_length_key()[k as int]);
                assert(line@.take(14) != content_length_key());
                assert(spec_content_length(line@) is None);
            }
            return None;
        }
        k = k + 1;
    }
    proof {
        assert(line@.take(14) =~= content_length_key());
    }
    if line.get_char(14) != ':' {
        proof {
            assert(line@[14] != ':');
            assert(spec_content_length(line@) is None);
        }
        return None;
    }
    let mut q: usize = 15;
    while q < n
        invariant
            15 <= q <= n,
            n == line@.len(),
            forall|i: int| 15 <= i < q ==> line@[i] != ':',
        decreases n - q,
    {
        if line.get_char(q) == ':' {
            proof {
                assert(15 <= q < line@.len() && line@[q as int] == ':');
                assert(spec_content_length(line@) is None);
            }
            return None;
        }
        q = q + 1;
    }
    let ghost rest = line@.skip(15);
    let mut a: usize = 15;
    while a < n && is_trim_char_exec(line.get_char(a))
        invariant
            15 <= a <= n,
            n == line@.len(),
            forall|i: int| 15 <= i < a ==> is_trim_char(#[trigger] line@[i]),
        decreases n - a,
    {
        a = a + 1;
    }
    let mut b: usize = n;
    while b > a && is_trim_char_exec(line.get_char(b - 1))
        invariant
            a <= b <= n,
            n == line@.len(),
            forall|i: int| b <= i < n ==> is_trim_char(#[trigger] line@[i]),
        decreases b,
    {
        b = b - 1;
    }
    proof {
        assert forall|i: int| 0 <= i < a - 15 implies is_trim_char(#[trigger] rest[i]) by {
            assert(rest[i] == line@[15 + i]);
        }
        if a - 15 < rest.len() {
            assert(rest[a - 15] == line@[a as int]);
        }
        lemma_trim_front_is(rest, a - 15);
        let mid = rest.skip(a - 15);
        assert forall|i: int| b - a <= i < mid.len() implies is_trim_char(
            #[trigger] mid[i],
        ) by {
            assert(mid[i] == line@[a + i]);
        }
        if b > a {
            assert(mid[b - a - 1] == line@[b - 1]);
        }
        lemma_trim_back_is(mid, b - a);
        assert(trim_back(trim_front(rest)) =~= line@.subrange(a as int, b as int));
    }
    let ghost v = trim_back(trim_front(rest));
    if b == a {
        proof {
            assert(v.len() == 0);
            assert(spec_content_length(line@) is None);
        }
        return None;
    }
    let mut i: usize = a;
    while i < b
        invariant
            a <= i <= b <= n,
            n == line@.len(),
            n >= 15,
            line@.take(14) == content_length_key(),
            line@[14] == ':',
            forall|cq: int| 15 <= cq < line@.len() ==> line@[cq] != ':',
            v == trim_back(trim_front(line@.skip(15))),
            v == line@.subrange(a as int, b as int),
            v.len() > 0,
            forall|k2: int| a <= k2 < i ==> is_digit(#[trigger] line@[k2]),
        decreases b - i,
    {
        let c = line.get_char(i);
        if !('0' <= c && c <= '9') {
            proof {
                assert(v[i - a] == line@[i as int]);
                assert(!is_digit(v[i - a]));
                assert(spec_content_length(line@) is None);
            }
            return None;
        }
        i = i + 1;
    }
    proof {
        assert forall|i2: int| 0 <= i2 < v.len() implies is_digit(#[trigger] v[i2]) by {
            assert(v[i2] == line@[a + i2]);
        }
    }
    let mut acc: u64 = 0;
    let mut j: usize = a;
    while j < b
        invariant
            a <= j <= b <= n,
            n == line@.len(),
            n >= 15,
            line@.take(14) == content_length_key(),
            line@[14] == ':',
            forall|cq: int| 15 <= cq < line@.len() ==> line@[cq] != ':',
            v == trim_back(trim_front(line@.skip(15))),
            v == line@.subrange(a as int, b as int),
            v.len() > 0,
            forall|k2: int| a <= k2 < b ==> is_digit(#[trigger] line@[k2]),
            forall|i2: int| 0 <= i2 < v.len() ==> is_digit(#[trigger] v[i2]),
            acc as nat == dec_value(v.take(j - a)),
        decreases b - j,
    {
        let c = line.get_char(j);
        proof {
            assert(v[j - a] == line@[j as int]);
            lemma_dec_value_take_step(v, j - a);
        }
        let d = (c as u32) as u64 - 48;
        if acc > (u64::MAX - d) / 10 {
            proof {
                lemma_dec_value_monotone(v, j - a + 1);
                assert(spec_content_length(line@) == Option::Some(dec_value(v)));
                assert(dec_value(v.take(j - a + 1)) == acc * 10 + d);
                assert(acc * 10 + d > u64::MAX);
            }
            return None;
        }
        acc = acc * 10 + d;
        j = j + 1;
    }
    proof {
        assert(v.take(b - a) =~= v);
    }
    Some(acc)
}

} // verus!
