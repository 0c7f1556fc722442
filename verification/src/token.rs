//! Lock tokens as they travel in headers: `opaquelocktoken:` and the number
//! of the token in base 16.
use vstd::prelude::*;
use vstd::slice::slice_subrange;

use crate::davpath::bytes_eq;
use crate::ls::LockToken;
use crate::percent::{hex_value, hex_value_of, is_hex_digit};

verus! {

/// The text `opaquelocktoken:`.
pub open spec fn token_scheme() -> Seq<u8> {
    seq![111u8, 112u8, 97u8, 113u8, 117u8, 101u8, 108u8, 111u8, 99u8, 107u8, 116u8, 111u8, 107u8,
        101u8, 110u8, 58u8]
}

/// The lower-case digit of base 16 that stands for `d`.
pub open spec fn low_digit(d: int) -> u8 {
    if d < 10 {
        (48 + d) as u8
    } else {
        (87 + d) as u8
    }
}

/// The number `n` in base 16, without leading zeros.
pub open spec fn hex_bytes(n: int) -> Seq<u8>
    decreases n,
{
    if n < 16 {
        seq![low_digit(n)]
    } else {
        hex_bytes(n / 16).push(low_digit(n % 16))
    }
}

/// The number that digits of base 16 stand for; none unless there is at
/// least one byte and every byte is such a digit.
pub open spec fn number_of(s: Seq<u8>) -> Option<int>
    decreases s.len(),
{
    if s.len() == 0 || !is_hex_digit(s.last()) {
        None
    } else if s.len() == 1 {
        Some(hex_value(s.last()) as int)
    } else {
        match number_of(s.drop_last()) {
            Some(v) => Some(v * 16 + hex_value(s.last())),
            None => None,
        }
    }
}

/// The text of a token.
pub open spec fn token_text(t: LockToken) -> Seq<u8> {
    token_scheme() + hex_bytes(t.id as int)
}

/// The token that a text stands for: the scheme, then a number in base 16
/// that fits in 64 bits.
pub open spec fn parse_token_spec(raw: Seq<u8>) -> Option<LockToken> {
    if raw.len() > 16 && raw.take(16) == token_scheme() {
        match number_of(raw.skip(16)) {
            Some(v) => if 0 <= v <= u64::MAX {
                Some(LockToken { id: v as u64 })
            } else {
                None
            },
            None => None,
        }
    } else {
        None
    }
}

/// The token that a header names: the text of a token between `<` and `>`.
pub open spec fn parse_coded_spec(raw: Seq<u8>) -> Option<LockToken> {
    if raw.len() >= 2 && raw[0] == 60 && raw.last() == 62 {
        parse_token_spec(raw.subrange(1, raw.len() - 1))
    } else {
        None
    }
}

/// The header form of a token.
pub open spec fn coded_text(t: LockToken) -> Seq<u8> {
    seq![60u8] + token_text(t) + seq![62u8]
}

/// The second at which a lock ends that is asked for at the second `now` for
/// `timeout` seconds: never, if no time is named; at the last second that
/// can be counted, if the sum cannot be.
pub open spec fn deadline_spec(now: u64, timeout: Option<u64>) -> Option<u64> {
    match timeout {
        None => None,
        Some(t) => Some(
            if now + t > u64::MAX {
                u64::MAX
            } else {
                (now + t) as u64
            },
        ),
    }
}

/// A number is read back from its digits.
pub proof fn lemma_number_of_hex(n: int)
    requires
        0 <= n,
    ensures
        number_of(hex_bytes(n)) == Some(n),
        hex_bytes(n).len() > 0,
    decreases n,
{
    if n < 16 {
        let s = hex_bytes(n);
        assert(s.last() == low_digit(n));
    } else {
        lemma_number_of_hex(n / 16);
        let s = hex_bytes(n);
        let head = hex_bytes(n / 16);
        assert(s.last() == low_digit(n % 16));
        assert(s.drop_last() =~= head);
        assert(s.len() > 1);
    }
}

/// A token is read back from its text.
pub proof fn lemma_parse_token_text(t: LockToken)
    ensures
        parse_token_spec(token_text(t)) == Some(t),
{
    let raw = token_text(t);
    lemma_number_of_hex(t.id as int);
    assert(raw.take(16) =~= token_scheme());
    assert(raw.skip(16) =~= hex_bytes(t.id as int));
}

/// A token is read back from its header form.
pub proof fn lemma_parse_coded_text(t: LockToken)
    ensures
        parse_coded_spec(coded_text(t)) == Some(t),
{
    let raw = coded_text(t);
    lemma_parse_token_text(t);
    assert(raw.subrange(1, raw.len() - 1) =~= token_text(t));
}

/// What digits stand for is not negative.
proof fn lemma_number_not_negative(s: Seq<u8>)
    ensures
        number_of(s) matches Some(v) ==> v >= 0,
    decreases s.len(),
{
    if s.len() > 1 {
        lemma_number_not_negative(s.drop_last());
    }
}

/// More digits never stand for less.
proof fn lemma_number_grows(s: Seq<u8>, i: int)
    requires
        1 <= i <= s.len(),
    ensures
        number_of(s) is Some ==> number_of(s.take(i)) is Some && number_of(s)->0 >= number_of(
            s.take(i),
        )->0,
    decreases s.len(),
{
    if i == s.len() {
        assert(s.take(i) =~= s);
    } else {
        let head = s.drop_last();
        assert(head.take(i) =~= s.take(i));
        lemma_number_grows(head, i);
        lemma_number_not_negative(head);
    }
}

fn push_hex_bytes(out: &mut Vec<u8>, n: u64)
    ensures
        final(out)@ == old(out)@ + hex_bytes(n as int),
    decreases n,
{
    if n >= 16 {
        push_hex_bytes(out, n / 16);
    }
    let ghost before = out@;
    let d = n % 16;
    let digit: u8 = if d < 10 {
        (48 + d) as u8
    } else {
        (87 + d) as u8
    };
    out.push(digit);
    proof {
        if n >= 16 {
            assert(before.push(digit) =~= old(out)@ + hex_bytes(n as int));
        } else {
            assert(before.push(digit) =~= old(out)@ + hex_bytes(n as int));
        }
    }
}

impl LockToken {
    /// The text of the token.
    pub fn to_bytes(&self) -> (out: Vec<u8>)
        ensures
            out@ == token_text(*self),
    {
        let mut out: Vec<u8> = Vec::new();
        out.push(111);
        out.push(112);
        out.push(97);
        out.push(113);
        out.push(117);
        out.push(101);
        out.push(108);
        out.push(111);
        out.push(99);
        out.push(107);
        out.push(116);
        out.push(111);
        out.push(107);
        out.push(101);
        out.push(110);
        out.push(58);
        proof {
            assert(out@ =~= token_scheme());
        }
        push_hex_bytes(&mut out, self.id);
        out
    }

    /// The token that `raw` stands for, if it stands for one.
    pub fn parse(raw: &[u8]) -> (t: Option<LockToken>)
        ensures
            t == parse_token_spec(raw@),
    {
        let n = raw.len();
        if n <= 16 {
            return None;
        }
        let scheme: [u8; 16] = [111, 112, 97, 113, 117, 101, 108, 111, 99, 107, 116, 111, 107, 101, 110, 58];
        proof {
            assert(scheme@ =~= token_scheme());
            assert(raw@.take(16) =~= raw@.subrange(0, 16));
        }
        if !bytes_eq(slice_subrange(raw, 0, 16), scheme.as_slice()) {
            return None;
        }
        let ghost digits = raw@.skip(16);
        let mut value: u64 = 0;
        let mut i: usize = 16;
        while i < n
            invariant
                16 <= i <= n,
                n == raw.len(),
                n > 16,
                digits == raw@.skip(16),
                i == 16 ==> value == 0,
                i > 16 ==> number_of(digits.take(i - 16)) == Some(value as int),
            decreases n - i,
        {
            let ghost done = digits.take(i - 16);
            let ghost next = digits.take(i - 16 + 1);
            proof {
                assert(next.last() == raw@[i as int]);
                assert(next.drop_last() =~= done);
                lemma_number_grows(digits, i - 16 + 1);
            }
            match hex_value_of(raw[i]) {
                None => {
                    return None;
                },
                Some(d) => {
                    if value > (u64::MAX - d as u64) / 16 {
                        proof {
                            assert(number_of(next) == Some(value * 16 + d));
                            assert(value * 16 + d > u64::MAX);
                        }
                        return None;
                    }
                    value = value * 16 + d as u64;
                },
            }
            i += 1;
        }
        proof {
            assert(digits.take(n - 16) =~= digits);
        }
        Some(LockToken { id: value })
    }
}

impl LockToken {
    /// The header form of the token.
    pub fn to_coded(&self) -> (out: Vec<u8>)
        ensures
            out@ == coded_text(*self),
    {
        let mut out: Vec<u8> = Vec::new();
        out.push(60);
        let mut text = self.to_bytes();
        out.append(&mut text);
        out.push(62);
        proof {
            assert(out@ =~= coded_text(*self));
        }
        out
    }

    /// The token that the header value `raw` names, if it names one.
    pub fn parse_coded(raw: &[u8]) -> (t: Option<LockToken>)
        ensures
            t == parse_coded_spec(raw@),
    {
        let n = raw.len();
        if n >= 2 && raw[0] == 60 && raw[n - 1] == 62 {
            LockToken::parse(slice_subrange(raw, 1, n - 1))
        } else {
            None
        }
    }
}

/// The second at which a lock ends; see `deadline_spec`.
pub fn deadline_after(now: u64, timeout: Option<u64>) -> (d: Option<u64>)
    ensures
        d == deadline_spec(now, timeout),
{
    match timeout {
        None => None,
        Some(t) => Some(
            if t > u64::MAX - now {
                u64::MAX
            } else {
                now + t
            },
        ),
    }
}

} // verus!
