//! Percent-encoding of the bytes of a path segment.
use vstd::prelude::*;

verus! {

/// The byte `%`.
pub const PERCENT: u8 = 37;

/// Whether `b` is an ASCII digit of base 16, in either case.
pub open spec fn is_hex_digit(b: u8) -> bool {
    (48 <= b <= 57) || (65 <= b <= 70) || (97 <= b <= 102)
}

/// The value of a digit of base 16.
pub open spec fn hex_value(b: u8) -> u8
    recommends
        is_hex_digit(b),
{
    if 48 <= b <= 57 {
        (b - 48) as u8
    } else if 65 <= b <= 70 {
        (b - 55) as u8
    } else {
        (b - 87) as u8
    }
}

/// The upper-case digit of base 16 that stands for `n`.
pub open spec fn hex_digit(n: u8) -> u8
    recommends
        n < 16,
{
    if n < 10 {
        (48 + n) as u8
    } else {
        (55 + n) as u8
    }
}

/// Whether `b` stands for itself in an encoded segment: letters, digits and
/// the marks `-._~!$&'()*+,;=:@`.
pub open spec fn is_plain(b: u8) -> bool {
    (48 <= b <= 57) || (65 <= b <= 90) || (97 <= b <= 122) || b == 45 || b == 46 || b == 95
        || b == 126 || b == 33 || b == 36 || (38 <= b <= 44) || b == 58 || b == 59 || b == 61
        || b == 64
}

/// One byte in encoded form: itself, or `%` and its two digits.
pub open spec fn encode_byte(b: u8) -> Seq<u8> {
    if is_plain(b) {
        seq![b]
    } else {
        seq![PERCENT, hex_digit(b / 16), hex_digit(b % 16)]
    }
}

/// The encoded form of a sequence of bytes.
pub open spec fn encode(s: Seq<u8>) -> Seq<u8>
    decreases s.len(),
{
    if s.len() == 0 {
        Seq::empty()
    } else {
        encode_byte(s[0]) + encode(s.skip(1))
    }
}

/// `head` put in front of what `tail` holds, if it holds anything.
pub open spec fn prepend(head: Seq<u8>, tail: Option<Seq<u8>>) -> Option<Seq<u8>> {
    match tail {
        Some(t) => Some(head + t),
        None => None,
    }
}

/// The bytes that an encoded sequence stands for. Every `%` must be followed
/// by two digits of base 16; otherwise there is no decoded form.
pub open spec fn decode(s: Seq<u8>) -> Option<Seq<u8>>
    decreases s.len(),
{
    if s.len() == 0 {
        Some(Seq::empty())
    } else if s[0] == PERCENT {
        if s.len() >= 3 && is_hex_digit(s[1]) && is_hex_digit(s[2]) {
            prepend(seq![(hex_value(s[1]) * 16 + hex_value(s[2])) as u8], decode(s.skip(3)))
        } else {
            None
        }
    } else {
        prepend(seq![s[0]], decode(s.skip(1)))
    }
}

/// Whether every byte is a printable ASCII character.
pub open spec fn is_printable(s: Seq<u8>) -> bool {
    forall|i: int| 0 <= i < s.len() ==> 32 <= #[trigger] s[i] <= 126
}

/// What a decoder returns, as a sequence.
pub open spec fn opt_view(r: Option<Vec<u8>>) -> Option<Seq<u8>> {
    match r {
        Some(v) => Some(v@),
        None => None,
    }
}

/// The upper-case digit of base 16 that stands for `n`.
pub fn hex_digit_of(n: u8) -> (d: u8)
    requires
        n < 16,
    ensures
        d == hex_digit(n),
        is_hex_digit(d),
        hex_value(d) == n,
{
    if n < 10 {
        48 + n
    } else {
        55 + n
    }
}

/// The value of `b` as a digit of base 16, if it is one.
pub fn hex_value_of(b: u8) -> (v: Option<u8>)
    ensures
        v.is_some() == is_hex_digit(b),
        v matches Some(n) ==> n == hex_value(b) && n < 16,
{
    if 48 <= b && b <= 57 {
        Some(b - 48)
    } else if 65 <= b && b <= 70 {
        Some(b - 55)
    } else if 97 <= b && b <= 102 {
        Some(b - 87)
    } else {
        None
    }
}

/// Whether `b` stands for itself in an encoded segment.
pub fn is_plain_byte(b: u8) -> (r: bool)
    ensures
        r == is_plain(b),
{
    (48 <= b && b <= 57) || (65 <= b && b <= 90) || (97 <= b && b <= 122) || b == 45 || b == 46
        || b == 95 || b == 126 || b == 33 || b == 36 || (38 <= b && b <= 44) || b == 58 || b
        == 59 || b == 61 || b == 64
}

/// Appends the encoded form of `s` to `out`.
pub fn percent_encode_into(s: &[u8], out: &mut Vec<u8>)
    ensures
        final(out)@ == old(out)@ + encode(s@),
{
    let mut i: usize = 0;
    proof {
        assert(s@.skip(0) =~= s@);
    }
    while i < s.len()
        invariant
            i <= s.len(),
            out@ + encode(s@.skip(i as int)) == old(out)@ + encode(s@),
        decreases s.len() - i,
    {
        let b = s[i];
        proof {
            let rest = s@.skip(i as int);
            assert(rest[0] == b);
            assert(rest.skip(1) =~= s@.skip(i + 1));
            assert(encode(rest) == encode_byte(b) + encode(s@.skip(i + 1)));
            assert((out@ + encode_byte(b)) + encode(s@.skip(i + 1)) =~= out@ + encode(rest));
        }
        let ghost before = out@;
        if is_plain_byte(b) {
            out.push(b);
            proof {
                assert(out@ =~= before + encode_byte(b));
            }
        } else {
            out.push(PERCENT);
            out.push(hex_digit_of(b / 16));
            out.push(hex_digit_of(b % 16));
            proof {
                assert(out@ =~= before + encode_byte(b));
            }
        }
        i += 1;
    }
    proof {
        assert(s@.skip(s@.len() as int) =~= Seq::<u8>::empty());
        assert(out@ + Seq::<u8>::empty() =~= out@);
    }
}

/// The encoded form of `s`.
pub fn percent_encode(s: &[u8]) -> (out: Vec<u8>)
    ensures
        out@ == encode(s@),
{
    let mut out: Vec<u8> = Vec::new();
    percent_encode_into(s, &mut out);
    proof {
        assert(Seq::<u8>::empty() + encode(s@) =~= encode(s@));
    }
    out
}

/// The bytes that `s` stands for, or `None` where a `%` lacks its two digits.
pub fn percent_decode(s: &[u8]) -> (r: Option<Vec<u8>>)
    ensures
        opt_view(r) == decode(s@),
{
    let mut out: Vec<u8> = Vec::new();
    let mut i: usize = 0;
    proof {
        assert(s@.skip(0) =~= s@);
        lemma_prepend_empty(decode(s@));
    }
    while i < s.len()
        invariant
            i <= s.len(),
            decode(s@) == prepend(out@, decode(s@.skip(i as int))),
        decreases s.len() - i,
    {
        let b = s[i];
        let ghost rest = s@.skip(i as int);
        let ghost before = out@;
        proof {
            assert(rest[0] == b);
        }
        if b == PERCENT {
            if s.len() - i < 3 {
                return None;
            }
            let hi = hex_value_of(s[i + 1]);
            let lo = hex_value_of(s[i + 2]);
            proof {
                assert(rest[1] == s[i + 1]);
                assert(rest[2] == s[i + 2]);
                assert(rest.skip(3) =~= s@.skip(i + 3));
            }
            match (hi, lo) {
                (Some(h), Some(l)) => {
                    let v: u8 = h * 16 + l;
                    out.push(v);
                    proof {
                        lemma_prepend_assoc(before, seq![v], decode(s@.skip(i + 3)));
                        assert(out@ =~= before + seq![v]);
                    }
                    i += 3;
                },
                _ => {
                    return None;
                },
            }
        } else {
            out.push(b);
            proof {
                assert(rest.skip(1) =~= s@.skip(i + 1));
                lemma_prepend_assoc(before, seq![b], decode(s@.skip(i + 1)));
                assert(out@ =~= before + seq![b]);
            }
            i += 1;
        }
    }
    proof {
        assert(s@.skip(s@.len() as int) =~= Seq::<u8>::empty());
        assert(out@ + Seq::<u8>::empty() =~= out@);
    }
    Some(out)
}

proof fn lemma_prepend_empty(t: Option<Seq<u8>>)
    ensures
        prepend(Seq::empty(), t) == t,
{
    match t {
        Some(x) => {
            assert(Seq::<u8>::empty() + x =~= x);
        },
        None => {},
    }
}

proof fn lemma_prepend_assoc(a: Seq<u8>, b: Seq<u8>, t: Option<Seq<u8>>)
    ensures
        prepend(a, prepend(b, t)) == prepend(a + b, t),
{
    match t {
        Some(x) => {
            assert(a + (b + x) =~= (a + b) + x);
        },
        None => {},
    }
}

/// A digit and its value belong together.
pub proof fn lemma_hex_digit_value(n: u8)
    requires
        n < 16,
    ensures
        is_hex_digit(hex_digit(n)),
        hex_value(hex_digit(n)) == n,
        32 <= hex_digit(n) <= 126,
        hex_digit(n) != 47,
{
}

/// The decoded form of a sequence that starts with one encoded byte.
pub proof fn lemma_decode_encoded_byte(b: u8, rest: Seq<u8>)
    ensures
        decode(encode_byte(b) + rest) == prepend(seq![b], decode(rest)),
{
    let s = encode_byte(b) + rest;
    if is_plain(b) {
        assert(s[0] == b);
        assert(s.skip(1) =~= rest);
    } else {
        let hi = (b / 16) as u8;
        let lo = (b % 16) as u8;
        lemma_hex_digit_value(hi);
        lemma_hex_digit_value(lo);
        assert(s[0] == PERCENT);
        assert(s[1] == hex_digit(hi));
        assert(s[2] == hex_digit(lo));
        assert(s.skip(3) =~= rest);
        assert(hi * 16 + lo == b);
    }
}

/// Decoding undoes encoding.
pub proof fn lemma_decode_encode(s: Seq<u8>)
    ensures
        decode(encode(s)) == Some(s),
    decreases s.len(),
{
    if s.len() == 0 {
    } else {
        lemma_decode_encode(s.skip(1));
        lemma_decode_encoded_byte(s[0], encode(s.skip(1)));
        assert(seq![s[0]] + s.skip(1) =~= s);
    }
}

/// An encoded sequence is printable and holds no separator.
pub proof fn lemma_encode_is_clean(s: Seq<u8>)
    ensures
        is_printable(encode(s)),
        forall|i: int| 0 <= i < encode(s).len() ==> #[trigger] encode(s)[i] != 47,
        s.len() > 0 ==> encode(s).len() > 0,
    decreases s.len(),
{
    if s.len() > 0 {
        lemma_encode_is_clean(s.skip(1));
        let h = encode_byte(s[0]);
        let t = encode(s.skip(1));
        lemma_hex_digit_value((s[0] / 16) as u8);
        lemma_hex_digit_value((s[0] % 16) as u8);
        assert forall|i: int| 0 <= i < encode(s).len() implies 32 <= #[trigger] encode(s)[i] <= 126
            && encode(s)[i] != 47 by {
            if i < h.len() {
                assert(encode(s)[i] == h[i]);
            } else {
                assert(encode(s)[i] == t[i - h.len()]);
            }
        }
    }
}

} // verus!
