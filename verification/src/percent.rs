//! Percent-encoding and strict percent-decoding of URL path segments.
//!
//! Encoding keeps ASCII alphanumerics and `-`, `.`, `_`, `~` and turns every
//! other byte into `%` followed by two uppercase hex digits. Decoding is
//! strict: a `%` not followed by two hex digits is a malformed segment and is
//! rejected, so a request carrying one can be answered with a client error.
use vstd::prelude::*;
use vstd::string::StrSliceExecFns;
use vstd::string::StringSliceAdditionalSpecFns;

verus! {

/// The bytes that percent-encoding leaves unchanged:
/// ASCII alphanumerics and `-`, `.`, `_`, `~`.
pub open spec fn is_unreserved(b: u8) -> bool {
    ||| (0x30 <= b && b <= 0x39)  // '0'..='9'
    ||| (0x41 <= b && b <= 0x5a)  // 'A'..='Z'
    ||| (0x61 <= b && b <= 0x7a)  // 'a'..='z'
    ||| b == 0x2d  // '-'
    ||| b == 0x2e  // '.'
    ||| b == 0x5f  // '_'
    ||| b == 0x7e  // '~'
}

/// The uppercase hex digit for a value below 16.
pub open spec fn hex_upper(d: u8) -> u8
    recommends
        d < 16,
{
    if d < 10 {
        (0x30 + d) as u8  // '0' + d
    } else {
        (0x41 + (d - 10)) as u8  // 'A' + (d - 10)
    }
}

/// The value of one hex digit byte, upper or lower case.
pub open spec fn hex_value(b: u8) -> Option<u8> {
    if 0x30 <= b && b <= 0x39 {
        Some((b - 0x30) as u8)
    } else if 0x41 <= b && b <= 0x46 {
        Some((b - 0x41 + 10) as u8)
    } else if 0x61 <= b && b <= 0x66 {
        Some((b - 0x61 + 10) as u8)
    } else {
        None
    }
}

/// The percent-encoded form of one byte.
pub open spec fn pct_encode_byte(b: u8) -> Seq<u8> {
    if is_unreserved(b) {
        seq![b]
    } else {
        seq![0x25u8, hex_upper(b / 16), hex_upper(b % 16)]  // '%' hi lo
    }
}

/// The percent-encoded form of a byte sequence.
pub open spec fn pct_encode(s: Seq<u8>) -> Seq<u8>
    decreases s.len(),
{
    if s.len() == 0 {
        Seq::empty()
    } else {
        pct_encode_byte(s[0]) + pct_encode(s.drop_first())
    }
}

/// The percent-encoded form of a byte sequence, as the characters of the
/// encoded string (every encoded byte is ASCII).
pub open spec fn pct_encode_chars(s: Seq<u8>) -> Seq<char> {
    pct_encode(s).map_values(|b: u8| b as char)
}

/// Strict percent-decoding: `%` must be followed by two hex digits; every
/// other byte stands for itself. `None` means the input is malformed.
pub open spec fn pct_decode(s: Seq<u8>) -> Option<Seq<u8>>
    decreases s.len(),
{
    if s.len() == 0 {
        Some(Seq::empty())
    } else if s[0] == 0x25 {
        if s.len() >= 3 && hex_value(s[1]) is Some && hex_value(s[2]) is Some {
            match pct_decode(s.skip(3)) {
                Some(rest) => Some(
                    seq![(hex_value(s[1]).unwrap() * 16 + hex_value(s[2]).unwrap()) as u8] + rest,
                ),
                None => None,
            }
        } else {
            None
        }
    } else {
        match pct_decode(s.drop_first()) {
            Some(rest) => Some(seq![s[0]] + rest),
            None => None,
        }
    }
}

/// The value of one hex digit byte, upper or lower case.
pub fn hex_digit_value(b: u8) -> (r: Option<u8>)
    ensures
        r == hex_value(b),
{
    if 0x30 <= b && b <= 0x39 {
        Some(b - 0x30)
    } else if 0x41 <= b && b <= 0x46 {
        Some(b - 0x41 + 10)
    } else if 0x61 <= b && b <= 0x66 {
        Some(b - 0x61 + 10)
    } else {
        None
    }
}

/// Strictly percent-decodes the bytes of a request path segment.
/// Returns `None` exactly when the segment holds invalid percent-encoding.
pub fn decode_path(raw: &str) -> (r: Option<Vec<u8>>)
    ensures
        r is Some <==> pct_decode(raw.spec_bytes()) is Some,
        r is Some ==> r.unwrap()@ == pct_decode(raw.spec_bytes()).unwrap(),
{
    let bytes = raw.as_bytes_vec();
    let n = bytes.len();
    let mut out: Vec<u8> = Vec::new();
    let mut i: usize = 0;
    proof {
        assert(bytes@.skip(0) =~= bytes@);
        if pct_decode(bytes@) is Some {
            assert(out@ + pct_decode(bytes@).unwrap() =~= pct_decode(bytes@).unwrap());
        }
    }
    while i < n
        invariant
            n == bytes@.len(),
            bytes@ == raw.spec_bytes(),
            0 <= i <= n,
            pct_decode(bytes@) == match pct_decode(bytes@.skip(i as int)) {
                Some(rest) => Some(out@ + rest),
                None => None::<Seq<u8>>,
            },
        decreases n - i,
    {
        let b = bytes[i];
        if b == 0x25 {
            if n - i < 3 {
                proof {
                    assert(pct_decode(bytes@.skip(i as int)) is None);
                }
                return None;
            }
            let hi = hex_digit_value(bytes[i + 1]);
            let lo = hex_digit_value(bytes[i + 2]);
            proof {
                assert(bytes@.skip(i as int)[1] == bytes@[i + 1]);
                assert(bytes@.skip(i as int)[2] == bytes@[i + 2]);
            }
            match (hi, lo) {
                (Some(h), Some(l)) => {
                    proof {
                        assert(bytes@.skip(i as int).skip(3) =~= bytes@.skip(i + 3));
                        assert(h < 16 && l < 16);
                    }
                    out.push(h * 16 + l);
                    proof {
                        if pct_decode(bytes@.skip(i + 3)) is Some {
                            let rest = pct_decode(bytes@.skip(i + 3)).unwrap();
                            assert(out@ + rest =~= (out@.drop_last())
                                + (seq![(h * 16 + l) as u8] + rest));
                        }
                    }
                    i = i + 3;
                },
                _ => {
                    proof {
                        assert(pct_decode(bytes@.skip(i as int)) is None);
                    }
                    return None;
                },
            }
        } else {
            out.push(b);
            proof {
                assert(bytes@.skip(i as int).drop_first() =~= bytes@.skip(i + 1));
                if pct_decode(bytes@.skip(i + 1)) is Some {
                    let rest = pct_decode(bytes@.skip(i + 1)).unwrap();
                    assert(out@ + rest =~= (out@.drop_last()) + (seq![b] + rest));
                }
            }
            i = i + 1;
        }
    }
    proof {
        assert(bytes@.skip(n as int) =~= Seq::<u8>::empty());
        assert(pct_decode(bytes@.skip(n as int)) == Some(Seq::<u8>::empty()));
        assert(out@ + Seq::<u8>::empty() =~= out@);
    }
    Some(out)
}

proof fn lemma_hex_round(d: u8)
    requires
        d < 16,
    ensures
        hex_value(hex_upper(d)) == Some(d),
{
}

/// Law: strictly decoding the percent-encoded form of any byte sequence
/// gives back that sequence.
pub proof fn lemma_pct_round_trip(s: Seq<u8>)
    ensures
        pct_decode(pct_encode(s)) == Some(s),
    decreases s.len(),
{
    if s.len() == 0 {
        assert(pct_encode(s) =~= Seq::<u8>::empty());
        assert(pct_decode(pct_encode(s)) == Some(Seq::<u8>::empty()));
        assert(Seq::<u8>::empty() =~= s);
    } else {
        let b = s[0];
        let rest = s.drop_first();
        lemma_pct_round_trip(rest);
        let enc = pct_encode(s);
        if is_unreserved(b) {
            assert(enc == seq![b] + pct_encode(rest));
            assert(enc[0] == b);
            assert(b != 0x25);
            assert(enc.drop_first() =~= pct_encode(rest));
            assert(pct_decode(enc) == Some(seq![b] + rest));
            assert(seq![b] + rest =~= s);
        } else {
            let hi = b / 16;
            let lo = b % 16;
            assert(hi < 16 && lo < 16);
            lemma_hex_round(hi);
            lemma_hex_round(lo);
            assert(enc == seq![0x25u8, hex_upper(hi), hex_upper(lo)] + pct_encode(rest));
            assert(enc[0] == 0x25 && enc[1] == hex_upper(hi) && enc[2] == hex_upper(lo));
            assert(enc.len() >= 3);
            assert(enc.skip(3) =~= pct_encode(rest));
            assert(hi * 16 + lo == b);
            assert(pct_decode(enc) == Some(seq![b] + rest));
            assert(seq![b] + rest =~= s);
        }
    }
}

/// Law: the encoded form of a byte sequence is all ASCII, and reading the
/// encoded string back as bytes gives exactly the encoded byte sequence.
pub proof fn lemma_pct_encode_ascii(s: Seq<u8>)
    ensures
        vstd::utf8::is_ascii_chars(pct_encode_chars(s)),
        vstd::utf8::encode_utf8(pct_encode_chars(s)) == pct_encode(s),
    decreases s.len(),
{
    lemma_pct_encode_bytes_ascii(s);
    let chars = pct_encode_chars(s);
    assert forall|i: int| 0 <= i < chars.len() implies (#[trigger] chars[i]) as nat <= 127 by {
        assert(chars[i] == pct_encode(s)[i] as char);
    }
    assert(vstd::utf8::is_ascii_chars(chars));
    vstd::utf8::is_ascii_chars_encode_utf8(chars);
    assert(vstd::utf8::encode_utf8(chars) =~= pct_encode(s)) by {
        vstd::utf8::is_ascii_chars_encode_utf8(chars);
        assert forall|i: int| 0 <= i < chars.len() implies vstd::utf8::encode_utf8(chars)[i]
            == pct_encode(s)[i] by {
            assert(chars[i] == pct_encode(s)[i] as char);
        }
    }
}

proof fn lemma_pct_encode_bytes_ascii(s: Seq<u8>)
    ensures
        forall|i: int| 0 <= i < pct_encode(s).len() ==> (#[trigger] pct_encode(s)[i]) < 128,
    decreases s.len(),
{
    if s.len() > 0 {
        lemma_pct_encode_bytes_ascii(s.drop_first());
        assert forall|i: int| 0 <= i < pct_encode(s).len() implies (#[trigger] pct_encode(s)[i])
            < 128 by {
            let eb = pct_encode_byte(s[0]);
            assert(pct_encode(s) == eb + pct_encode(s.drop_first()));
            if i < eb.len() {
                assert(pct_encode(s)[i] == eb[i]);
            } else {
                assert(pct_encode(s)[i] == pct_encode(s.drop_first())[i - eb.len()]);
            }
        }
    }
}

/// Law: percent-decoding the string that percent-encoding produced for a name
/// reproduces the name exactly, for every sequence of name bytes.
pub proof fn lemma_percent_round_trip(name: Seq<u8>)
    ensures
        pct_decode(vstd::utf8::encode_utf8(pct_encode_chars(name))) == Some(name),
{
    lemma_pct_encode_ascii(name);
    lemma_pct_round_trip(name);
}

/// Relies on `urlencoding::encode`: it percent-encodes every byte of the
/// string except ASCII alphanumerics and `-`, `.`, `_`, `~`, writing `%` and
/// two uppercase hex digits for each encoded byte.
#[verifier::external_body]
pub(crate) fn percent_encode(name: &str) -> (r: String)
    ensures
        r@ == pct_encode_chars(name.spec_bytes()),
{
    urlencoding::encode(name).into_owned()
}

} // verus!
