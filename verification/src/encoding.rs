//! The fingerprint encoder: a sequence's content hash, rendered as uppercase
//! hexadecimal, re-encoded as standard base64 with the trailing padding
//! stripped.

use base64::Engine;
use vstd::prelude::*;

verus! {

/// A hex digit's numeric value, or -1 where the character is no hex digit.
/// Decoding is case-insensitive.
pub open spec fn hex_digit_val(c: char) -> int {
    let x = c as u32;
    if 48 <= x && x <= 57 {
        x - 48
    } else if 65 <= x && x <= 70 {
        x - 65 + 10
    } else if 97 <= x && x <= 102 {
        x - 97 + 10
    } else {
        -1
    }
}

pub open spec fn is_hex_digit(c: char) -> bool {
    hex_digit_val(c) >= 0
}

/// An uppercase hex digit: `0`-`9` or `A`-`F`.
pub open spec fn is_upper_hex_digit(c: char) -> bool {
    let x = c as u32;
    (48 <= x && x <= 57) || (65 <= x && x <= 70)
}

/// The bytes encoded by a hex string: each successive pair of digits becomes
/// one byte, most-significant nibble first. A malformed pair is skipped, and
/// a trailing unpaired character is ignored.
pub open spec fn hex_to_bytes(s: Seq<char>) -> Seq<u8>
    decreases s.len(),
{
    if s.len() < 2 {
        Seq::empty()
    } else if is_hex_digit(s[0]) && is_hex_digit(s[1]) {
        seq![(hex_digit_val(s[0]) * 16 + hex_digit_val(s[1])) as u8] + hex_to_bytes(s.skip(2))
    } else {
        hex_to_bytes(s.skip(2))
    }
}

/// The standard base64 alphabet: `A`-`Z`, `a`-`z`, `0`-`9`, `+`, `/`.
pub open spec fn b64_char(v: int) -> char {
    if 0 <= v && v < 26 {
        ((65 + v) as u8) as char
    } else if 26 <= v && v < 52 {
        ((97 + (v - 26)) as u8) as char
    } else if 52 <= v && v < 62 {
        ((48 + (v - 52)) as u8) as char
    } else if v == 62 {
        '+'
    } else {
        '/'
    }
}

/// Four base64 characters encoding a full group of three bytes.
pub open spec fn b64_group(b0: u8, b1: u8, b2: u8) -> Seq<char> {
    seq![
        b64_char(b0 as int / 4),
        b64_char((b0 as int % 4) * 16 + b1 as int / 16),
        b64_char((b1 as int % 16) * 4 + b2 as int / 64),
        b64_char(b2 as int % 64),
    ]
}

/// Standard base64 of a byte sequence, with `=` padding: groups of three
/// bytes become four characters; a final group of one or two bytes is padded
/// to four characters with `==` or `=`.
pub open spec fn base64_of(b: Seq<u8>) -> Seq<char>
    decreases b.len(),
{
    if b.len() == 0 {
        Seq::empty()
    } else if b.len() == 1 {
        seq![b64_char(b[0] as int / 4), b64_char((b[0] as int % 4) * 16), '=', '=']
    } else if b.len() == 2 {
        seq![
            b64_char(b[0] as int / 4),
            b64_char((b[0] as int % 4) * 16 + b[1] as int / 16),
            b64_char((b[1] as int % 16) * 4),
            '=',
        ]
    } else {
        b64_group(b[0], b[1], b[2]) + base64_of(b.skip(3))
    }
}

/// The sequence with its trailing run of `=` characters removed.
pub open spec fn strip_trailing_eq(s: Seq<char>) -> Seq<char>
    decreases s.len(),
{
    if s.len() > 0 && s[s.len() - 1] == '=' {
        strip_trailing_eq(s.drop_last())
    } else {
        s
    }
}

/// The content hash of a character sequence, rendered as 32 uppercase hex
/// digits. Only the trusted `md5_hex` wrapper gives this name a value.
pub uninterp spec fn md5_hex_of(s: Seq<char>) -> Seq<char>;

/// The fingerprint token of a sequence: its content hash re-encoded from hex
/// to base64, with the `=` padding stripped.
pub open spec fn fingerprint_of(s: Seq<char>) -> Seq<char> {
    strip_trailing_eq(base64_of(hex_to_bytes(md5_hex_of(s))))
}

/// Relies on md5::compute (a digest of the argument's bytes alone) and on the
/// md5 crate's UpperHex rendering of a Digest, which writes each of the 16
/// digest bytes as two uppercase hex digits.
#[verifier::external_body]
fn md5_hex(s: &str) -> (r: String)
    ensures
        r@ == md5_hex_of(s@),
        r@.len() == 32,
        forall|i: int| 0 <= i < r@.len() ==> is_upper_hex_digit(#[trigger] r@[i]),
{
    format!("{:X}", md5::compute(s.as_bytes()))
}

/// Relies on base64's general_purpose::STANDARD engine: standard alphabet,
/// `=` padding, no line wrapping.
#[verifier::external_body]
fn base64_encode(bytes: &Vec<u8>) -> (r: String)
    ensures
        r@ == base64_of(bytes@),
{
    base64::engine::general_purpose::STANDARD.encode(bytes)
}

/// Decodes a hex digit, `None` where the character is no hex digit.
fn hex_digit_value(c: char) -> (r: Option<u8>)
    ensures
        r == (if is_hex_digit(c) {
            Some(hex_digit_val(c) as u8)
        } else {
            None::<u8>
        }),
{
    let x = c as u32;
    if 48 <= x && x <= 57 {
        Some((x - 48) as u8)
    } else if 65 <= x && x <= 70 {
        Some((x - 65 + 10) as u8)
    } else if 97 <= x && x <= 102 {
        Some((x - 97 + 10) as u8)
    } else {
        None
    }
}

/// Re-encodes a hex string as base64 of the bytes it denotes, with all
/// trailing `=` padding stripped. A malformed digit pair is skipped.
pub fn hex_to_base64(hex: String) -> (r: String)
    ensures
        r@ == strip_trailing_eq(base64_of(hex_to_bytes(hex@))),
{
    let hs = hex.as_str();
    let n = hs.unicode_len();
    let mut bytes: Vec<u8> = Vec::new();
    let mut i: usize = 0;
    proof {
        assert(hex@.skip(0) =~= hex@);
        assert(bytes@ + hex_to_bytes(hex@) =~= hex_to_bytes(hex@));
    }
    while i < n && i + 1 < n
        invariant
            n == hex@.len(),
            hs@ == hex@,
            i <= n,
            bytes@ + hex_to_bytes(hex@.skip(i as int)) == hex_to_bytes(hex@),
        decreases n - i,
    {
        let a = hs.get_char(i);
        let b = hs.get_char(i + 1);
        proof {
            assert(hex@.skip(i as int)[0] == a);
            assert(hex@.skip(i as int)[1] == b);
            assert(hex@.skip(i as int).skip(2) =~= hex@.skip(i + 2));
        }
        match (hex_digit_value(a), hex_digit_value(b)) {
            (Some(hi), Some(lo)) => {
                assert(hi < 16 && lo < 16);
                bytes.push(hi * 16 + lo);
                proof {
                    assert(bytes@ + hex_to_bytes(hex@.skip(i + 2)) =~= hex_to_bytes(hex@));
                }
            },
            _ => {
                proof {
                    assert(bytes@ + hex_to_bytes(hex@.skip(i + 2)) =~= hex_to_bytes(hex@));
                }
            },
        }
        i = i + 2;
    }
    proof {
        assert(hex_to_bytes(hex@.skip(i as int)) =~= Seq::<u8>::empty());
        assert(bytes@ =~= hex_to_bytes(hex@));
    }
    let encoded = base64_encode(&bytes);
    strip_padding(encoded)
}

/// Removes the trailing run of `=` characters from a string.
fn strip_padding(s: String) -> (r: String)
    ensures
        r@ == strip_trailing_eq(s@),
{
    let ss = s.as_str();
    let n = ss.unicode_len();
    let mut end: usize = n;
    proof {
        assert(s@.take(n as int) =~= s@);
    }
    while end > 0 && ss.get_char(end - 1) == '='
        invariant
            n == s@.len(),
            ss@ == s@,
            end <= n,
            strip_trailing_eq(s@.take(end as int)) == strip_trailing_eq(s@),
        decreases end,
    {
        proof {
            assert(s@.take(end as int).drop_last() =~= s@.take(end - 1));
        }
        end = end - 1;
    }
    proof {
        assert(strip_trailing_eq(s@.take(end as int)) == s@.take(end as int));
    }
    let kept = ss.substring_char(0, end);
    proof {
        assert(kept@ =~= s@.take(end as int));
    }
    kept.to_owned()
}

/// The fingerprint token of a sequence: its 128-bit content hash as uppercase
/// hex, re-encoded as base64 and stripped of padding. A pure function of the
/// sequence content, 22 characters long, free of `=`.
pub fn fingerprint(sequence: &str) -> (r: String)
    ensures
        r@ == fingerprint_of(sequence@),
        r@.len() == 22,
        has_no_eq(r@),
{
    let hx = md5_hex(sequence);
    proof {
        lemma_fingerprint_no_padding(sequence@);
        lemma_hex_to_bytes_len(hx@);
        lemma_strip_base64_len_mod_one(hex_to_bytes(hx@));
    }
    hex_to_base64(hx)
}

/// Holds where no character of the sequence is `=`.
pub open spec fn has_no_eq(s: Seq<char>) -> bool {
    forall|i: int| 0 <= i < s.len() ==> #[trigger] s[i] != '='
}

/// Stripping trailing `=` from a sequence whose head holds none distributes
/// over the concatenation.
proof fn lemma_strip_prepend(x: Seq<char>, y: Seq<char>)
    requires
        has_no_eq(x),
    ensures
        strip_trailing_eq(x + y) == x + strip_trailing_eq(y),
    decreases y.len(),
{
    if y.len() == 0 {
        assert(x + y =~= x);
        if x.len() > 0 {
            assert(x[x.len() - 1] != '=');
        }
        assert(x + strip_trailing_eq(y) =~= x);
    } else if y[y.len() - 1] == '=' {
        assert((x + y)[(x + y).len() - 1] == y[y.len() - 1]);
        assert((x + y).drop_last() =~= x + y.drop_last());
        lemma_strip_prepend(x, y.drop_last());
    } else {
        assert((x + y)[(x + y).len() - 1] == y[y.len() - 1]);
        assert(strip_trailing_eq(x + y) == x + y);
        assert(strip_trailing_eq(y) == y);
    }
}

/// Base64 output holds `=` only as trailing padding, so stripping the
/// trailing run leaves no `=` at all.
proof fn lemma_strip_b64_no_eq(b: Seq<u8>)
    ensures
        has_no_eq(strip_trailing_eq(base64_of(b))),
    decreases b.len(),
{
    if b.len() == 0 {
        assert(strip_trailing_eq(base64_of(b)) =~= Seq::<char>::empty());
    } else if b.len() == 1 {
        let c0 = b64_char(b[0] as int / 4);
        let c1 = b64_char((b[0] as int % 4) * 16);
        let s = base64_of(b);
        assert(s == seq![c0, c1, '=', '=']);
        assert(s[3] == '=');
        assert(s.drop_last() =~= seq![c0, c1, '=']);
        assert(seq![c0, c1, '='][2] == '=');
        assert(seq![c0, c1, '='].drop_last() =~= seq![c0, c1]);
        assert(seq![c0, c1][1] == c1);
        assert(c1 != '=');
        assert(strip_trailing_eq(s) == strip_trailing_eq(seq![c0, c1, '=']));
        assert(strip_trailing_eq(seq![c0, c1, '=']) == strip_trailing_eq(seq![c0, c1]));
        assert(strip_trailing_eq(seq![c0, c1]) == seq![c0, c1]);
        assert(strip_trailing_eq(s) == seq![c0, c1]);
        assert(has_no_eq(seq![c0, c1]));
    } else if b.len() == 2 {
        let c0 = b64_char(b[0] as int / 4);
        let c1 = b64_char((b[0] as int % 4) * 16 + b[1] as int / 16);
        let c2 = b64_char((b[1] as int % 16) * 4);
        let s = base64_of(b);
        assert(s == seq![c0, c1, c2, '=']);
        assert(s[3] == '=');
        assert(s.drop_last() =~= seq![c0, c1, c2]);
        assert(seq![c0, c1, c2][2] == c2);
        assert(c2 != '=');
        assert(strip_trailing_eq(seq![c0, c1, c2]) == seq![c0, c1, c2]);
        assert(strip_trailing_eq(s) == seq![c0, c1, c2]);
        assert(has_no_eq(seq![c0, c1, c2]));
    } else {
        let g = b64_group(b[0], b[1], b[2]);
        let rest = base64_of(b.skip(3));
        assert(has_no_eq(g)) by {
            assert(g[0] != '=' && g[1] != '=' && g[2] != '=' && g[3] != '=');
        }
        lemma_strip_prepend(g, rest);
        lemma_strip_b64_no_eq(b.skip(3));
        let tail = strip_trailing_eq(rest);
        assert(strip_trailing_eq(base64_of(b)) == g + tail);
        assert forall|i: int| 0 <= i < (g + tail).len() implies #[trigger] (g + tail)[i]
            != '=' by {
            if i < g.len() {
                assert((g + tail)[i] == g[i]);
            } else {
                assert((g + tail)[i] == tail[i - g.len()]);
            }
        }
    }
}

/// No padding: a fingerprint token never contains `=`.
pub proof fn lemma_fingerprint_no_padding(s: Seq<char>)
    ensures
        has_no_eq(fingerprint_of(s)),
{
    lemma_strip_b64_no_eq(hex_to_bytes(md5_hex_of(s)));
}

/// Content addressing: byte-identical sequence content gives an identical
/// fingerprint, whatever identifiers or files the sequences come from; in
/// particular two computations on one sequence agree.
pub proof fn lemma_fingerprint_content_addressed(s1: Seq<char>, s2: Seq<char>)
    requires
        s1 == s2,
    ensures
        fingerprint_of(s1) == fingerprint_of(s2),
{
}

/// A string of hex digits encodes one byte per digit pair.
proof fn lemma_hex_to_bytes_len(s: Seq<char>)
    requires
        forall|i: int| 0 <= i < s.len() ==> is_hex_digit(#[trigger] s[i]),
    ensures
        hex_to_bytes(s).len() == s.len() / 2,
    decreases s.len(),
{
    if s.len() < 2 {
    } else {
        assert(is_hex_digit(s[0]) && is_hex_digit(s[1]));
        lemma_hex_to_bytes_len(s.skip(2));
    }
}

/// For a byte count of the form 3k + 1, base64 ends in `==` and stripping
/// removes exactly those two characters.
proof fn lemma_strip_base64_len_mod_one(b: Seq<u8>)
    requires
        b.len() % 3 == 1,
    ensures
        base64_of(b).len() == ((b.len() + 2) / 3) * 4,
        strip_trailing_eq(base64_of(b)).len() == base64_of(b).len() - 2,
    decreases b.len(),
{
    if b.len() == 1 {
        let c0 = b64_char(b[0] as int / 4);
        let c1 = b64_char((b[0] as int % 4) * 16);
        let s = base64_of(b);
        assert(s == seq![c0, c1, '=', '=']);
        assert(s[3] == '=');
        assert(s.drop_last() =~= seq![c0, c1, '=']);
        assert(seq![c0, c1, '='][2] == '=');
        assert(seq![c0, c1, '='].drop_last() =~= seq![c0, c1]);
        assert(seq![c0, c1][1] == c1);
        assert(c1 != '=');
        assert(strip_trailing_eq(s) == strip_trailing_eq(seq![c0, c1, '=']));
        assert(strip_trailing_eq(seq![c0, c1, '=']) == strip_trailing_eq(seq![c0, c1]));
        assert(strip_trailing_eq(seq![c0, c1]) == seq![c0, c1]);
        assert(strip_trailing_eq(s) == seq![c0, c1]);
    } else {
        let g = b64_group(b[0], b[1], b[2]);
        let rest = base64_of(b.skip(3));
        assert(has_no_eq(g)) by {
            assert(g[0] != '=' && g[1] != '=' && g[2] != '=' && g[3] != '=');
        }
        lemma_strip_prepend(g, rest);
        lemma_strip_base64_len_mod_one(b.skip(3));
    }
}

} // verus!
