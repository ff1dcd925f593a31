//! The identifier codec: maps an identifier's serialized bytes to a
//! path-safe text of hexadecimal digits, two per byte, and back.
//!
//! The encoded form is bounded: an empty identifier is rejected, and so is
//! one whose encoding would exceed [`MAX_ENCODED_LEN`] characters.

use vstd::prelude::*;
use crate::error::Error;
use crate::error::ErrorKind;
use vstd::string::StringExecFns;
use vstd::string::StrSliceExecFns;

verus! {

/// The longest encoded identifier accepted, in characters.
pub const MAX_ENCODED_LEN: usize = 128;

/// The most identifier bytes that fit in [`MAX_ENCODED_LEN`] characters.
pub const MAX_ID_BYTES: usize = 64;

/// The hexadecimal digit for a value below 16.
pub open spec fn hex_digit(n: int) -> char {
    if n == 0 {
        '0'
    } else if n == 1 {
        '1'
    } else if n == 2 {
        '2'
    } else if n == 3 {
        '3'
    } else if n == 4 {
        '4'
    } else if n == 5 {
        '5'
    } else if n == 6 {
        '6'
    } else if n == 7 {
        '7'
    } else if n == 8 {
        '8'
    } else if n == 9 {
        '9'
    } else if n == 10 {
        'a'
    } else if n == 11 {
        'b'
    } else if n == 12 {
        'c'
    } else if n == 13 {
        'd'
    } else if n == 14 {
        'e'
    } else {
        'f'
    }
}

/// The value of a hexadecimal digit, or `None` for any character outside
/// the alphabet.
pub open spec fn hex_val(c: char) -> Option<u8> {
    if c == '0' {
        Some(0u8)
    } else if c == '1' {
        Some(1u8)
    } else if c == '2' {
        Some(2u8)
    } else if c == '3' {
        Some(3u8)
    } else if c == '4' {
        Some(4u8)
    } else if c == '5' {
        Some(5u8)
    } else if c == '6' {
        Some(6u8)
    } else if c == '7' {
        Some(7u8)
    } else if c == '8' {
        Some(8u8)
    } else if c == '9' {
        Some(9u8)
    } else if c == 'a' {
        Some(10u8)
    } else if c == 'b' {
        Some(11u8)
    } else if c == 'c' {
        Some(12u8)
    } else if c == 'd' {
        Some(13u8)
    } else if c == 'e' {
        Some(14u8)
    } else if c == 'f' {
        Some(15u8)
    } else {
        None
    }
}

/// The hexadecimal text of a byte sequence: high nibble then low nibble of
/// each byte, in order.
pub open spec fn hex_encode(bytes: Seq<u8>) -> Seq<char>
    decreases bytes.len(),
{
    if bytes.len() == 0 {
        Seq::empty()
    } else {
        seq![hex_digit(bytes.first() as int / 16), hex_digit(bytes.first() as int % 16)]
            + hex_encode(bytes.drop_first())
    }
}

/// The bytes of a hexadecimal text: `None` on an odd length or on any
/// character outside the alphabet.
pub open spec fn hex_decode(s: Seq<char>) -> Option<Seq<u8>>
    decreases s.len(),
{
    if s.len() == 0 {
        Some(Seq::empty())
    } else if s.len() == 1 {
        None
    } else {
        match (hex_val(s[0]), hex_val(s[1])) {
            (Some(h), Some(l)) => match hex_decode(s.skip(2)) {
                Some(r) => Some(seq![(16 * h + l) as u8] + r),
                None => None,
            },
            _ => None,
        }
    }
}

pub proof fn lemma_hex_encode_len(bytes: Seq<u8>)
    ensures
        hex_encode(bytes).len() == 2 * bytes.len(),
    decreases bytes.len(),
{
    if bytes.len() > 0 {
        lemma_hex_encode_len(bytes.drop_first());
    }
}

/// Decoding inverts encoding: the hexadecimal text of any byte sequence
/// decodes back to exactly those bytes.
pub proof fn lemma_hex_round_trip(bytes: Seq<u8>)
    ensures
        hex_decode(hex_encode(bytes)) == Some(bytes),
    decreases bytes.len(),
{
    if bytes.len() == 0 {
        assert(bytes =~= Seq::<u8>::empty());
    } else {
        let b = bytes.first();
        let s = hex_encode(bytes);
        lemma_hex_encode_len(bytes.drop_first());
        assert(s[0] == hex_digit(b as int / 16));
        assert(s[1] == hex_digit(b as int % 16));
        assert(hex_val(hex_digit(b as int / 16)) == Some((b / 16) as u8));
        assert(hex_val(hex_digit(b as int % 16)) == Some((b % 16) as u8));
        assert(s.skip(2) =~= hex_encode(bytes.drop_first()));
        lemma_hex_round_trip(bytes.drop_first());
        assert(16 * (b / 16) + (b % 16) == b) by {
            vstd::arithmetic::div_mod::lemma_fundamental_div_mod(b as int, 16);
        }
        assert(seq![(16 * (b / 16) + (b % 16)) as u8] + bytes.drop_first() =~= bytes);
    }
}

pub proof fn lemma_hex_encode_snoc(bytes: Seq<u8>, x: u8)
    ensures
        hex_encode(bytes.push(x)) == hex_encode(bytes) + seq![
            hex_digit(x as int / 16),
            hex_digit(x as int % 16),
        ],
    decreases bytes.len(),
{
    if bytes.len() == 0 {
        assert(bytes.push(x).first() == x);
        assert(bytes.push(x).drop_first() =~= Seq::<u8>::empty());
        assert(hex_encode(Seq::<u8>::empty()) =~= Seq::<char>::empty());
        assert(hex_encode(bytes.push(x)) == seq![
            hex_digit(x as int / 16),
            hex_digit(x as int % 16),
        ] + hex_encode(bytes.push(x).drop_first()));
        assert(hex_encode(bytes.push(x)) =~= hex_encode(bytes) + seq![
            hex_digit(x as int / 16),
            hex_digit(x as int % 16),
        ]);
    } else {
        assert(bytes.push(x).first() == bytes.first());
        assert(bytes.push(x).drop_first() =~= bytes.drop_first().push(x));
        lemma_hex_encode_snoc(bytes.drop_first(), x);
        assert(hex_encode(bytes.push(x)) =~= hex_encode(bytes) + seq![
            hex_digit(x as int / 16),
            hex_digit(x as int % 16),
        ]);
    }
}

/// The one-character text of a hexadecimal digit.
fn hex_str(n: u8) -> (s: &'static str)
    requires
        n < 16,
    ensures
        s@ == seq![hex_digit(n as int)],
{
    let s: &'static str = if n == 0 {
        "0"
    } else if n == 1 {
        "1"
    } else if n == 2 {
        "2"
    } else if n == 3 {
        "3"
    } else if n == 4 {
        "4"
    } else if n == 5 {
        "5"
    } else if n == 6 {
        "6"
    } else if n == 7 {
        "7"
    } else if n == 8 {
        "8"
    } else if n == 9 {
        "9"
    } else if n == 10 {
        "a"
    } else if n == 11 {
        "b"
    } else if n == 12 {
        "c"
    } else if n == 13 {
        "d"
    } else if n == 14 {
        "e"
    } else {
        "f"
    };
    proof {
        reveal_strlit("0");
        reveal_strlit("1");
        reveal_strlit("2");
        reveal_strlit("3");
        reveal_strlit("4");
        reveal_strlit("5");
        reveal_strlit("6");
        reveal_strlit("7");
        reveal_strlit("8");
        reveal_strlit("9");
        reveal_strlit("a");
        reveal_strlit("b");
        reveal_strlit("c");
        reveal_strlit("d");
        reveal_strlit("e");
        reveal_strlit("f");
        assert(s@ =~= seq![hex_digit(n as int)]);
    }
    s
}

/// The value of a hexadecimal character, or `None` outside the alphabet.
fn hex_val_of(c: char) -> (r: Option<u8>)
    ensures
        r == hex_val(c),
{
    match c {
        '0' => Some(0),
        '1' => Some(1),
        '2' => Some(2),
        '3' => Some(3),
        '4' => Some(4),
        '5' => Some(5),
        '6' => Some(6),
        '7' => Some(7),
        '8' => Some(8),
        '9' => Some(9),
        'a' => Some(10),
        'b' => Some(11),
        'c' => Some(12),
        'd' => Some(13),
        'e' => Some(14),
        'f' => Some(15),
        _ => None,
    }
}

/// Encodes serialized identifier bytes as bounded hexadecimal text.
/// Fails on an empty identifier and on one longer than [`MAX_ID_BYTES`]
/// bytes, whose text would exceed [`MAX_ENCODED_LEN`] characters.
pub fn encode_bytes(bytes: &Vec<u8>) -> (r: Result<String, Error>)
    ensures
        match r {
            Ok(s) => 1 <= bytes@.len() <= MAX_ID_BYTES && s@ == hex_encode(bytes@),
            Err(e) => (bytes@.len() == 0 || bytes@.len() > MAX_ID_BYTES) && e.spec_kind()
                == ErrorKind::Encoding,
        },
{
    let n = bytes.len();
    if n == 0 {
        return Err(Error::with_kind(
            ErrorKind::Encoding,
            String::from_str("identifier serializes to no bytes"),
        ));
    }
    if n > MAX_ID_BYTES {
        return Err(Error::with_kind(
            ErrorKind::Encoding,
            String::from_str("encoded identifier exceeds the maximum length"),
        ));
    }
    let mut out = String::new();
    proof {
        assert(bytes@.take(0) =~= Seq::<u8>::empty());
        assert(out@ =~= hex_encode(bytes@.take(0)));
    }
    let mut i: usize = 0;
    while i < n
        invariant
            n == bytes@.len(),
            i <= n,
            out@ == hex_encode(bytes@.take(i as int)),
        decreases n - i,
    {
        let b = bytes[i];
        out.append(hex_str(b / 16));
        out.append(hex_str(b % 16));
        proof {
            assert(bytes@.take(i + 1) =~= bytes@.take(i as int).push(bytes@[i as int]));
            lemma_hex_encode_snoc(bytes@.take(i as int), bytes@[i as int]);
            assert(out@ =~= hex_encode(bytes@.take(i + 1)));
        }
        i = i + 1;
    }
    proof {
        assert(bytes@.take(n as int) =~= bytes@);
    }
    Ok(out)
}

/// Decodes hexadecimal text back to the identifier bytes it encodes.
/// Fails on an odd length and on any character outside the alphabet.
pub fn decode_text(s: &str) -> (r: Result<Vec<u8>, Error>)
    ensures
        match hex_decode(s@) {
            Some(b) => r matches Ok(v) && v@ == b,
            None => r matches Err(e) && e.spec_kind() == ErrorKind::Encoding,
        },
{
    let n = s.unicode_len();
    let mut out: Vec<u8> = Vec::new();
    let mut i: usize = 0;
    proof {
        assert(s@.skip(0) =~= s@);
        let d = hex_decode(s@);
        if d is Some {
            assert(Seq::<u8>::empty() + d->Some_0 =~= d->Some_0);
        }
    }
    while i < n
        invariant
            n == s@.len(),
            i <= n,
            i % 2 == 0,
            match hex_decode(s@.skip(i as int)) {
                Some(rem) => hex_decode(s@) == Some(out@ + rem),
                None => hex_decode(s@) is None,
            },
        decreases n - i,
    {
        let ghost tail = s@.skip(i as int);
        if i + 1 >= n {
            return Err(Error::with_kind(
                ErrorKind::Encoding,
                String::from_str("entry name has an odd number of characters"),
            ));
        }
        let c1 = s.get_char(i);
        let c2 = s.get_char(i + 1);
        proof {
            assert(tail[0] == s@[i as int]);
            assert(tail[1] == s@[i + 1]);
        }
        let h = match hex_val_of(c1) {
            Some(h) => h,
            None => {
                return Err(Error::with_kind(
                    ErrorKind::Encoding,
                    String::from_str("entry name holds a character outside the alphabet"),
                ));
            },
        };
        let l = match hex_val_of(c2) {
            Some(l) => l,
            None => {
                return Err(Error::with_kind(
                    ErrorKind::Encoding,
                    String::from_str("entry name holds a character outside the alphabet"),
                ));
            },
        };
        let ghost pre_out = out@;
        out.push(16 * h + l);
        proof {
            assert(tail.skip(2) =~= s@.skip(i + 2));
            let d = hex_decode(s@.skip(i + 2));
            if d is Some {
                assert(pre_out + (seq![(16 * h + l) as u8] + d->Some_0) =~= out@ + d->Some_0);
            }
        }
        i = i + 2;
    }
    proof {
        assert(s@.skip(n as int) =~= Seq::<char>::empty());
        assert(out@ + Seq::<u8>::empty() =~= out@);
    }
    Ok(out)
}

} // verus!
