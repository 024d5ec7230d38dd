//! Printable text codec: a bijective mapping between arbitrary byte
//! sequences and a 64-symbol printable alphabet with `=` padding.
//!
//! Input bytes are grouped into 3-byte chunks; each full chunk becomes 4
//! symbols.  A trailing 1-byte chunk becomes 2 symbols plus 2 padding
//! symbols, a trailing 2-byte chunk 3 symbols plus 1 padding symbol, so
//! encoded output always has a length that is a multiple of 4.

use vstd::prelude::*;

verus! {

/// The printable symbol for a 6-bit value: `A`-`Z`, `a`-`z`, `0`-`9`,
/// `+`, `/` in that order.
pub open spec fn sextet_char(s: u8) -> char
    recommends
        s < 64,
{
    if s < 26 {
        ((s + 65) as u8) as char  // 'A'..='Z'
    } else if s < 52 {
        ((s + 71) as u8) as char  // 'a'..='z'
    } else if s < 62 {
        ((s - 4) as u8) as char  // '0'..='9'
    } else if s == 62 {
        '+'
    } else {
        '/'
    }
}

/// The 6-bit value of an alphabet symbol, or `None` for any character
/// outside the alphabet (including the padding symbol `=`).
pub open spec fn char_sextet(c: char) -> Option<u8> {
    let u = c as u32;
    if 65 <= u && u <= 90 {
        Some((u - 65) as u8)
    } else if 97 <= u && u <= 122 {
        Some((u - 71) as u8)
    } else if 48 <= u && u <= 57 {
        Some((u + 4) as u8)
    } else if c == '+' {
        Some(62u8)
    } else if c == '/' {
        Some(63u8)
    } else {
        None
    }
}

/// Every 6-bit value maps to an alphabet symbol that maps back to it,
/// and no alphabet symbol is the padding symbol.
pub proof fn lemma_sextet_roundtrip(s: u8)
    requires
        s < 64,
    ensures
        char_sextet(sextet_char(s)) == Some(s),
        sextet_char(s) != '=',
{
}

/// The four symbols of one full 3-byte chunk.
pub open spec fn encode_group(b0: u8, b1: u8, b2: u8) -> Seq<char> {
    seq![
        sextet_char(b0 >> 2),
        sextet_char(((b0 & 3) << 4) | (b1 >> 4)),
        sextet_char(((b1 & 15) << 2) | (b2 >> 6)),
        sextet_char(b2 & 63),
    ]
}

/// The encoded form of a byte sequence: full 3-byte chunks, then a
/// padded final group for a 1- or 2-byte remainder.
pub open spec fn spec_encode(data: Seq<u8>) -> Seq<char>
    decreases data.len(),
{
    if data.len() == 0 {
        Seq::empty()
    } else if data.len() == 1 {
        seq![
            sextet_char(data[0] >> 2),
            sextet_char((data[0] & 3) << 4),
            '=',
            '=',
        ]
    } else if data.len() == 2 {
        seq![
            sextet_char(data[0] >> 2),
            sextet_char(((data[0] & 3) << 4) | (data[1] >> 4)),
            sextet_char((data[1] & 15) << 2),
            '=',
        ]
    } else {
        encode_group(data[0], data[1], data[2]) + spec_encode(data.skip(3))
    }
}

/// The bytes of one 4-symbol group, or `None` if the group is
/// malformed: the first two symbols must be alphabet symbols, and `=`
/// may appear only as trailing padding within the group.
pub open spec fn decode_group(c0: char, c1: char, c2: char, c3: char) -> Option<Seq<u8>> {
    match (char_sextet(c0), char_sextet(c1)) {
        (Some(s0), Some(s1)) => {
            if c2 == '=' && c3 == '=' {
                Some(seq![(s0 << 2) | (s1 >> 4)])
            } else if c3 == '=' {
                match char_sextet(c2) {
                    Some(s2) => Some(
                        seq![(s0 << 2) | (s1 >> 4), ((s1 & 15) << 4) | (s2 >> 2)],
                    ),
                    None => None,
                }
            } else {
                match (char_sextet(c2), char_sextet(c3)) {
                    (Some(s2), Some(s3)) => Some(
                        seq![
                            (s0 << 2) | (s1 >> 4),
                            ((s1 & 15) << 4) | (s2 >> 2),
                            ((s2 & 3) << 6) | s3,
                        ],
                    ),
                    _ => None,
                }
            }
        },
        _ => None,
    }
}

/// The decoding of a sequence of 4-symbol groups.
pub open spec fn spec_decode_groups(s: Seq<char>) -> Option<Seq<u8>>
    recommends
        s.len() % 4 == 0,
    decreases s.len(),
{
    if s.len() < 4 {
        Some(Seq::empty())
    } else {
        match (decode_group(s[0], s[1], s[2], s[3]), spec_decode_groups(s.skip(4))) {
            (Some(h), Some(t)) => Some(h + t),
            _ => None,
        }
    }
}

/// The decoding of an encoded text: fails unless the length is a
/// multiple of 4 and every group is well formed.
pub open spec fn spec_decode(s: Seq<char>) -> Option<Seq<u8>> {
    if s.len() % 4 == 0 {
        spec_decode_groups(s)
    } else {
        None
    }
}

fn sextet_to_char(s: u8) -> (c: char)
    requires
        s < 64,
    ensures
        c == sextet_char(s),
{
    if s < 26 {
        (s + 65) as char
    } else if s < 52 {
        (s + 71) as char
    } else if s < 62 {
        (s - 4) as char
    } else if s == 62 {
        '+'
    } else {
        '/'
    }
}

fn char_to_sextet(c: char) -> (r: Option<u8>)
    ensures
        r == char_sextet(c),
{
    let u = c as u32;
    if 65 <= u && u <= 90 {
        Some((u - 65) as u8)
    } else if 97 <= u && u <= 122 {
        Some((u - 71) as u8)
    } else if 48 <= u && u <= 57 {
        Some((u + 4) as u8)
    } else if c == '+' {
        Some(62u8)
    } else if c == '/' {
        Some(63u8)
    } else {
        None
    }
}

/// Encoded output always has a length that is a multiple of 4.
pub proof fn lemma_encode_len(b: Seq<u8>)
    ensures
        spec_encode(b).len() % 4 == 0,
        b.len() > 0 ==> spec_encode(b).len() >= 4,
    decreases b.len(),
{
    if b.len() >= 3 {
        lemma_encode_len(b.skip(3));
    }
}

/// Decoding an encoded byte sequence gives back exactly that sequence:
/// the codec is a bijection onto its range.
pub proof fn lemma_codec_round_trip(b: Seq<u8>)
    ensures
        spec_decode(spec_encode(b)) == Some(b),
    decreases b.len(),
{
    lemma_encode_len(b);
    let e = spec_encode(b);
    if b.len() == 0 {
        assert(Seq::<u8>::empty() =~= b);
    } else if b.len() == 1 {
        let b0 = b[0];
        lemma_sextet_bounds(b0, 0, 0);
        lemma_sextet_roundtrip(b0 >> 2);
        lemma_sextet_roundtrip((b0 & 3) << 4);
        assert((((b0 >> 2) << 2) | (((b0 & 3) << 4) >> 4)) == b0) by (bit_vector);
        assert(e.skip(4) =~= Seq::<char>::empty());
        assert(spec_decode_groups(Seq::<char>::empty()) == Some(Seq::<u8>::empty()));
        assert(seq![b0] + Seq::<u8>::empty() =~= b);
    } else if b.len() == 2 {
        let b0 = b[0];
        let b1 = b[1];
        lemma_sextet_bounds(b0, b1, 0);
        lemma_sextet_roundtrip(b0 >> 2);
        lemma_sextet_roundtrip(((b0 & 3) << 4) | (b1 >> 4));
        lemma_sextet_roundtrip((b1 & 15) << 2);
        assert((((b0 >> 2) << 2) | ((((b0 & 3) << 4) | (b1 >> 4)) >> 4)) == b0) by (bit_vector);
        assert((((((b0 & 3) << 4) | (b1 >> 4)) & 15) << 4) | (((b1 & 15) << 2) >> 2) == b1)
            by (bit_vector);
        assert(e.skip(4) =~= Seq::<char>::empty());
        assert(spec_decode_groups(Seq::<char>::empty()) == Some(Seq::<u8>::empty()));
        assert(seq![b0, b1] + Seq::<u8>::empty() =~= b);
    } else {
        let b0 = b[0];
        let b1 = b[1];
        let b2 = b[2];
        let s0 = b0 >> 2;
        let s1 = ((b0 & 3) << 4) | (b1 >> 4);
        let s2 = ((b1 & 15) << 2) | (b2 >> 6);
        let s3 = b2 & 63;
        lemma_sextet_bounds(b0, b1, b2);
        lemma_sextet_roundtrip(s0);
        lemma_sextet_roundtrip(s1);
        lemma_sextet_roundtrip(s2);
        lemma_sextet_roundtrip(s3);
        let rest = spec_encode(b.skip(3));
        lemma_encode_len(b.skip(3));
        assert(e == encode_group(b0, b1, b2) + rest);
        assert(e[0] == sextet_char(s0) && e[1] == sextet_char(s1) && e[2] == sextet_char(s2)
            && e[3] == sextet_char(s3));
        assert(((s0 << 2) | (s1 >> 4)) == b0 && (((s1 & 15) << 4) | (s2 >> 2)) == b1 && (((s2
            & 3) << 6) | s3) == b2) by (bit_vector)
            requires
                s0 == b0 >> 2 && s1 == ((b0 & 3) << 4) | (b1 >> 4) && s2 == ((b1 & 15) << 2) | (
                b2 >> 6) && s3 == b2 & 63,
        ;
        assert(decode_group(e[0], e[1], e[2], e[3]) == Some(seq![b0, b1, b2]));
        assert(e.skip(4) =~= rest);
        lemma_codec_round_trip(b.skip(3));
        assert(seq![b0, b1, b2] + b.skip(3) =~= b);
    }
}

/// A trailing 1-byte chunk yields exactly 2 padding symbols, a trailing
/// 2-byte chunk exactly 1, and input of a whole number of chunks none:
/// no other position of the encoded text holds the padding symbol.
pub proof fn lemma_encode_padding(b: Seq<u8>)
    ensures
        b.len() % 3 == 0 ==> forall|i: int|
            0 <= i < spec_encode(b).len() ==> #[trigger] spec_encode(b)[i] != '=',
        b.len() % 3 == 1 ==> {
            &&& spec_encode(b).len() >= 4
            &&& spec_encode(b)[spec_encode(b).len() - 1] == '='
            &&& spec_encode(b)[spec_encode(b).len() - 2] == '='
            &&& forall|i: int|
                0 <= i < spec_encode(b).len() - 2 ==> #[trigger] spec_encode(b)[i] != '='
        },
        b.len() % 3 == 2 ==> {
            &&& spec_encode(b).len() >= 4
            &&& spec_encode(b)[spec_encode(b).len() - 1] == '='
            &&& forall|i: int|
                0 <= i < spec_encode(b).len() - 1 ==> #[trigger] spec_encode(b)[i] != '='
        },
    decreases b.len(),
{
    lemma_encode_len(b);
    let e = spec_encode(b);
    if b.len() == 0 {
    } else if b.len() == 1 {
        lemma_sextet_bounds(b[0], 0, 0);
        lemma_sextet_roundtrip(b[0] >> 2);
        lemma_sextet_roundtrip((b[0] & 3) << 4);
    } else if b.len() == 2 {
        lemma_sextet_bounds(b[0], b[1], 0);
        lemma_sextet_roundtrip(b[0] >> 2);
        lemma_sextet_roundtrip(((b[0] & 3) << 4) | (b[1] >> 4));
        lemma_sextet_roundtrip((b[1] & 15) << 2);
    } else {
        lemma_sextet_bounds(b[0], b[1], b[2]);
        lemma_sextet_roundtrip(b[0] >> 2);
        lemma_sextet_roundtrip(((b[0] & 3) << 4) | (b[1] >> 4));
        lemma_sextet_roundtrip(((b[1] & 15) << 2) | (b[2] >> 6));
        lemma_sextet_roundtrip(b[2] & 63);
        lemma_encode_padding(b.skip(3));
        lemma_encode_len(b.skip(3));
        let rest = spec_encode(b.skip(3));
        assert(b.skip(3).len() % 3 == b.len() % 3);
        assert forall|i: int| 4 <= i < e.len() implies e[i] == rest[i - 4] by {
        }
    }
}

/// Bounds on the 6-bit values extracted from a 3-byte chunk.
proof fn lemma_sextet_bounds(b0: u8, b1: u8, b2: u8)
    ensures
        b0 >> 2 < 64,
        ((b0 & 3) << 4) | (b1 >> 4) < 64,
        (b0 & 3) << 4 < 64,
        ((b1 & 15) << 2) | (b2 >> 6) < 64,
        (b1 & 15) << 2 < 64,
        b2 & 63 < 64,
{
    assert(b0 >> 2 < 64) by (bit_vector);
    assert(((b0 & 3) << 4) | (b1 >> 4) < 64) by (bit_vector);
    assert((b0 & 3) << 4 < 64) by (bit_vector);
    assert(((b1 & 15) << 2) | (b2 >> 6) < 64) by (bit_vector);
    assert((b1 & 15) << 2 < 64) by (bit_vector);
    assert(b2 & 63 < 64) by (bit_vector);
}

/// Encodes bytes into the printable alphabet, as a character vector.
pub fn encode_chars(data: &[u8]) -> (r: Vec<char>)
    ensures
        r@ == spec_encode(data@),
{
    let mut out: Vec<char> = Vec::new();
    let mut i: usize = 0;
    proof {
        assert(data@.skip(0) =~= data@);
        assert(out@ + spec_encode(data@) =~= spec_encode(data@));
    }
    while data.len() - i >= 3
        invariant
            i <= data.len(),
            spec_encode(data@) == out@ + spec_encode(data@.skip(i as int)),
        decreases data.len() - i,
    {
        let b0 = data[i];
        let b1 = data[i + 1];
        let b2 = data[i + 2];
        proof {
            lemma_sextet_bounds(b0, b1, b2);
        }
        let ghost prev = out@;
        out.push(sextet_to_char(b0 >> 2));
        out.push(sextet_to_char(((b0 & 3) << 4) | (b1 >> 4)));
        out.push(sextet_to_char(((b1 & 15) << 2) | (b2 >> 6)));
        out.push(sextet_to_char(b2 & 63));
        proof {
            let s = data@.skip(i as int);
            assert(s.len() >= 3);
            assert(s[0] == b0 && s[1] == b1 && s[2] == b2);
            assert(s.skip(3) =~= data@.skip(i as int + 3));
            assert(out@ =~= prev + encode_group(b0, b1, b2));
            assert(out@ + spec_encode(data@.skip(i as int + 3)) =~= prev + spec_encode(s));
        }
        i = i + 3;
    }
    let rem = data.len() - i;
    if rem == 1 {
        let b0 = data[i];
        proof {
            lemma_sextet_bounds(b0, 0, 0);
        }
        let ghost prev = out@;
        out.push(sextet_to_char(b0 >> 2));
        out.push(sextet_to_char((b0 & 3) << 4));
        out.push('=');
        out.push('=');
        proof {
            let s = data@.skip(i as int);
            assert(s.len() == 1 && s[0] == b0);
            assert(out@ =~= prev + spec_encode(s));
        }
    } else if rem == 2 {
        let b0 = data[i];
        let b1 = data[i + 1];
        proof {
            lemma_sextet_bounds(b0, b1, 0);
        }
        let ghost prev = out@;
        out.push(sextet_to_char(b0 >> 2));
        out.push(sextet_to_char(((b0 & 3) << 4) | (b1 >> 4)));
        out.push(sextet_to_char((b1 & 15) << 2));
        out.push('=');
        proof {
            let s = data@.skip(i as int);
            assert(s.len() == 2 && s[0] == b0 && s[1] == b1);
            assert(out@ =~= prev + spec_encode(s));
        }
    } else {
        proof {
            assert(data@.skip(i as int).len() == 0);
        }
    }
    proof {
        assert(out@ =~= spec_encode(data@));
    }
    out
}

/// Decodes a vector of symbols; `Err` exactly when the length is not a
/// multiple of 4 or some group is malformed.
pub fn decode_chars(chars: &[char]) -> (r: Result<Vec<u8>, String>)
    ensures
        match r {
            Ok(v) => spec_decode(chars@) == Some(v@),
            Err(m) => {
                &&& spec_decode(chars@) is None
                &&& chars@.len() % 4 == 0 ==> m@ == "Invalid base64 character"@
                &&& chars@.len() % 4 != 0 ==> m@ == "Invalid base64 length"@
            },
        },
{
    if chars.len() % 4 != 0 {
        return Err("Invalid base64 length".to_owned());
    }
    let mut out: Vec<u8> = Vec::new();
    let mut i: usize = 0;
    proof {
        assert(chars@.skip(0) =~= chars@);
    }
    while chars.len() - i >= 4
        invariant
            chars@.len() % 4 == 0,
            i <= chars.len(),
            i % 4 == 0,
            spec_decode_groups(chars@.skip(i as int)) matches Some(t) ==> spec_decode_groups(
                chars@,
            ) == Some(out@ + t),
            spec_decode_groups(chars@.skip(i as int)) is None ==> spec_decode_groups(chars@)
                is None,
        decreases chars.len() - i,
    {
        let ghost s = chars@.skip(i as int);
        let ghost prev = out@;
        let c0 = chars[i];
        let c1 = chars[i + 1];
        let c2 = chars[i + 2];
        let c3 = chars[i + 3];
        proof {
            assert(s[0] == c0 && s[1] == c1 && s[2] == c2 && s[3] == c3);
            assert(s.skip(4) =~= chars@.skip(i as int + 4));
        }
        let s0 = match char_to_sextet(c0) {
            Some(s) => s,
            None => {
                return Err("Invalid base64 character".to_owned());
            },
        };
        let s1 = match char_to_sextet(c1) {
            Some(s) => s,
            None => {
                return Err("Invalid base64 character".to_owned());
            },
        };
        if c2 == '=' && c3 == '=' {
            out.push((s0 << 2) | (s1 >> 4));
        } else if c3 == '=' {
            let s2 = match char_to_sextet(c2) {
                Some(s) => s,
                None => {
                    return Err("Invalid base64 character".to_owned());
                },
            };
            out.push((s0 << 2) | (s1 >> 4));
            out.push(((s1 & 15) << 4) | (s2 >> 2));
        } else {
            let s2 = match char_to_sextet(c2) {
                Some(s) => s,
                None => {
                    return Err("Invalid base64 character".to_owned());
                },
            };
            let s3 = match char_to_sextet(c3) {
                Some(s) => s,
                None => {
                    return Err("Invalid base64 character".to_owned());
                },
            };
            out.push((s0 << 2) | (s1 >> 4));
            out.push(((s1 & 15) << 4) | (s2 >> 2));
            out.push(((s2 & 3) << 6) | s3);
        }
        proof {
            let h = decode_group(c0, c1, c2, c3)->Some_0;
            assert(out@ =~= prev + h);
            if spec_decode_groups(s.skip(4)) is Some {
                let t = spec_decode_groups(s.skip(4))->Some_0;
                assert(prev + (h + t) =~= out@ + t);
            }
        }
        i = i + 4;
    }
    proof {
        assert(chars@.skip(i as int).len() == 0);
    }
    Ok(out)
}

/// Encodes bytes into printable text whose length is a multiple of 4.
pub fn base64_encode(data: &[u8]) -> (r: String)
    ensures
        r@ == spec_encode(data@),
{
    let chars = encode_chars(data);
    crate::strutil::chars_to_string(&chars)
}

/// Decodes printable text back to bytes; `Err` exactly when the text
/// length is not a multiple of 4 or a character outside the alphabet
/// stands where a symbol is expected.
pub fn base64_decode(data: &str) -> (r: Result<Vec<u8>, String>)
    ensures
        match r {
            Ok(v) => spec_decode(data@) == Some(v@),
            Err(m) => {
                &&& spec_decode(data@) is None
                &&& data@.len() % 4 == 0 ==> m@ == "Invalid base64 character"@
                &&& data@.len() % 4 != 0 ==> m@ == "Invalid base64 length"@
            },
        },
{
    let chars = crate::strutil::str_to_chars(data);
    decode_chars(chars.as_slice())
}

} // verus!
