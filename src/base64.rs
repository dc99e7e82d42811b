use vstd::prelude::*;

verus! {

/// The ASCII byte of the base64 digit `i` (`0 <= i < 64`), from the
/// alphabet `A-Z a-z 0-9 + /`.
pub open spec fn digit_of(i: int) -> u8 {
    if i < 26 {
        (65 + i) as u8
    } else if i < 52 {
        (97 + i - 26) as u8
    } else if i < 62 {
        (48 + i - 52) as u8
    } else if i == 62 {
        43
    } else {
        47
    }
}

/// The four digits of three input bytes.
pub open spec fn quad(a: u8, b: u8, c: u8) -> Seq<u8> {
    seq![
        digit_of(a as int / 4),
        digit_of((a as int % 4) * 16 + b as int / 16),
        digit_of((b as int % 16) * 4 + c as int / 64),
        digit_of(c as int % 64),
    ]
}

/// The digits of the first `n` whole groups of three bytes.
pub open spec fn encode_groups(b: Seq<u8>, n: int) -> Seq<u8>
    decreases n,
{
    if n <= 0 {
        seq![]
    } else {
        encode_groups(b, n - 1) + quad(b[3 * n - 3], b[3 * n - 2], b[3 * n - 1])
    }
}

/// The padded digits of the one or two bytes left after the whole groups.
pub open spec fn encode_tail(t: Seq<u8>) -> Seq<u8> {
    if t.len() == 1 {
        seq![digit_of(t[0] as int / 4), digit_of((t[0] as int % 4) * 16), 61u8, 61u8]
    } else if t.len() == 2 {
        seq![
            digit_of(t[0] as int / 4),
            digit_of((t[0] as int % 4) * 16 + t[1] as int / 16),
            digit_of((t[1] as int % 16) * 4),
            61u8,
        ]
    } else {
        seq![]
    }
}

/// The padded base64 text of `b`, as ASCII bytes.
pub open spec fn encode_spec(b: Seq<u8>) -> Seq<u8> {
    let n = b.len() as int / 3;
    encode_groups(b, n) + encode_tail(b.subrange(3 * n, b.len() as int))
}

/// The characters of ASCII bytes.
pub open spec fn ascii_chars(b: Seq<u8>) -> Seq<char> {
    Seq::new(b.len(), |i: int| b[i] as char)
}

/// Relies on `String::from_utf8`: bytes below 128 are valid UTF-8, one
/// character per byte.
#[verifier::external_body]
fn ascii_string(bytes: Vec<u8>) -> (s: String)
    requires
        forall|i: int| 0 <= i < bytes@.len() ==> bytes@[i] < 128,
    ensures
        s@ == ascii_chars(bytes@),
{
    match String::from_utf8(bytes) {
        Ok(s) => s,
        Err(_) => String::new(),
    }
}

/// The base64 digit `i`.
fn digit(i: u32) -> (d: u8)
    requires
        i < 64,
    ensures
        d == digit_of(i as int),
        d < 128,
{
    if i < 26 {
        65 + i as u8
    } else if i < 52 {
        97 + (i - 26) as u8
    } else if i < 62 {
        48 + (i - 52) as u8
    } else if i == 62 {
        43
    } else {
        47
    }
}

/// The base64 text of `input`, padded with `=` to a multiple of four
/// characters.
pub fn encode(input: &[u8]) -> (out: String)
    ensures
        out@ == ascii_chars(encode_spec(input@)),
{
    let mut digits: Vec<u8> = Vec::new();
    let len = input.len();
    let mut i: usize = 0;
    while len - i >= 3
        invariant
            len == input@.len(),
            i % 3 == 0,
            i <= len,
            digits@ == encode_groups(input@, i as int / 3),
            forall|j: int| 0 <= j < digits@.len() ==> digits@[j] < 128,
        decreases len - i,
    {
        let x0 = input[i] as u32;
        let x1 = input[i + 1] as u32;
        let x2 = input[i + 2] as u32;
        let c = x0 << 16u32 | x1 << 8u32 | x2;
        assert(((c >> 18u32) & 0x3F) == x0 / 4 && ((c >> 12u32) & 0x3F) == (x0 % 4) * 16 + x1 / 16
            && ((c >> 6u32) & 0x3F) == (x1 % 16) * 4 + x2 / 64 && (c & 0x3F) == x2 % 64)
            by (bit_vector)
            requires
                x0 < 256 && x1 < 256 && x2 < 256,
                c == x0 << 16u32 | x1 << 8u32 | x2,
        ;
        let ghost before = digits@;
        digits.push(digit((c >> 18u32) & 0x3F));
        digits.push(digit((c >> 12u32) & 0x3F));
        digits.push(digit((c >> 6u32) & 0x3F));
        digits.push(digit(c & 0x3F));
        proof {
            let n = i / 3 + 1;
            assert((i + 3) / 3 == n);
            assert(3 * n - 3 == i);
            assert(digits@ =~= before + quad(input@[i as int], input@[i + 1], input@[i + 2]));
        }
        i += 3;
    }
    let ghost groups = digits@;
    let rem = len - i;
    assert(i / 3 == len / 3 && 3 * (len / 3) == i);
    if rem == 1 {
        let x0 = input[i] as u32;
        let c = x0 << 16u32;
        assert(((c >> 18u32) & 0x3F) == x0 / 4 && ((c >> 12u32) & 0x3F) == (x0 % 4) * 16)
            by (bit_vector)
            requires
                x0 < 256,
                c == x0 << 16u32,
        ;
        digits.push(digit((c >> 18u32) & 0x3F));
        digits.push(digit((c >> 12u32) & 0x3F));
        digits.push(61);
        digits.push(61);
        let ghost t = input@.subrange(i as int, len as int);
        assert(digits@ =~= groups + encode_tail(t));
    } else if rem == 2 {
        let x0 = input[i] as u32;
        let x1 = input[i + 1] as u32;
        let c = x0 << 16u32 | x1 << 8u32;
        assert(((c >> 18u32) & 0x3F) == x0 / 4 && ((c >> 12u32) & 0x3F) == (x0 % 4) * 16 + x1 / 16
            && ((c >> 6u32) & 0x3F) == (x1 % 16) * 4)
            by (bit_vector)
            requires
                x0 < 256 && x1 < 256,
                c == x0 << 16u32 | x1 << 8u32,
        ;
        digits.push(digit((c >> 18u32) & 0x3F));
        digits.push(digit((c >> 12u32) & 0x3F));
        digits.push(digit((c >> 6u32) & 0x3F));
        digits.push(61);
        let ghost t = input@.subrange(i as int, len as int);
        assert(digits@ =~= groups + encode_tail(t));
    } else {
        let ghost t = input@.subrange(i as int, len as int);
        assert(digits@ =~= groups + encode_tail(t));
    }
    ascii_string(digits)
}

/// Decoding is not offered: every input is refused.
pub fn decode(input: &str) -> (out: Option<Vec<u8>>)
    ensures
        out is None,
{
    None
}

} // verus!
