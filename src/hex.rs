//! Lowercase hexadecimal text for byte strings.
//!
//! Each byte becomes two digits, high nibble first, so the text of a byte
//! string compares as the bytes do.
use vstd::prelude::*;
use vstd::string::*;
use crate::order::{bytes_lt, is_proper_prefix, lt_at};

verus! {

/// Whether `c` is one of the sixteen lowercase hexadecimal digits.
pub open spec fn is_hex_digit(c: char) -> bool {
    ('0' <= c && c <= '9') || ('a' <= c && c <= 'f')
}

/// Whether every character of `s` is a hexadecimal digit.
pub open spec fn all_hex(s: Seq<char>) -> bool {
    forall|k: int| 0 <= k < s.len() ==> is_hex_digit(#[trigger] s[k])
}

/// The value of a hexadecimal digit.
pub open spec fn digit_value(c: char) -> nat {
    if '0' <= c && c <= '9' {
        (c as nat - '0' as nat) as nat
    } else {
        (c as nat - 'a' as nat + 10) as nat
    }
}

/// The lowercase hexadecimal digit for a value below sixteen.
pub open spec fn hex_char(n: nat) -> char {
    if n < 10 {
        (n + '0' as nat) as char
    } else {
        (n - 10 + 'a' as nat) as char
    }
}

/// The two digits of one byte, high nibble first.
pub open spec fn hex_of_byte(b: u8) -> Seq<char> {
    seq![hex_char(b as nat / 16), hex_char(b as nat % 16)]
}

/// The text of a byte string: the digits of each byte in turn.
pub open spec fn hex_of(b: Seq<u8>) -> Seq<char> {
    Seq::new(
        2 * b.len(),
        |k: int|
            if k % 2 == 0 {
                hex_char(b[k / 2] as nat / 16)
            } else {
                hex_char(b[k / 2] as nat % 16)
            },
    )
}

/// The number that the digits of `s` spell, most significant first.
pub open spec fn hex_value(s: Seq<char>) -> nat
    decreases s.len(),
{
    if s.len() == 0 {
        0
    } else {
        hex_value(s.drop_last()) * 16 + digit_value(s.last())
    }
}

/// The bytes that the digits of `s` spell, read two at a time; an unpaired
/// last digit adds nothing.
pub open spec fn bytes_of_hex(s: Seq<char>) -> Seq<u8> {
    Seq::new(
        s.len() / 2,
        |i: int| (16 * digit_value(s[2 * i]) + digit_value(s[2 * i + 1])) as u8,
    )
}

/// The bytes of a text whose characters are all ASCII; a Rust string compares
/// by its bytes.
pub open spec fn ascii_bytes(s: Seq<char>) -> Seq<u8> {
    s.map_values(|c: char| c as u8)
}

/// `c` is the first character of `s` that is not a hexadecimal digit.
pub open spec fn first_non_hex(s: Seq<char>, c: char) -> bool {
    exists|k: int|
        0 <= k < s.len() && all_hex(#[trigger] s.take(k)) && !is_hex_digit(s[k]) && s[k] == c
}

/// A character that is not a lowercase hexadecimal digit.
#[derive(Debug)]
pub struct InvalidChar(char);

impl View for InvalidChar {
    type V = char;

    closed spec fn view(&self) -> char {
        self.0
    }
}

/// Relies on `String::push`: the character is appended to the end.
#[verifier::external_body]
fn push_char(s: &mut String, c: char)
    ensures
        final(s)@ == old(s)@.push(c),
{
    s.push(c)
}

fn digit_char(n: u8) -> (c: char)
    requires
        n < 16,
    ensures
        c == hex_char(n as nat),
{
    if n < 10 {
        (n + 48) as char
    } else {
        (n + 87) as char
    }
}

fn digit_of(c: char) -> (r: Option<u8>)
    ensures
        r == (if is_hex_digit(c) {
            Some(digit_value(c) as u8)
        } else {
            None::<u8>
        }),
        r matches Some(d) ==> d < 16,
{
    if '0' <= c && c <= '9' {
        Some((c as u32 - 48) as u8)
    } else if 'a' <= c && c <= 'f' {
        Some((c as u32 - 87) as u8)
    } else {
        None
    }
}

/// The two lowercase hexadecimal digits of `byte`.
pub fn byte_to_hex(byte: u8) -> (r: String)
    ensures
        r@ == hex_of_byte(byte),
{
    let mut s = String::new();
    push_char(&mut s, digit_char(byte / 16));
    push_char(&mut s, digit_char(byte % 16));
    proof {
        assert(s@ =~= hex_of_byte(byte));
    }
    s
}

/// The text of `bytes`: two lowercase hexadecimal digits per byte.
pub fn bytes_to_hex(bytes: &[u8]) -> (r: String)
    ensures
        r@ == hex_of(bytes@),
{
    let mut s = String::new();
    for i in 0..bytes.len()
        invariant
            s@ == hex_of(bytes@.take(i as int)),
    {
        let digits = byte_to_hex(bytes[i]);
        s.append(digits.as_str());
        proof {
            let prev = bytes@.take(i as int);
            let next = bytes@.take(i + 1);
            assert forall|k: int| 0 <= k < 2 * i implies #[trigger] hex_of(next)[k] == hex_of(prev)[k] by {
                assert(k / 2 < i);
            }
            assert(hex_of(next)[2 * i] == hex_of_byte(bytes@[i as int])[0]);
            assert(hex_of(next)[2 * i + 1] == hex_of_byte(bytes@[i as int])[1]);
            assert(hex_of(next) =~= hex_of(prev) + hex_of_byte(bytes@[i as int]));
        }
    }
    proof {
        assert(bytes@.take(bytes@.len() as int) =~= bytes@);
    }
    s
}

proof fn lemma_shift_in_digit(v: nat, d: nat)
    requires
        d < 16,
    ensures
        (v % 256) % 16 * 16 + d == (v * 16 + d) % 256,
{
    let a = v / 16;
    let r = v % 16;
    vstd::arithmetic::div_mod::lemma_fundamental_div_mod(v as int, 16);
    assert((v % 256) % 16 == r) by {
        vstd::arithmetic::div_mod::lemma_mod_mod(v as int, 16, 16);
    }
    assert(v * 16 + d == 256 * a + (16 * r + d)) by (nonlinear_arith)
        requires
            v == 16 * a + r,
    ;
    vstd::arithmetic::div_mod::lemma_mod_multiples_vanish(a as int, (16 * r + d) as int, 256);
    vstd::arithmetic::div_mod::lemma_small_mod((16 * r + d) as nat, 256);
}

/// The byte that the digits of `hex` spell, keeping the last two digits when
/// there are more; the first character that is not a digit is an error.
pub fn hex_to_byte(hex: &str) -> (r: Result<u8, InvalidChar>)
    ensures
        match r {
            Ok(b) => all_hex(hex@) && b == hex_value(hex@) % 256,
            Err(e) => first_non_hex(hex@, e@),
        },
{
    let mut byte: u8 = 0;
    for c in it: hex.chars()
        invariant
            it.seq() == hex@,
            all_hex(hex@.take(it.index())),
            byte == hex_value(hex@.take(it.index())) % 256,
    {
        let ghost k = it.index();
        proof {
            assert(hex@.take(k + 1).drop_last() =~= hex@.take(k));
        }
        match digit_of(c) {
            Some(d) => {
                proof {
                    lemma_shift_in_digit(hex_value(hex@.take(k)), d as nat);
                    assert forall|j: int| 0 <= j < k + 1 implies is_hex_digit(
                        #[trigger] hex@.take(k + 1)[j],
                    ) by {
                        if j < k {
                            assert(hex@.take(k)[j] == hex@.take(k + 1)[j]);
                        }
                    }
                }
                byte = (byte % 16) * 16 + d;
            },
            None => {
                return Err(InvalidChar(c));
            },
        }
    }
    proof {
        assert(hex@.take(hex@.len() as int) =~= hex@);
    }
    Ok(byte)
}

/// The bytes that the digits of `hex` spell, two digits each; an unpaired
/// last digit is left out. Any character that is not a digit is an error,
/// and the first such one is reported.
pub fn hex_to_bytes(hex: &str) -> (r: Result<Vec<u8>, InvalidChar>)
    ensures
        match r {
            Ok(bytes) => all_hex(hex@) && bytes@ == bytes_of_hex(hex@),
            Err(e) => first_non_hex(hex@, e@),
        },
{
    let mut bytes: Vec<u8> = Vec::new();
    let mut high: u8 = 0;
    let mut odd = false;
    for c in it: hex.chars()
        invariant
            it.seq() == hex@,
            all_hex(hex@.take(it.index())),
            odd == (it.index() % 2 == 1),
            high < 16,
            odd ==> high == digit_value(hex@[it.index() - 1]),
            bytes@ == bytes_of_hex(hex@.take(it.index())),
    {
        let ghost k = it.index();
        match digit_of(c) {
            Some(d) => {
                proof {
                    assert forall|j: int| 0 <= j < k + 1 implies is_hex_digit(
                        #[trigger] hex@.take(k + 1)[j],
                    ) by {
                        if j < k {
                            assert(hex@.take(k)[j] == hex@.take(k + 1)[j]);
                        }
                    }
                }
                if odd {
                    bytes.push(high * 16 + d);
                    proof {
                        assert(bytes_of_hex(hex@.take(k + 1)) =~= bytes_of_hex(hex@.take(k)).push(
                            (16 * digit_value(hex@[k - 1]) + digit_value(hex@[k])) as u8,
                        ));
                    }
                } else {
                    high = d;
                    proof {
                        assert(bytes_of_hex(hex@.take(k + 1)) =~= bytes_of_hex(hex@.take(k)));
                    }
                }
                odd = !odd;
            },
            None => {
                return Err(InvalidChar(c));
            },
        }
    }
    proof {
        assert(hex@.take(hex@.len() as int) =~= hex@);
    }
    Ok(bytes)
}

/// A digit made from a value below sixteen is a digit of that value, and the
/// digits are ordered as their values.
pub proof fn lemma_hex_char(n: nat)
    requires
        n < 16,
    ensures
        is_hex_digit(hex_char(n)),
        digit_value(hex_char(n)) == n,
        hex_char(n) as nat == (if n < 10 {
            n + 48
        } else {
            n + 87
        }),
{
}

/// Decoding the text of a byte string gives the byte string back.
pub proof fn lemma_hex_round_trip(b: Seq<u8>)
    ensures
        all_hex(hex_of(b)),
        bytes_of_hex(hex_of(b)) == b,
{
    let h = hex_of(b);
    assert forall|k: int| 0 <= k < h.len() implies is_hex_digit(#[trigger] h[k]) by {
        lemma_hex_char(b[k / 2] as nat / 16);
        lemma_hex_char(b[k / 2] as nat % 16);
    }
    assert forall|i: int| 0 <= i < b.len() implies #[trigger] bytes_of_hex(h)[i] == b[i] by {
        assert((2 * i) / 2 == i);
        assert((2 * i + 1) / 2 == i);
        assert((2 * i) % 2 == 0);
        assert((2 * i + 1) % 2 == 1);
        lemma_hex_char(b[i] as nat / 16);
        lemma_hex_char(b[i] as nat % 16);
    }
    assert(bytes_of_hex(h) =~= b);
}

/// Texts of byte strings that agree before position `n` agree before position
/// `2 * n`.
proof fn lemma_hex_take(a: Seq<u8>, b: Seq<u8>, n: int)
    requires
        0 <= n <= a.len(),
        n <= b.len(),
        a.take(n) == b.take(n),
    ensures
        ascii_bytes(hex_of(a)).take(2 * n) == ascii_bytes(hex_of(b)).take(2 * n),
{
    let x = ascii_bytes(hex_of(a)).take(2 * n);
    let y = ascii_bytes(hex_of(b)).take(2 * n);
    assert forall|k: int| 0 <= k < 2 * n implies #[trigger] x[k] == y[k] by {
        let j = k / 2;
        assert(0 <= j < n);
        assert(a.take(n)[j] == a[j]);
        assert(b.take(n)[j] == b[j]);
        assert(k < 2 * a.len() && k < 2 * b.len());
        assert(hex_of(a)[k] == hex_of(b)[k]);
    }
    assert(x =~= y);
}

/// The text of a byte string that comes first comes first.
pub proof fn lemma_hex_order(a: Seq<u8>, b: Seq<u8>)
    requires
        bytes_lt(a, b),
    ensures
        bytes_lt(ascii_bytes(hex_of(a)), ascii_bytes(hex_of(b))),
{
    let x = ascii_bytes(hex_of(a));
    let y = ascii_bytes(hex_of(b));
    if exists|i: int| lt_at(a, b, i) {
        let i = choose|i: int| lt_at(a, b, i);
        lemma_hex_take(a, b, i);
        let (p, q) = (a[i] as nat, b[i] as nat);
        lemma_hex_char(p / 16);
        lemma_hex_char(q / 16);
        lemma_hex_char(p % 16);
        lemma_hex_char(q % 16);
        assert((2 * i) / 2 == i && (2 * i) % 2 == 0);
        assert((2 * i + 1) / 2 == i && (2 * i + 1) % 2 == 1);
        assert(x[2 * i] == hex_char(p / 16) as u8);
        assert(y[2 * i] == hex_char(q / 16) as u8);
        assert(x[2 * i + 1] == hex_char(p % 16) as u8);
        assert(y[2 * i + 1] == hex_char(q % 16) as u8);
        if p / 16 < q / 16 {
            assert(lt_at(x, y, 2 * i));
        } else {
            assert(p / 16 == q / 16);
            assert(p % 16 < q % 16);
            assert(x.take(2 * i + 1) =~= x.take(2 * i).push(x[2 * i]));
            assert(y.take(2 * i + 1) =~= y.take(2 * i).push(y[2 * i]));
            assert(lt_at(x, y, 2 * i + 1));
        }
    } else {
        let n = a.len() as int;
        assert(a.take(n) =~= b.take(n));
        lemma_hex_take(a, b, n);
        assert(x.take(2 * n) =~= x);
        assert(is_proper_prefix(x, y));
    }
}

} // verus!
