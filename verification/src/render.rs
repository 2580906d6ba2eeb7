//! Diagnostic rendering of byte sequences.
//!
//! A digest or a reduced integer must be pinnable to literal test fixtures,
//! so bytes are rendered as lowercase hexadecimal (two digits per byte) and
//! as a zero-padded binary string (eight digits per byte).

use vstd::prelude::*;
use vstd::slice::slice_to_vec;

verus! {

/// The lowercase hexadecimal digit for a value below sixteen.
pub open spec fn hex_char(n: int) -> char {
    if n == 0 {
        '0'
    } else if n == 1 {
        '1'
    } else if n == 2 {
        '2'
    } else if n == 3 {
        '3'
    } else if n == 4 {
        '4'
    } else if n == 5 {
        '5'
    } else if n == 6 {
        '6'
    } else if n == 7 {
        '7'
    } else if n == 8 {
        '8'
    } else if n == 9 {
        '9'
    } else if n == 10 {
        'a'
    } else if n == 11 {
        'b'
    } else if n == 12 {
        'c'
    } else if n == 13 {
        'd'
    } else if n == 14 {
        'e'
    } else {
        'f'
    }
}

/// The two lowercase hexadecimal digits of one byte, high nibble first.
pub open spec fn hex_of_byte(b: u8) -> Seq<char> {
    seq![hex_char((b as int) / 16), hex_char((b as int) % 16)]
}

/// The lowercase hexadecimal rendering of a byte sequence: two digits per
/// byte, in byte order.
pub open spec fn hex_of(s: Seq<u8>) -> Seq<char>
    decreases s.len(),
{
    if s.len() == 0 {
        Seq::empty()
    } else {
        hex_of(s.drop_last()) + hex_of_byte(s.last())
    }
}

/// The eight binary digits of one byte, most significant bit first.
pub open spec fn bin_of_byte(b: u8) -> Seq<char> {
    Seq::new(8, |i: int| if (b >> ((7 - i) as u8)) & 1 == 1 {
        '1'
    } else {
        '0'
    })
}

/// The zero-padded binary rendering of a byte sequence: eight digits per
/// byte, in byte order, most significant bit of each byte first.
pub open spec fn bin_of(s: Seq<u8>) -> Seq<char>
    decreases s.len(),
{
    if s.len() == 0 {
        Seq::empty()
    } else {
        bin_of(s.drop_last()) + bin_of_byte(s.last())
    }
}

/// The one-character string for a hexadecimal digit value.
fn hex_digit_str(n: u8) -> (r: &'static str)
    requires
        n < 16,
    ensures
        r@ == seq![hex_char(n as int)],
{
    if n == 0 {
        proof {
            reveal_strlit("0");
            assert("0"@ =~= seq![hex_char(0)]);
        }
        "0"
    } else if n == 1 {
        proof {
            reveal_strlit("1");
            assert("1"@ =~= seq![hex_char(1)]);
        }
        "1"
    } else if n == 2 {
        proof {
            reveal_strlit("2");
            assert("2"@ =~= seq![hex_char(2)]);
        }
        "2"
    } else if n == 3 {
        proof {
            reveal_strlit("3");
            assert("3"@ =~= seq![hex_char(3)]);
        }
        "3"
    } else if n == 4 {
        proof {
            reveal_strlit("4");
            assert("4"@ =~= seq![hex_char(4)]);
        }
        "4"
    } else if n == 5 {
        proof {
            reveal_strlit("5");
            assert("5"@ =~= seq![hex_char(5)]);
        }
        "5"
    } else if n == 6 {
        proof {
            reveal_strlit("6");
            assert("6"@ =~= seq![hex_char(6)]);
        }
        "6"
    } else if n == 7 {
        proof {
            reveal_strlit("7");
            assert("7"@ =~= seq![hex_char(7)]);
        }
        "7"
    } else if n == 8 {
        proof {
            reveal_strlit("8");
            assert("8"@ =~= seq![hex_char(8)]);
        }
        "8"
    } else if n == 9 {
        proof {
            reveal_strlit("9");
            assert("9"@ =~= seq![hex_char(9)]);
        }
        "9"
    } else if n == 10 {
        proof {
            reveal_strlit("a");
            assert("a"@ =~= seq![hex_char(10)]);
        }
        "a"
    } else if n == 11 {
        proof {
            reveal_strlit("b");
            assert("b"@ =~= seq![hex_char(11)]);
        }
        "b"
    } else if n == 12 {
        proof {
            reveal_strlit("c");
            assert("c"@ =~= seq![hex_char(12)]);
        }
        "c"
    } else if n == 13 {
        proof {
            reveal_strlit("d");
            assert("d"@ =~= seq![hex_char(13)]);
        }
        "d"
    } else if n == 14 {
        proof {
            reveal_strlit("e");
            assert("e"@ =~= seq![hex_char(14)]);
        }
        "e"
    } else {
        proof {
            reveal_strlit("f");
            assert("f"@ =~= seq![hex_char(15)]);
        }
        "f"
    }
}

/// Render bytes as lowercase hexadecimal, two digits per byte.
pub fn to_hex(bytes: &[u8]) -> (s: String)
    ensures
        s@ == hex_of(bytes@),
{
    let mut s = String::new();
    let mut i: usize = 0;
    while i < bytes.len()
        invariant
            i <= bytes@.len(),
            s@ == hex_of(bytes@.take(i as int)),
        decreases bytes@.len() - i,
    {
        let b = bytes[i];
        s.append(hex_digit_str(b / 16));
        s.append(hex_digit_str(b % 16));
        proof {
            assert(bytes@.take(i + 1).drop_last() =~= bytes@.take(i as int));
            assert(bytes@.take(i + 1).last() == b);
            assert(s@ =~= hex_of(bytes@.take(i + 1)));
        }
        i = i + 1;
    }
    proof {
        assert(bytes@.take(bytes@.len() as int) =~= bytes@);
    }
    s
}

/// Render bytes as a zero-padded binary string, eight digits per byte.
pub fn to_bin(bytes: &[u8]) -> (s: String)
    ensures
        s@ == bin_of(bytes@),
{
    let mut s = String::new();
    let mut i: usize = 0;
    while i < bytes.len()
        invariant
            i <= bytes@.len(),
            s@ == bin_of(bytes@.take(i as int)),
        decreases bytes@.len() - i,
    {
        let b = bytes[i];
        let mut k: u8 = 0;
        while k < 8
            invariant
                k <= 8,
                i < bytes@.len(),
                b == bytes@[i as int],
                s@ == bin_of(bytes@.take(i as int)) + bin_of_byte(b).take(k as int),
            decreases 8 - k,
        {
            let bit = (b >> (7 - k)) & 1;
            proof {
                assert(bin_of_byte(b)[k as int] == (if (b >> ((7 - k as int) as u8)) & 1 == 1 {
                    '1'
                } else {
                    '0'
                }));
                assert((7 - k as int) as u8 == 7 - k);
                assert(bin_of_byte(b).take(k + 1) =~= bin_of_byte(b).take(k as int).push(
                    bin_of_byte(b)[k as int],
                ));
            }
            if bit == 1 {
                proof {
                    reveal_strlit("1");
                    assert("1"@ =~= seq!['1']);
                }
                s.append("1");
            } else {
                proof {
                    reveal_strlit("0");
                    assert("0"@ =~= seq!['0']);
                }
                s.append("0");
            }
            proof {
                assert(s@ =~= bin_of(bytes@.take(i as int)) + bin_of_byte(b).take(k + 1));
            }
            k = k + 1;
        }
        proof {
            assert(bin_of_byte(b).take(8) =~= bin_of_byte(b));
            assert(bytes@.take(i + 1).drop_last() =~= bytes@.take(i as int));
            assert(bytes@.take(i + 1).last() == b);
            assert(s@ =~= bin_of(bytes@.take(i + 1)));
        }
        i = i + 1;
    }
    proof {
        assert(bytes@.take(bytes@.len() as int) =~= bytes@);
    }
    s
}

/// The eight bytes of a 64-bit value, most significant byte first.
pub open spec fn u64_bytes_be(v: u64) -> Seq<u8> {
    Seq::new(8, |i: int| ((v >> ((56 - 8 * i) as u64)) & 0xff) as u8)
}

/// The eight big-endian bytes of a 64-bit value, as a vector.
fn u64_to_bytes_be(v: u64) -> (r: Vec<u8>)
    ensures
        r@ == u64_bytes_be(v),
{
    let mut r: Vec<u8> = Vec::new();
    let mut k: u64 = 0;
    while k < 8
        invariant
            k <= 8,
            r@ == u64_bytes_be(v).take(k as int),
        decreases 8 - k,
    {
        let b = ((v >> (56 - 8 * k)) & 0xff) as u8;
        proof {
            assert((56 - 8 * (k as int)) as u64 == 56 - 8 * k);
            assert(u64_bytes_be(v)[k as int] == b);
            assert(u64_bytes_be(v).take(k as int + 1) =~= u64_bytes_be(v).take(k as int).push(b));
        }
        r.push(b);
        k = k + 1;
    }
    proof {
        assert(u64_bytes_be(v).take(8) =~= u64_bytes_be(v));
    }
    r
}

/// Render a reduced 64-bit integer as sixteen lowercase hexadecimal digits.
pub fn u64_to_hex(v: u64) -> (s: String)
    ensures
        s@ == hex_of(u64_bytes_be(v)),
{
    let bytes = u64_to_bytes_be(v);
    to_hex(bytes.as_slice())
}

/// Render a reduced 64-bit integer as a zero-padded binary string of the
/// full 64-bit width.
pub fn u64_to_bin(v: u64) -> (s: String)
    ensures
        s@ == bin_of(u64_bytes_be(v)),
{
    let bytes = u64_to_bytes_be(v);
    to_bin(bytes.as_slice())
}

/// The binary rendering of a borrowed byte view agrees with the rendering of
/// an owned copy of the same bytes; the result says whether the two rendered
/// strings compare equal, which is always the case.
pub fn slice_vec(hash: &[u8]) -> (agree: bool)
    ensures
        agree,
{
    let h_slice = to_bin(hash);
    let owned: Vec<u8> = slice_to_vec(hash);
    let h_vec = to_bin(owned.as_slice());
    h_slice == h_vec
}

} // verus!
