//! General utility functions.

use vstd::prelude::*;
use vstd::string::StringExecFns;

verus! {

/// The lower-case character for one hexadecimal digit.
pub open spec fn hex_char(d: nat) -> char {
    if d == 0 {
        '0'
    } else if d == 1 {
        '1'
    } else if d == 2 {
        '2'
    } else if d == 3 {
        '3'
    } else if d == 4 {
        '4'
    } else if d == 5 {
        '5'
    } else if d == 6 {
        '6'
    } else if d == 7 {
        '7'
    } else if d == 8 {
        '8'
    } else if d == 9 {
        '9'
    } else if d == 10 {
        'a'
    } else if d == 11 {
        'b'
    } else if d == 12 {
        'c'
    } else if d == 13 {
        'd'
    } else if d == 14 {
        'e'
    } else {
        'f'
    }
}

/// The hex expansion of a byte slice: two characters per byte, high nibble
/// first.
pub open spec fn hex_chars(data: Seq<u8>) -> Seq<char> {
    Seq::new(
        data.len() * 2,
        |i: int|
            if i % 2 == 0 {
                hex_char((data[i / 2] / 16) as nat)
            } else {
                hex_char((data[i / 2] % 16) as nat)
            },
    )
}

/// Append the character of one hexadecimal digit to a string.
fn push_hex_char(s: &mut String, d: u8)
    requires
        d < 16,
    ensures
        final(s)@ == old(s)@.push(hex_char(d as nat)),
{
    if d == 0 {
        proof {
            reveal_strlit("0");
        }
        s.append("0");
    } else if d == 1 {
        proof {
            reveal_strlit("1");
        }
        s.append("1");
    } else if d == 2 {
        proof {
            reveal_strlit("2");
        }
        s.append("2");
    } else if d == 3 {
        proof {
            reveal_strlit("3");
        }
        s.append("3");
    } else if d == 4 {
        proof {
            reveal_strlit("4");
        }
        s.append("4");
    } else if d == 5 {
        proof {
            reveal_strlit("5");
        }
        s.append("5");
    } else if d == 6 {
        proof {
            reveal_strlit("6");
        }
        s.append("6");
    } else if d == 7 {
        proof {
            reveal_strlit("7");
        }
        s.append("7");
    } else if d == 8 {
        proof {
            reveal_strlit("8");
        }
        s.append("8");
    } else if d == 9 {
        proof {
            reveal_strlit("9");
        }
        s.append("9");
    } else if d == 10 {
        proof {
            reveal_strlit("a");
        }
        s.append("a");
    } else if d == 11 {
        proof {
            reveal_strlit("b");
        }
        s.append("b");
    } else if d == 12 {
        proof {
            reveal_strlit("c");
        }
        s.append("c");
    } else if d == 13 {
        proof {
            reveal_strlit("d");
        }
        s.append("d");
    } else if d == 14 {
        proof {
            reveal_strlit("e");
        }
        s.append("e");
    } else {
        proof {
            reveal_strlit("f");
        }
        s.append("f");
    }
    proof {
        assert(s@ =~= old(s)@.push(hex_char(d as nat)));
    }
}

/// Return a single hex representation of a byte slice, prefixed with `0x`.
pub fn bytes_to_hex_string(bytes: &Vec<u8>) -> (r: String)
    ensures
        r@ == seq!['0', 'x'] + hex_chars(bytes@),
{
    let mut s = String::new();
    proof {
        reveal_strlit("0x");
    }
    s.append("0x");
    proof {
        assert(s@ =~= seq!['0', 'x'] + hex_chars(bytes@).take(0));
    }
    let mut i: usize = 0;
    while i < bytes.len()
        invariant
            i <= bytes@.len(),
            s@ == seq!['0', 'x'] + hex_chars(bytes@).take(2 * i as int),
        decreases bytes@.len() - i,
    {
        let b: u8 = bytes[i];
        proof {
            assert((2 * i as int) % 2 == 0 && (2 * i as int) / 2 == i as int && (2 * i as int + 1)
                % 2 == 1 && (2 * i as int + 1) / 2 == i as int) by (nonlinear_arith)
                requires
                    0 <= i,
            ;
            assert(hex_chars(bytes@)[2 * i as int] == hex_char((b / 16) as nat));
            assert(hex_chars(bytes@)[2 * i as int + 1] == hex_char((b % 16) as nat));
        }
        push_hex_char(&mut s, b / 16);
        push_hex_char(&mut s, b % 16);
        proof {
            assert(s@ =~= seq!['0', 'x'] + hex_chars(bytes@).take(2 * (i as int + 1)));
        }
        i = i + 1;
    }
    proof {
        assert(hex_chars(bytes@).take(2 * bytes@.len() as int) =~= hex_chars(bytes@));
        assert(s@ =~= seq!['0', 'x'] + hex_chars(bytes@));
    }
    s
}

} // verus!
