//! Frame file names: zero-padded so that the lexicographic order of the
//! names matches the numeric order of the frames, plus the wildcard
//! patterns that enumerate them.

use vstd::prelude::*;
use vstd::string::StringExecFns;

verus! {

/// Powers of ten, for reading decimal digits out of an index.
pub open spec fn pow10(e: nat) -> nat
    decreases e,
{
    if e == 0 {
        1
    } else {
        10 * pow10((e - 1) as nat)
    }
}

/// The character for one decimal digit.
pub open spec fn digit_char(d: nat) -> char {
    if d == 0 {
        '0'
    } else if d == 1 {
        '1'
    } else if d == 2 {
        '2'
    } else if d == 3 {
        '3'
    } else if d == 4 {
        '4'
    } else if d == 5 {
        '5'
    } else if d == 6 {
        '6'
    } else if d == 7 {
        '7'
    } else if d == 8 {
        '8'
    } else {
        '9'
    }
}

/// The twelve decimal digits of a frame index, most significant first.
pub open spec fn frame_digits(index: nat) -> Seq<char> {
    Seq::new(12, |i: int| digit_char(index / pow10((11 - i) as nat) % 10))
}

/// The file name a combine frame is saved under.
pub open spec fn combine_name(index: nat) -> Seq<char> {
    seq!['c', 'o', 'm', 'b', 'i', 'n', 'e'] + frame_digits(index) + seq!['.', 'p', 'n', 'g']
}

/// Concrete values of the powers of ten up to the frame name width.
proof fn lemma_pow10_values()
    ensures
        pow10(0) == 1,
        pow10(1) == 10,
        pow10(2) == 100,
        pow10(3) == 1000,
        pow10(4) == 10000,
        pow10(5) == 100000,
        pow10(6) == 1000000,
        pow10(7) == 10000000,
        pow10(8) == 100000000,
        pow10(9) == 1000000000,
        pow10(10) == 10000000000,
        pow10(11) == 100000000000,
        pow10(12) == 1000000000000,
{
    assert(pow10(0) == 1);
    assert(pow10(1) == 10);
    assert(pow10(2) == 100);
    assert(pow10(3) == 1000);
    assert(pow10(4) == 10000);
    assert(pow10(5) == 100000);
    assert(pow10(6) == 1000000);
    assert(pow10(7) == 10000000);
    assert(pow10(8) == 100000000);
    assert(pow10(9) == 1000000000);
    assert(pow10(10) == 10000000000);
    assert(pow10(11) == 100000000000);
    assert(pow10(12) == 1000000000000);
}

/// Every power of ten is positive.
proof fn lemma_pow10_pos(e: nat)
    ensures
        pow10(e) >= 1,
    decreases e,
{
    if e > 0 {
        lemma_pow10_pos((e - 1) as nat);
        assert(10 * pow10((e - 1) as nat) >= pow10((e - 1) as nat)) by (nonlinear_arith)
            requires
                pow10((e - 1) as nat) >= 0,
        ;
    }
}

/// Powers of ten up to the frame name width stay below the largest one.
proof fn lemma_pow10_le(e: nat)
    requires
        e <= 11,
    ensures
        pow10(e) <= pow10(11),
    decreases 11 - e,
{
    if e < 11 {
        lemma_pow10_le((e + 1) as nat);
        lemma_pow10_pos(e);
        assert(pow10((e + 1) as nat) == 10 * pow10(e));
        assert(10 * pow10(e) >= pow10(e)) by (nonlinear_arith)
            requires
                pow10(e) >= 0,
        ;
    }
}

/// Append the character of one decimal digit to a string.
fn push_digit_char(s: &mut String, d: u64)
    requires
        d < 10,
    ensures
        final(s)@ == old(s)@.push(digit_char(d as nat)),
{
    if d == 0 {
        proof {
            reveal_strlit("0");
        }
        s.append("0");
    } else if d == 1 {
        proof {
            reveal_strlit("1");
        }
        s.append("1");
    } else if d == 2 {
        proof {
            reveal_strlit("2");
        }
        s.append("2");
    } else if d == 3 {
        proof {
            reveal_strlit("3");
        }
        s.append("3");
    } else if d == 4 {
        proof {
            reveal_strlit("4");
        }
        s.append("4");
    } else if d == 5 {
        proof {
            reveal_strlit("5");
        }
        s.append("5");
    } else if d == 6 {
        proof {
            reveal_strlit("6");
        }
        s.append("6");
    } else if d == 7 {
        proof {
            reveal_strlit("7");
        }
        s.append("7");
    } else if d == 8 {
        proof {
            reveal_strlit("8");
        }
        s.append("8");
    } else {
        proof {
            reveal_strlit("9");
        }
        s.append("9");
    }
    proof {
        assert(s@ =~= old(s)@.push(digit_char(d as nat)));
    }
}

/// Returns the file name used to save a frame before combining: the index
/// zero-padded to twelve digits, so smaller indices sort strictly first.
///
/// # Arguments
/// * `index` - Number of the frame in the video to be created.
pub fn frame_path_combine(index: usize) -> (r: String)
    requires
        index < 1000000000000,
    ensures
        r@ == combine_name(index as nat),
{
    let mut s = String::new();
    proof {
        reveal_strlit("combine");
    }
    s.append("combine");
    proof {
        assert(s@ =~= seq!['c', 'o', 'm', 'b', 'i', 'n', 'e']);
        lemma_pow10_values();
    }
    proof {
        assert(s@ =~= seq!['c', 'o', 'm', 'b', 'i', 'n', 'e'] + frame_digits(index as nat).take(
            0,
        ));
    }
    let n: u64 = index as u64;
    let mut divisor: u64 = 100000000000;
    let mut i: usize = 0;
    while i < 12
        invariant
            i <= 12,
            n == index,
            n < 1000000000000,
            i < 12 ==> divisor == pow10((11 - i as int) as nat),
            s@ == seq!['c', 'o', 'm', 'b', 'i', 'n', 'e'] + frame_digits(index as nat).take(
                i as int,
            ),
        decreases 12 - i,
    {
        proof {
            lemma_pow10_values();
            lemma_pow10_pos((11 - i as int) as nat);
            assert(divisor > 0);
            assert(n / divisor % 10 < 10) by (nonlinear_arith)
                requires
                    divisor > 0,
            ;
        }
        let d: u64 = n / divisor % 10;
        push_digit_char(&mut s, d);
        proof {
            assert(frame_digits(index as nat)[i as int] == digit_char((d as nat)));
            assert(s@ =~= seq!['c', 'o', 'm', 'b', 'i', 'n', 'e'] + frame_digits(
                index as nat,
            ).take(i as int + 1));
            if i < 11 {
                lemma_pow10_le((10 - i as int) as nat);
                lemma_pow10_values();
                assert(pow10((11 - i as int) as nat) == 10 * pow10((10 - i as int) as nat));
                assert(divisor / 10 == pow10((10 - i as int) as nat)) by (nonlinear_arith)
                    requires
                        divisor == 10 * pow10((10 - i as int) as nat),
                ;
            }
        }
        divisor = divisor / 10;
        i = i + 1;
    }
    proof {
        reveal_strlit(".png");
    }
    s.append(".png");
    proof {
        assert(frame_digits(index as nat).take(12) =~= frame_digits(index as nat));
        assert(s@ =~= combine_name(index as nat));
    }
    s
}

/// The wildcard pattern matching every frame extracted from a video.
pub fn frame_path_wildcard_split() -> (r: String)
    ensures
        r@ == seq!['s', 'p', 'l', 'i', 't', '*', '.', 'p', 'n', 'g'],
{
    let mut s = String::new();
    proof {
        reveal_strlit("split*.png");
    }
    s.append("split*.png");
    proof {
        assert(s@ =~= seq!['s', 'p', 'l', 'i', 't', '*', '.', 'p', 'n', 'g']);
    }
    s
}

/// The wildcard pattern matching every frame waiting to be combined.
pub fn frame_path_wildcard_combine() -> (r: String)
    ensures
        r@ == seq!['c', 'o', 'm', 'b', 'i', 'n', 'e', '*', '.', 'p', 'n', 'g'],
{
    let mut s = String::new();
    proof {
        reveal_strlit("combine*.png");
    }
    s.append("combine*.png");
    proof {
        assert(s@ =~= seq!['c', 'o', 'm', 'b', 'i', 'n', 'e', '*', '.', 'p', 'n', 'g']);
    }
    s
}

} // verus!
