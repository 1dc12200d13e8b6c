//! Packet decoder groundwork: hexadecimal text to a bit stream, bit runs
//! to numbers, and literal-value packets read group by group.
use vstd::prelude::*;

verus! {

/// An upper-case hexadecimal digit.
pub open spec fn is_hex_char(c: char) -> bool {
    (48 <= c as u32 <= 57) || (65 <= c as u32 <= 70)
}

/// The value of an upper-case hexadecimal digit.
pub open spec fn hex_val(c: char) -> int {
    if 48 <= c as u32 <= 57 {
        c as u32 - 48
    } else {
        c as u32 - 55
    }
}

/// The four bits of a nibble, most significant first.
pub open spec fn nibble_bits(v: int) -> Seq<bool> {
    seq![v / 8 % 2 == 1, v / 4 % 2 == 1, v / 2 % 2 == 1, v % 2 == 1]
}

/// The number a run of bits spells, most significant first.
pub open spec fn bool_bits_val(bits: Seq<bool>) -> int
    decreases bits.len(),
{
    if bits.len() == 0 {
        0
    } else {
        2 * bool_bits_val(bits.drop_last()) + if bits.last() {
            1int
        } else {
            0int
        }
    }
}

proof fn lemma_bool_bits_nonneg(bits: Seq<bool>)
    ensures
        bool_bits_val(bits) >= 0,
    decreases bits.len(),
{
    if bits.len() > 0 {
        lemma_bool_bits_nonneg(bits.drop_last());
    }
}

proof fn lemma_bool_bits_prefix(bits: Seq<bool>, j: int)
    requires
        0 <= j <= bits.len(),
    ensures
        0 <= bool_bits_val(bits.take(j)) <= bool_bits_val(bits),
    decreases bits.len() - j,
{
    if j == bits.len() {
        assert(bits.take(j) =~= bits);
        lemma_bool_bits_nonneg(bits);
    } else {
        lemma_bool_bits_prefix(bits, j + 1);
        assert(bits.take(j + 1).drop_last() =~= bits.take(j));
        lemma_bool_bits_nonneg(bits.take(j));
    }
}

/// The four bits of one hexadecimal character.
pub fn hex_to_bits(hex: char) -> (r: Vec<bool>)
    requires
        is_hex_char(hex),
    ensures
        r@ == nibble_bits(hex_val(hex)),
{
    let r = match hex {
        '0' => vec![false, false, false, false],
        '1' => vec![false, false, false, true],
        '2' => vec![false, false, true, false],
        '3' => vec![false, false, true, true],
        '4' => vec![false, true, false, false],
        '5' => vec![false, true, false, true],
        '6' => vec![false, true, true, false],
        '7' => vec![false, true, true, true],
        '8' => vec![true, false, false, false],
        '9' => vec![true, false, false, true],
        'A' => vec![true, false, true, false],
        'B' => vec![true, false, true, true],
        'C' => vec![true, true, false, false],
        'D' => vec![true, true, false, true],
        'E' => vec![true, true, true, false],
        _ => vec![true, true, true, true],
    };
    proof {
        assert(r@ =~= nibble_bits(hex_val(hex)));
    }
    r
}

/// The number a run of bits spells.
pub fn bits_to_value(bits: &Vec<bool>) -> (r: usize)
    requires
        bool_bits_val(bits@) <= usize::MAX as int,
    ensures
        r as int == bool_bits_val(bits@),
{
    let mut r: usize = 0;
    let mut k: usize = 0;
    while k < bits.len()
        invariant
            0 <= k <= bits@.len(),
            bool_bits_val(bits@) <= usize::MAX as int,
            r as int == bool_bits_val(bits@.take(k as int)),
        decreases bits@.len() - k,
    {
        proof {
            lemma_bool_bits_prefix(bits@, k + 1);
            assert(bits@.take(k + 1).drop_last() =~= bits@.take(k as int));
            assert(bits@.take(k + 1).last() == bits@[k as int]);
        }
        let bit: usize = if bits[k] {
            1
        } else {
            0
        };
        r = r * 2 + bit;
        k = k + 1;
    }
    proof {
        assert(bits@.take(bits@.len() as int) =~= bits@);
    }
    r
}

/// Where the literal groups starting at `i` end: each five-bit group
/// carries a continuation bit and four data bits, and the run ends with
/// the group whose continuation bit is clear.
pub open spec fn literal_end(p: Seq<bool>, i: int) -> Option<int>
    recommends
        0 <= i,
    decreases p.len() - i,
{
    if i < 0 || i + 5 > p.len() {
        None
    } else if p[i] {
        literal_end(p, i + 5)
    } else {
        Some(i + 5)
    }
}

/// The data bits of the literal groups starting at `i`, in order.
pub open spec fn literal_bits(p: Seq<bool>, i: int) -> Seq<bool>
    recommends
        0 <= i,
    decreases p.len() - i,
{
    if i < 0 || i + 5 > p.len() {
        Seq::empty()
    } else if p[i] {
        p.subrange(i + 1, i + 5) + literal_bits(p, i + 5)
    } else {
        p.subrange(i + 1, i + 5)
    }
}

/// Reads a literal value: how many bits the groups take, and the number
/// their data bits spell.
pub fn parse_literal(packet: &Vec<bool>) -> (r: (usize, usize))
    requires
        literal_end(packet@, 0) is Some,
        bool_bits_val(literal_bits(packet@, 0)) <= usize::MAX as int,
    ensures
        r.0 == literal_end(packet@, 0)->0,
        r.1 as int == bool_bits_val(literal_bits(packet@, 0)),
{
    let ghost p = packet@;
    let mut i: usize = 0;
    let mut r: Vec<bool> = Vec::new();
    let mut more: bool = true;
    proof {
        assert(i + 5 <= p.len());
    }
    let n = packet.len();
    while more
        invariant
            0 <= i <= p.len(),
            p.len() == n,
            p == packet@,
            literal_end(p, 0) is Some,
            more ==> i + 5 <= p.len() && literal_end(p, i as int) == literal_end(p, 0) && r@
                + literal_bits(p, i as int) == literal_bits(p, 0),
            !more ==> i as int == (literal_end(p, 0)->0) && r@ == literal_bits(p, 0),
        decreases p.len() - i,
    {
        let cont = packet[i];
        let ghost before = r@;
        r.push(packet[i + 1]);
        r.push(packet[i + 2]);
        r.push(packet[i + 3]);
        r.push(packet[i + 4]);
        proof {
            assert(r@ =~= before + p.subrange(i + 1, i as int + 5));
        }
        i = i + 5;
        if !cont {
            more = false;
            proof {
                assert(literal_bits(p, i as int - 5) == p.subrange(i - 5 + 1, i as int));
                assert(r@ =~= literal_bits(p, 0));
            }
        } else {
            proof {
                assert(literal_bits(p, i as int - 5) == p.subrange(i - 5 + 1, i as int)
                    + literal_bits(p, i as int));
                assert(before + (p.subrange(i - 5 + 1, i as int) + literal_bits(p, i as int)) =~=
                    r@ + literal_bits(p, i as int));
                assert(i + 5 <= p.len()) by {
                    assert(literal_end(p, i as int - 5) == literal_end(p, i as int));
                    assert(literal_end(p, i as int) is Some);
                }
            }
        }
    }
    let value = bits_to_value(&r);
    (i, value)
}

} // verus!
