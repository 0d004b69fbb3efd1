use vstd::prelude::*;

verus! {

/// `r` is the lowest set bit of `i`: a single positive bit that `i` holds,
/// with no bit of `i` below it.
pub open spec fn is_lowest_bit(i: i32, r: i32) -> bool {
    &&& r > 0
    &&& r & ((r - 1) as i32) == 0
    &&& i & r == r
    &&& i & ((r - 1) as i32) == 0
}

/// Absolute value of a 16-bit integer, computed without a branch.
pub fn abs_b(i: i16) -> (r: i16)
    requires
        i != i16::MIN,
    ensures
        r as int == if i < 0 { -i } else { i as int },
{
    assert(((i ^ (i >> 15u16)) - (i >> 15u16)) as i16 == (if i < 0 { -i } else { i as int }) as i16
        && (if i < 0 { -i } else { i as int }) <= i16::MAX
        && (i ^ (i >> 15u16)) - (i >> 15u16) == (if i < 0 { -i } else { i as int })) by (bit_vector)
        requires
            i != i16::MIN,
    ;
    (i ^ (i >> 15u16)) - (i >> 15u16)
}

/// The lowest set bit of `i`, or 0 when `i` is 0.
pub fn get_lsb(i: i32) -> (r: i32)
    requires
        i != i32::MIN,
    ensures
        i == 0 ==> r == 0,
        i != 0 ==> is_lowest_bit(i, r),
{
    assert((i == 0 ==> i & (-i) as i32 == 0) && (i != 0 ==> is_lowest_bit(i, i & (-i) as i32)))
        by (bit_vector)
        requires
            i != i32::MIN,
    ;
    i & (-i)
}

/// `i` with its lowest set bit cleared.
pub fn get_without_lsb(i: i32) -> (r: i32)
    requires
        i != i32::MIN,
    ensures
        i == 0 ==> r == 0,
        i != 0 ==> is_lowest_bit(i, (i - r) as i32),
{
    assert((i == 0 ==> i & (i - 1) as i32 == 0) && (i != 0 ==> is_lowest_bit(
        i,
        (i - (i & (i - 1) as i32)) as i32,
    ))) by (bit_vector)
        requires
            i != i32::MIN,
    ;
    i & (i - 1)
}

/// The 16-bit pattern of `x` read as an unsigned number.
pub open spec fn unsigned(x: i16) -> u16 {
    #[verifier::truncate]
    (x as u16)
}

/// `b` is a single bit (as a 16-bit pattern) that `i` holds.
pub open spec fn is_bit_of(i: i16, b: i16) -> bool {
    &&& b != 0
    &&& unsigned(b) & (unsigned(b) - 1u16) as u16 == 0
    &&& i & b == b
}

proof fn lemma_lowest_bit_step(i: i16, cur: i16, l: i32, n: i32, l16: i16, n16: i16, b: i16)
    by (bit_vector)
    requires
        cur != 0,
        i & cur == cur,
        is_lowest_bit(cur as i32, l),
        is_lowest_bit(cur as i32, (cur as i32 - n) as i32),
        l16 == l as i16,
        n16 == n as i16,
    ensures
        is_bit_of(cur, l16),
        is_bit_of(i, l16),
        i & n16 == n16,
        unsigned(n16) < unsigned(cur),
        is_bit_of(n16, b) <==> (is_bit_of(cur, b) && b != l16),
        is_bit_of(n16, b) ==> unsigned(l16) < unsigned(b),
        is_bit_of(cur, b) ==> is_bit_of(i, b),
{
}

proof fn lemma_zero_has_no_bits(b: i16)
    by (bit_vector)
    ensures
        !is_bit_of(0, b),
{
}

/// The single bits that `i` holds, lowest first.
pub fn get_indi_bits(i: i16) -> (r: Vec<i16>)
    ensures
        forall|k: int| 0 <= k < r.len() ==> is_bit_of(i, #[trigger] r[k]),
        forall|b: i16| is_bit_of(i, b) ==> r@.contains(b),
        forall|a: int, c: int| 0 <= a < c < r.len() ==> unsigned(r[a]) < unsigned(r[c]),
{
    let mut returner: Vec<i16> = Vec::new();
    let mut cur: i16 = i;
    assert(i & i == i) by (bit_vector);
    while cur != 0
        invariant
            i & cur == cur,
            forall|k: int| 0 <= k < returner.len() ==> is_bit_of(i, #[trigger] returner[k]),
            forall|k: int| 0 <= k < returner.len() ==> !is_bit_of(cur, #[trigger] returner[k]),
            forall|b: i16|
                is_bit_of(i, b) && !is_bit_of(cur, b) ==> #[trigger] returner@.contains(b),
            forall|k: int, b: i16|
                0 <= k < returner.len() && #[trigger] is_bit_of(cur, b) ==> unsigned(#[trigger] returner[k])
                    < unsigned(b),
            forall|a: int, c: int|
                0 <= a < c < returner.len() ==> unsigned(returner[a]) < unsigned(returner[c]),
        decreases unsigned(cur),
    {
        let l = get_lsb(cur as i32);
        let n = get_without_lsb(cur as i32);
        let l16 = l as i16;
        let n16 = n as i16;
        proof {
            assert forall|b: i16| true implies {
                &&& is_bit_of(n16, b) <==> (is_bit_of(cur, b) && b != l16)
                &&& is_bit_of(n16, b) ==> unsigned(l16) < unsigned(b)
                &&& is_bit_of(cur, b) ==> is_bit_of(i, b)
            } by {
                lemma_lowest_bit_step(i, cur, l, n, l16, n16, b);
            }
            lemma_lowest_bit_step(i, cur, l, n, l16, n16, 0);
        }
        let ghost old_r = returner@;
        returner.push(l16);
        proof {
            assert forall|b: i16|
                is_bit_of(i, b) && !is_bit_of(n16, b) implies #[trigger] returner@.contains(b) by {
                if b == l16 {
                    assert(returner@[old_r.len() as int] == b);
                } else {
                    assert(old_r.contains(b));
                    let k = choose|k: int| 0 <= k < old_r.len() && old_r[k] == b;
                    assert(returner@[k] == b);
                }
            }
            assert forall|k: int, b: i16|
                0 <= k < returner.len() && #[trigger] is_bit_of(n16, b) implies unsigned(
                #[trigger] returner[k],
            ) < unsigned(b) by {
                if k < old_r.len() {
                    assert(returner[k] == old_r[k]);
                }
            }
        }
        cur = n16;
    }
    proof {
        assert forall|b: i16| !is_bit_of(0, b) by {
            lemma_zero_has_no_bits(b);
        }
    }
    returner
}

} // verus!
