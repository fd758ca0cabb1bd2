//! Sets of digits packed into the low nine bits of an `i32`.
//!
//! Bit `d - 1` stands for the digit `d`. A mask with exactly one bit set names
//! a single digit; the empty mask names none.

use vstd::prelude::*;

verus! {

/// The mask in which every digit from 1 to 9 is present.
pub const FULL: i32 = 0x1ff;

/// A digit that can stand in a cell.
pub open spec fn is_digit(d: int) -> bool {
    1 <= d <= 9
}

/// A value that uses only the nine digit bits.
pub open spec fn is_mask(m: i32) -> bool {
    0 <= m <= 0x1ff
}

/// The one-bit mask of a digit; 0 for anything that is no digit.
pub open spec fn mask_of(d: int) -> i32 {
    if d == 1 {
        0x001
    } else if d == 2 {
        0x002
    } else if d == 3 {
        0x004
    } else if d == 4 {
        0x008
    } else if d == 5 {
        0x010
    } else if d == 6 {
        0x020
    } else if d == 7 {
        0x040
    } else if d == 8 {
        0x080
    } else if d == 9 {
        0x100
    } else {
        0
    }
}

/// The digit named by a one-bit mask; 0 for every other value.
pub open spec fn digit_of(m: i32) -> int {
    if m == 0x001 {
        1
    } else if m == 0x002 {
        2
    } else if m == 0x004 {
        3
    } else if m == 0x008 {
        4
    } else if m == 0x010 {
        5
    } else if m == 0x020 {
        6
    } else if m == 0x040 {
        7
    } else if m == 0x080 {
        8
    } else if m == 0x100 {
        9
    } else {
        0
    }
}

/// A mask with exactly one of the nine digit bits set.
pub open spec fn is_digit_mask(m: i32) -> bool {
    m == 0x001 || m == 0x002 || m == 0x004 || m == 0x008 || m == 0x010 || m == 0x020 || m == 0x040
        || m == 0x080 || m == 0x100
}

/// Whether digit `d` is present in mask `m`.
pub open spec fn holds(m: i32, d: int) -> bool {
    m & mask_of(d) != 0
}

/// The set of digits present in a mask.
pub open spec fn digits_in(m: i32) -> Set<int> {
    Set::new(|d: int| is_digit(d) && holds(m, d))
}

/// 1 if the digit is in the set, else 0.
pub open spec fn one_if(s: Set<int>, d: int) -> int {
    if s.contains(d) {
        1
    } else {
        0
    }
}

/// How many of the digits 1 to 9 a set holds.
pub open spec fn size(s: Set<int>) -> int {
    one_if(s, 1) + one_if(s, 2) + one_if(s, 3) + one_if(s, 4) + one_if(s, 5) + one_if(s, 6)
        + one_if(s, 7) + one_if(s, 8) + one_if(s, 9)
}

/// The smallest of the digits 1 to 9 that a set holds; 0 if it holds none.
pub open spec fn least(s: Set<int>) -> int {
    if s.contains(1) {
        1
    } else if s.contains(2) {
        2
    } else if s.contains(3) {
        3
    } else if s.contains(4) {
        4
    } else if s.contains(5) {
        5
    } else if s.contains(6) {
        6
    } else if s.contains(7) {
        7
    } else if s.contains(8) {
        8
    } else if s.contains(9) {
        9
    } else {
        0
    }
}

proof fn lemma_bit_algebra(a: i32, b: i32, j: i32)
    by (bit_vector)
    requires
        j == 0x001 || j == 0x002 || j == 0x004 || j == 0x008 || j == 0x010 || j == 0x020 || j
            == 0x040 || j == 0x080 || j == 0x100,
    ensures
        ((a & b) & j != 0) == (a & j != 0 && b & j != 0),
        ((a | b) & j != 0) == (a & j != 0 || b & j != 0),
        ((a & !b) & j != 0) == (a & j != 0 && b & j == 0),
        0x1ff & j != 0,
        0 & j == 0,
{
}

proof fn lemma_bit_single(k: i32, j: i32)
    by (bit_vector)
    requires
        j == 0x001 || j == 0x002 || j == 0x004 || j == 0x008 || j == 0x010 || j == 0x020 || j
            == 0x040 || j == 0x080 || j == 0x100,
        k == 0x001 || k == 0x002 || k == 0x004 || k == 0x008 || k == 0x010 || k == 0x020 || k
            == 0x040 || k == 0x080 || k == 0x100,
    ensures
        (k & j != 0) == (k == j),
{
}

proof fn lemma_bit_range(a: i32, b: i32)
    by (bit_vector)
    requires
        0 <= a <= 0x1ff,
    ensures
        0 <= a & b <= 0x1ff,
        0 <= a & !b <= 0x1ff,
        0 <= b <= 0x1ff ==> 0 <= a | b <= 0x1ff,
{
}

proof fn lemma_bit_extensional(a: i32, b: i32)
    by (bit_vector)
    requires
        0 <= a <= 0x1ff,
        0 <= b <= 0x1ff,
        (a & 0x001 != 0) == (b & 0x001 != 0),
        (a & 0x002 != 0) == (b & 0x002 != 0),
        (a & 0x004 != 0) == (b & 0x004 != 0),
        (a & 0x008 != 0) == (b & 0x008 != 0),
        (a & 0x010 != 0) == (b & 0x010 != 0),
        (a & 0x020 != 0) == (b & 0x020 != 0),
        (a & 0x040 != 0) == (b & 0x040 != 0),
        (a & 0x080 != 0) == (b & 0x080 != 0),
        (a & 0x100 != 0) == (b & 0x100 != 0),
    ensures
        a == b,
{
}

/// Every digit has a one-bit mask, and the mask names the digit again.
pub proof fn lemma_mask_of_digit(d: int)
    requires
        is_digit(d),
    ensures
        is_digit_mask(mask_of(d)),
        is_mask(mask_of(d)),
        digit_of(mask_of(d)) == d,
{
}

/// Every one-bit mask names a digit, and the digit has that mask.
pub proof fn lemma_digit_of_mask(k: i32)
    requires
        is_digit_mask(k),
    ensures
        is_digit(digit_of(k)),
        is_mask(k),
        mask_of(digit_of(k)) == k,
{
}

/// The full mask holds every digit and the empty mask none.
pub proof fn lemma_holds_ends()
    ensures
        forall|d: int| is_digit(d) ==> #[trigger] holds(FULL, d),
        forall|d: int| !#[trigger] holds(0, d),
{
    assert forall|d: int| is_digit(d) implies #[trigger] holds(FULL, d) by {
        lemma_bit_algebra(0, 0, mask_of(d));
    }
    assert forall|d: int| !#[trigger] holds(0, d) by {
        if is_digit(d) {
            lemma_bit_algebra(0, 0, mask_of(d));
        } else {
            assert(0i32 & 0i32 == 0i32) by (bit_vector);
        }
    }
}

/// A one-bit mask holds its own digit and no other.
pub proof fn lemma_holds_single(k: i32)
    requires
        is_digit_mask(k),
    ensures
        forall|d: int| is_digit(d) ==> (#[trigger] holds(k, d) <==> d == digit_of(k)),
{
    assert forall|d: int| is_digit(d) implies (#[trigger] holds(k, d) <==> d == digit_of(k)) by {
        lemma_bit_single(k, mask_of(d));
    }
}

/// Intersection, union and difference of masks act digit by digit.
pub proof fn lemma_holds_ops(a: i32, b: i32)
    ensures
        forall|d: int| is_digit(d) ==> (#[trigger] holds(a & b, d) <==> holds(a, d) && holds(b, d)),
        forall|d: int| is_digit(d) ==> (#[trigger] holds(a | b, d) <==> holds(a, d) || holds(b, d)),
        forall|d: int| is_digit(d) ==> (#[trigger] holds(a & !b, d) <==> holds(a, d) && !holds(b, d)),
        is_mask(a) ==> is_mask(a & b) && is_mask(a & !b),
        is_mask(a) && is_mask(b) ==> is_mask(a | b),
{
    assert forall|d: int| is_digit(d) implies (#[trigger] holds(a & b, d) <==> holds(a, d) && holds(
        b,
        d,
    )) by {
        lemma_bit_algebra(a, b, mask_of(d));
    }
    assert forall|d: int| is_digit(d) implies (#[trigger] holds(a | b, d) <==> holds(a, d) || holds(
        b,
        d,
    )) by {
        lemma_bit_algebra(a, b, mask_of(d));
    }
    assert forall|d: int| is_digit(d) implies (#[trigger] holds(a & !b, d) <==> holds(a, d) && !holds(
        b,
        d,
    )) by {
        lemma_bit_algebra(a, b, mask_of(d));
    }
    if is_mask(a) {
        lemma_bit_range(a, b);
    }
}

/// Two masks that hold the same digits are the same value.
pub proof fn lemma_mask_extensional(a: i32, b: i32)
    requires
        is_mask(a),
        is_mask(b),
        forall|d: int| is_digit(d) ==> (#[trigger] holds(a, d) <==> holds(b, d)),
    ensures
        a == b,
{
    assert(holds(a, 1) == holds(b, 1));
    assert(holds(a, 2) == holds(b, 2));
    assert(holds(a, 3) == holds(b, 3));
    assert(holds(a, 4) == holds(b, 4));
    assert(holds(a, 5) == holds(b, 5));
    assert(holds(a, 6) == holds(b, 6));
    assert(holds(a, 7) == holds(b, 7));
    assert(holds(a, 8) == holds(b, 8));
    assert(holds(a, 9) == holds(b, 9));
    lemma_bit_extensional(a, b);
}

/// A mask is empty exactly when its set of digits has size 0, and names one
/// digit exactly when the size is 1; that digit is then the least of the set.
pub proof fn lemma_size_small(m: i32)
    requires
        is_mask(m),
    ensures
        0 <= size(digits_in(m)) <= 9,
        size(digits_in(m)) == 0 <==> m == 0,
        size(digits_in(m)) == 1 <==> is_digit_mask(m),
        m != 0 ==> is_digit(least(digits_in(m))) && holds(m, least(digits_in(m))),
        is_digit_mask(m) ==> digit_of(m) == least(digits_in(m)),
{
    let s = digits_in(m);
    lemma_holds_ends();
    if m == 0 {
        assert(size(s) == 0);
    } else {
        if size(s) == 0 {
            assert forall|d: int| is_digit(d) implies (holds(m, d) <==> holds(0, d)) by {
                assert(!s.contains(d));
            }
            lemma_mask_extensional(m, 0);
        }
    }
    if is_digit_mask(m) {
        lemma_holds_single(m);
        lemma_digit_of_mask(m);
        assert(s.contains(digit_of(m)));
        assert(size(s) == 1);
        assert(digit_of(m) == least(s));
    } else if size(s) == 1 {
        let d0 = least(s);
        assert(is_digit(d0) && s.contains(d0));
        let k = mask_of(d0);
        lemma_mask_of_digit(d0);
        lemma_holds_single(k);
        assert forall|d: int| is_digit(d) implies (holds(m, d) <==> holds(k, d)) by {
            if d != d0 {
                assert(!s.contains(d));
            }
        }
        lemma_mask_extensional(m, k);
    }
}

/// 1 if the digit `e` is below `d` and in the set, else 0.
pub open spec fn one_if_below(s: Set<int>, e: int, d: int) -> int {
    if e < d && s.contains(e) {
        1
    } else {
        0
    }
}

/// How many of the digits below `d` a set holds.
pub open spec fn size_below(s: Set<int>, d: int) -> int {
    one_if_below(s, 1, d) + one_if_below(s, 2, d) + one_if_below(s, 3, d) + one_if_below(s, 4, d)
        + one_if_below(s, 5, d) + one_if_below(s, 6, d) + one_if_below(s, 7, d) + one_if_below(
        s,
        8,
        d,
    ) + one_if_below(s, 9, d)
}

/// The number of digits in a mask.
pub fn count(m: i32) -> (n: u32)
    requires
        is_mask(m),
    ensures
        n == size(digits_in(m)),
{
    let mut n: u32 = 0;
    let mut k: i32 = 1;
    let mut d: u8 = 1;
    while d <= 9
        invariant
            1 <= d <= 10,
            k == mask_of(d as int) || (d == 10 && k == 0x200),
            n == size_below(digits_in(m), d as int),
        decreases 10 - d,
    {
        if m & k != 0 {
            n = n + 1;
        }
        k = k + k;
        d = d + 1;
    }
    n
}

/// The mask of the smallest digit in a mask that is not empty.
pub fn lowest(m: i32) -> (r: i32)
    requires
        is_mask(m),
        m != 0,
    ensures
        is_digit_mask(r),
        r == mask_of(least(digits_in(m))),
        is_mask(m & !r),
        m & !r < m,
{
    let n: i32 = -m;
    let r: i32 = m & n;
    assert(r == (if m & 0x001 != 0 {
        0x001i32
    } else if m & 0x002 != 0 {
        0x002i32
    } else if m & 0x004 != 0 {
        0x004i32
    } else if m & 0x008 != 0 {
        0x008i32
    } else if m & 0x010 != 0 {
        0x010i32
    } else if m & 0x020 != 0 {
        0x020i32
    } else if m & 0x040 != 0 {
        0x040i32
    } else if m & 0x080 != 0 {
        0x080i32
    } else {
        0x100i32
    }) && 0 <= m & !r < m) by (bit_vector)
        requires
            0 < m <= 0x1ff,
            n == -m,
            r == m & n,
    ;
    assert(holds(m, 1) == (m & 0x001 != 0));
    assert(holds(m, 2) == (m & 0x002 != 0));
    assert(holds(m, 3) == (m & 0x004 != 0));
    assert(holds(m, 4) == (m & 0x008 != 0));
    assert(holds(m, 5) == (m & 0x010 != 0));
    assert(holds(m, 6) == (m & 0x020 != 0));
    assert(holds(m, 7) == (m & 0x040 != 0));
    assert(holds(m, 8) == (m & 0x080 != 0));
    assert(holds(m, 9) == (m & 0x100 != 0));
    proof {
        lemma_size_small(m);
    }
    r
}

/// The one-bit mask of a digit.
pub fn bit(d: u8) -> (r: i32)
    requires
        1 <= d <= 9,
    ensures
        r == mask_of(d as int),
{
    let s: u32 = (d - 1) as u32;
    let r: i32 = 1i32 << s;
    assert(r == (if s == 0 {
        0x001i32
    } else if s == 1 {
        0x002i32
    } else if s == 2 {
        0x004i32
    } else if s == 3 {
        0x008i32
    } else if s == 4 {
        0x010i32
    } else if s == 5 {
        0x020i32
    } else if s == 6 {
        0x040i32
    } else if s == 7 {
        0x080i32
    } else {
        0x100i32
    })) by (bit_vector)
        requires
            0 <= s <= 8,
            r == 1i32 << s,
    ;
    r
}

/// The digit that a one-bit mask names; 0 for every other value.
pub fn digit(m: i32) -> (d: u8)
    ensures
        d == digit_of(m),
{
    if m == 0x001 {
        1
    } else if m == 0x002 {
        2
    } else if m == 0x004 {
        3
    } else if m == 0x008 {
        4
    } else if m == 0x010 {
        5
    } else if m == 0x020 {
        6
    } else if m == 0x040 {
        7
    } else if m == 0x080 {
        8
    } else if m == 0x100 {
        9
    } else {
        0
    }
}

} // verus!
