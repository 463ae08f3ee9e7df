//! Per-cell candidate sets.
//!
//! A cell's remaining possibilities are a set of digits 1..=9, stored as a
//! bitmask: bit `i` set means digit `i + 1` is still possible.  The all-ones
//! mask `0x1FF` is the unconstrained default; the empty mask marks an
//! over-constrained (contradictory) cell; a single-bit mask marks a solved
//! cell.

use vstd::prelude::*;

verus! {

/// The mask holding all nine digits.
pub const FULL_MASK: u16 = 0x1FF;

/// Number of bits set in `m`: the cardinality of the candidate set.
pub open spec fn mask_count(m: u16) -> int {
    ((m >> 0u16) & 1) + ((m >> 1u16) & 1) + ((m >> 2u16) & 1) + ((m >> 3u16) & 1)
        + ((m >> 4u16) & 1) + ((m >> 5u16) & 1) + ((m >> 6u16) & 1) + ((m >> 7u16) & 1)
        + ((m >> 8u16) & 1) + ((m >> 9u16) & 1) + ((m >> 10u16) & 1) + ((m >> 11u16) & 1)
        + ((m >> 12u16) & 1) + ((m >> 13u16) & 1) + ((m >> 14u16) & 1) + ((m >> 15u16) & 1)
}

/// Every bit of `a` is also set in `b`.
pub open spec fn mask_subset(a: u16, b: u16) -> bool {
    a & b == a
}

/// The lowest set bit of `m` at position `k` or above, or 0 if there is none.
pub open spec fn low_bit_from(m: u16, k: u16) -> u16
    decreases 16 - k,
{
    if k >= 16 {
        0
    } else if m & (1u16 << k) != 0 {
        1u16 << k
    } else {
        low_bit_from(m, (k + 1) as u16)
    }
}

/// The lowest set bit of `m`, or 0 if `m` is empty.
pub open spec fn low_bit(m: u16) -> u16 {
    low_bit_from(m, 0)
}

/// Whether `c` is one of the digit characters `'1'..='9'`.
pub open spec fn is_digit_char(c: char) -> bool {
    49 <= (c as u32) <= 57
}

/// The canonical character for the digit `d` (1..=9), `'X'` otherwise.
pub open spec fn digit_char(d: int) -> char {
    if d == 1 {
        '1'
    } else if d == 2 {
        '2'
    } else if d == 3 {
        '3'
    } else if d == 4 {
        '4'
    } else if d == 5 {
        '5'
    } else if d == 6 {
        '6'
    } else if d == 7 {
        '7'
    } else if d == 8 {
        '8'
    } else if d == 9 {
        '9'
    } else {
        'X'
    }
}

/// The candidate set denoted by a puzzle character: a one-element set for a
/// digit, the unconstrained set for any other (placeholder) character.
pub open spec fn char_mask(c: char) -> u16 {
    if is_digit_char(c) {
        1u16 << (((c as u32) - 49) as u16)
    } else {
        FULL_MASK
    }
}

/// The character that `lucky` renders for mask `m`.  Over the nine
/// single-bit masks, reduction modulo 11 is a perfect hash, and the table
/// below maps each residue to its digit; the residues of 0 and of masks
/// that hash onto no digit render as `'X'`.
pub open spec fn lucky_char(m: u16) -> char {
    let r = (m as int) % 11;
    if r == 1 {
        '1'
    } else if r == 2 {
        '2'
    } else if r == 3 {
        '9'
    } else if r == 4 {
        '3'
    } else if r == 5 {
        '5'
    } else if r == 7 {
        '8'
    } else if r == 8 {
        '4'
    } else if r == 9 {
        '7'
    } else if r == 10 {
        '6'
    } else {
        'X'
    }
}

/// The digits of `m` up to `i`, rendered in increasing order.
pub open spec fn digit_seq(m: u16, i: int) -> Seq<char>
    decreases i,
{
    if i <= 0 {
        Seq::empty()
    } else if m & (1u16 << ((i - 1) as u16)) != 0 {
        digit_seq(m, i - 1).push(digit_char(i))
    } else {
        digit_seq(m, i - 1)
    }
}

/// The rendering of a whole candidate set: its single character when one
/// digit or fewer remains (`'X'` for the empty set), else all remaining
/// digits in increasing order.
pub open spec fn cand_str(m: u16) -> Seq<char> {
    if mask_count(m) <= 1 {
        seq![lucky_char(m)]
    } else {
        digit_seq(m, 9)
    }
}

pub(crate) proof fn lemma_count_bounds(m: u16)
    by (bit_vector)
    ensures
        0 <= mask_count(m) <= 16,
        (m == 0) == (mask_count(m) == 0),
{
}

pub(crate) proof fn lemma_count_subset(a: u16, b: u16)
    by (bit_vector)
    requires
        a & b == a,
    ensures
        mask_count(a) <= mask_count(b),
        a != b ==> mask_count(a) < mask_count(b),
{
}

/// Two distinct one-element sets are disjoint.
pub(crate) proof fn lemma_single_disjoint(a: u16, b: u16)
    by (bit_vector)
    requires
        mask_count(a) == 1,
        mask_count(b) == 1,
        a != b,
    ensures
        a & b == 0,
{
}

/// Facts about removing the digits of `b` from `a`.
pub(crate) proof fn lemma_and_not(a: u16, b: u16)
    by (bit_vector)
    ensures
        (a & !b) & b == 0,
        mask_subset(a & !b, a),
        mask_count(a & !b) >= mask_count(a) - mask_count(b),
        (a & b == 0) == (a & !b == a),
{
}

/// Subset of digit sets is reflexive.
pub(crate) proof fn lemma_subset_refl(a: u16)
    by (bit_vector)
    ensures
        mask_subset(a, a),
{
}

/// Subset of digit sets is transitive.
pub(crate) proof fn lemma_subset_trans(a: u16, b: u16, c: u16)
    by (bit_vector)
    requires
        a & b == a,
        b & c == b,
    ensures
        a & c == a,
{
}

/// A subset of a mask within the nine digits stays within them.
pub(crate) proof fn lemma_subset_small(a: u16, b: u16)
    by (bit_vector)
    requires
        a & b == a,
        b < 0x200,
    ensures
        a < 0x200,
{
}

/// A set within the nine digits holds at most nine of them.
pub(crate) proof fn lemma_count_small(m: u16)
    by (bit_vector)
    requires
        m < 0x200,
    ensures
        mask_count(m) <= 9,
{
}

/// Two one-element sets, one inside the other, are the same set.
pub(crate) proof fn lemma_single_subset_eq(a: u16, b: u16)
    by (bit_vector)
    requires
        mask_count(a) == 1,
        mask_count(b) == 1,
        a & b == a,
    ensures
        a == b,
{
}

/// A subset that avoids the digits of `c` is a subset of the difference.
pub(crate) proof fn lemma_subset_minus(a: u16, b: u16, c: u16)
    by (bit_vector)
    requires
        a & b == a,
        a & c == 0,
    ensures
        a & (b & !c) == a,
{
}

/// A set disjoint from three sets is disjoint from their union.
pub(crate) proof fn lemma_disjoint_or3(d: u16, a: u16, b: u16, c: u16)
    by (bit_vector)
    requires
        d & a == 0,
        d & b == 0,
        d & c == 0,
    ensures
        d & (a | b | c) == 0,
{
}

/// Each argument of a union is a subset of it.
pub(crate) proof fn lemma_or3_subset(a: u16, b: u16, c: u16)
    by (bit_vector)
    ensures
        mask_subset(a, a | b | c),
        mask_subset(b, a | b | c),
        mask_subset(c, a | b | c),
{
}

/// Three pairwise-disjoint one-element subsets of a three-element set
/// fill it exactly.
pub(crate) proof fn lemma_three_fill(u: u16, w1: u16, w2: u16, w3: u16)
    by (bit_vector)
    requires
        mask_count(u) == 3,
        mask_count(w1) == 1,
        mask_count(w2) == 1,
        mask_count(w3) == 1,
        w1 & u == w1,
        w2 & u == w2,
        w3 & u == w3,
        w1 & w2 == 0,
        w1 & w3 == 0,
        w2 & w3 == 0,
    ensures
        (w1 | w2 | w3) == u,
{
}

/// Intersection of digit sets is commutative.
pub(crate) proof fn lemma_and_comm(a: u16, b: u16)
    by (bit_vector)
    ensures
        a & b == b & a,
{
}

/// A puzzle character always denotes a well-formed, non-empty candidate
/// set, and a digit character denotes a one-element set.
pub proof fn lemma_char_mask_ok(c: char)
    ensures
        0 < char_mask(c) < 0x200,
        is_digit_char(c) ==> mask_count(char_mask(c)) == 1,
{
    if is_digit_char(c) {
        let k = (((c as u32) - 49) as u16);
        assert(k <= 8 ==> 0 < (1u16 << k) < 0x200 && mask_count(1u16 << k) == 1) by (bit_vector);
    }
}

/// On digit characters, the denoted one-element sets determine the
/// character: two digits with the same mask are the same digit.
pub(crate) proof fn lemma_char_mask_inj(c1: char, c2: char)
    requires
        is_digit_char(c1),
        is_digit_char(c2),
        char_mask(c1) == char_mask(c2),
    ensures
        c1 == c2,
{
    let k1 = (((c1 as u32) - 49) as u16);
    let k2 = (((c2 as u32) - 49) as u16);
    assert(k1 <= 8 && k2 <= 8 && (1u16 << k1) == (1u16 << k2) ==> k1 == k2) by (bit_vector);
}

/// A subset of a set that avoids the digits of `c` avoids them too.
pub(crate) proof fn lemma_subset_absence(a: u16, b: u16, c: u16)
    by (bit_vector)
    requires
        a & b == a,
        b & c == 0,
    ensures
        a & c == 0,
{
}

proof fn lemma_disjoint_count(a: u16, b: u16)
    by (bit_vector)
    requires
        a & b == 0,
    ensures
        mask_count(a | b) == mask_count(a) + mask_count(b),
{
}

proof fn lemma_kernighan(v: u16, w: u16)
    by (bit_vector)
    requires
        v != 0,
        w + 1 == v,
    ensures
        mask_count(v & w) == mask_count(v) - 1,
        (v & w) < v,
{
}

proof fn lemma_low_bit_from(m: u16, k: u16)
    requires
        k < 16,
        (m >> k) != 0,
    ensures
        low_bit_from(m, k) != 0,
        mask_count(low_bit_from(m, k)) == 1,
        mask_subset(low_bit_from(m, k), m),
        forall|j: u16| j < k ==> low_bit_from(m, k) != (1u16 << j),
    decreases 16 - k,
{
    if m & (1u16 << k) != 0 {
        assert(mask_count(1u16 << k) == 1 && (1u16 << k) != 0) by (bit_vector)
            requires
                k < 16,
        ;
        assert(mask_subset(1u16 << k, m)) by (bit_vector)
            requires
                m & (1u16 << k) != 0,
        ;
        assert(forall|j: u16| j < k ==> (1u16 << k) != (1u16 << j)) by (bit_vector)
            requires
                k < 16,
        ;
    } else {
        assert(k + 1 < 16 && (m >> (k + 1) as u16) != 0) by (bit_vector)
            requires
                k < 16,
                (m >> k) != 0,
                m & (1u16 << k) == 0,
        ;
        lemma_low_bit_from(m, (k + 1) as u16);
        assert(forall|j: u16| j < k + 1 ==> low_bit_from(m, (k + 1) as u16) != (1u16 << j));
    }
}

/// The lowest set bit of a non-empty set is a one-element subset.
pub(crate) proof fn lemma_low_bit(m: u16)
    requires
        m != 0,
    ensures
        low_bit(m) != 0,
        mask_count(low_bit(m)) == 1,
        mask_subset(low_bit(m), m),
        mask_count(m & !low_bit(m)) == mask_count(m) - 1,
{
    assert((m >> 0u16) != 0) by (bit_vector)
        requires
            m != 0,
    ;
    lemma_low_bit_from(m, 0);
    let b = low_bit(m);
    lemma_and_not(m, b);
    assert((m & !b) | b == m && (m & !b) & b == 0) by (bit_vector)
        requires
            b & m == b,
    ;
    lemma_disjoint_count(m & !b, b);
}

proof fn lemma_shift_values()
    by (bit_vector)
    ensures
        1u16 << 0u16 == 1,
        1u16 << 1u16 == 2,
        1u16 << 2u16 == 4,
        1u16 << 3u16 == 8,
        1u16 << 4u16 == 16,
        1u16 << 5u16 == 32,
        1u16 << 6u16 == 64,
        1u16 << 7u16 == 128,
        1u16 << 8u16 == 256,
{
}

/// A one-element candidate set within the nine digits renders as the digit
/// character whose mask it is, so rendering and parsing invert each other
/// on solved cells.
pub(crate) proof fn lemma_solved_mask_char(m: u16)
    requires
        mask_count(m) == 1,
        m < 0x200,
    ensures
        is_digit_char(lucky_char(m)),
        char_mask(lucky_char(m)) == m,
    {
    assert(m == 1 || m == 2 || m == 4 || m == 8 || m == 16 || m == 32 || m == 64 || m == 128
        || m == 256) by (bit_vector)
        requires
            mask_count(m) == 1 && m < 0x200,
    ;
    lemma_shift_values();
}

/// Relies on `String::push`: appends the one character to the end of the
/// string.
#[verifier::external_body]
pub(crate) fn push_char(s: &mut String, c: char)
    ensures
        final(s)@ == old(s)@.push(c),
{
    s.push(c);
}

/// The character for the digit `d`.
pub(crate) fn digit_to_char(d: usize) -> (r: char)
    ensures
        r == digit_char(d as int),
{
    if d == 1 {
        '1'
    } else if d == 2 {
        '2'
    } else if d == 3 {
        '3'
    } else if d == 4 {
        '4'
    } else if d == 5 {
        '5'
    } else if d == 6 {
        '6'
    } else if d == 7 {
        '7'
    } else if d == 8 {
        '8'
    } else if d == 9 {
        '9'
    } else {
        'X'
    }
}

/// A set of candidate digits for one cell, as a bitmask over digits 1..=9.
#[derive(Clone, Copy, Debug, PartialEq, Eq, Structural)]
pub struct Candidates(u16);

impl View for Candidates {
    type V = u16;

    closed spec fn view(&self) -> u16 {
        self.0
    }
}

/// Two candidate sets are equal exactly when they hold the same digits.
pub proof fn lemma_eq_view(a: Candidates, b: Candidates)
    ensures
        (a == b) == (a@ == b@),
{
    if a@ == b@ {
        assert(a =~= b);
    }
}

impl Candidates {
    /// The unconstrained set: all nine digits possible.
    pub fn new() -> (r: Self)
        ensures
            r@ == FULL_MASK,
    {
        Candidates(FULL_MASK)
    }

    /// A cell is valid while at least one digit remains possible.
    pub fn is_valid(&self) -> (r: bool)
        ensures
            r == (self@ != 0),
    {
        self.0 != 0
    }

    /// One digit or fewer remains.  Note: this also reports `true` for the
    /// empty (invalid) set; callers that care must check `is_valid` first.
    pub fn is_done(&self) -> (r: bool)
        ensures
            r == (mask_count(self@) <= 1),
    {
        let m = self.0;
        proof {
            lemma_count_bounds(m);
        }
        if m == 0 {
            true
        } else {
            let w = m - 1;
            let r = (m & w) == 0;
            proof {
                assert(((m & w) == 0) == (mask_count(m) <= 1)) by (bit_vector)
                    requires
                        m != 0,
                        w + 1 == m,
                ;
            }
            r
        }
    }

    /// How many digits remain possible.
    pub fn len(&self) -> (r: usize)
        ensures
            r == mask_count(self@),
    {
        let mut v = self.0;
        let mut count: usize = 0;
        proof {
            lemma_count_bounds(self.0);
            lemma_count_bounds(v);
        }
        while v != 0
            invariant
                count + mask_count(v) == mask_count(self.0),
                0 <= mask_count(v) <= 16,
            decreases v,
        {
            let w = v - 1;
            proof {
                lemma_kernighan(v, w);
                lemma_count_bounds(v & w);
            }
            v &= w;
            count += 1;
        }
        proof {
            lemma_count_bounds(v);
        }
        count
    }

    /// Whether no digit remains possible.
    pub fn is_empty(&self) -> (r: bool)
        ensures
            r == (self@ == 0),
    {
        proof {
            lemma_count_bounds(self.0);
        }
        self.len() == 0
    }

    /// Remove and return the lowest remaining digit as a one-element set,
    /// or `None` if the set is empty.  Repeated calls enumerate the digits
    /// in increasing order.
    pub fn pop(&mut self) -> (r: Option<Candidates>)
        ensures
            old(self)@ == 0 ==> r is None && final(self)@ == old(self)@,
            old(self)@ != 0 ==> (r matches Some(c) && c@ == low_bit(old(self)@)
                && mask_count(c@) == 1 && mask_subset(c@, old(self)@)
                && final(self)@ == (old(self)@ & !c@)
                && mask_count(final(self)@) == mask_count(old(self)@) - 1),
    {
        if self.0 == 0 {
            None
        } else {
            let m = self.0;
            let mut k: u16 = 0;
            proof {
                assert(m & (((1u32 << 0u16) - 1) as u16) == 0) by (bit_vector);
            }
            while k < 16
                invariant
                    m != 0,
                    self.0 == m,
                    m == old(self)@,
                    k <= 16,
                    low_bit_from(m, k) == low_bit(m),
                    m & (((1u32 << k) - 1) as u16) == 0,
                decreases 16 - k,
            {
                if m & (1u16 << k) != 0 {
                    let v = 1u16 << k;
                    proof {
                        assert(low_bit_from(m, k) == 1u16 << k);
                        lemma_low_bit(m);
                        assert(m ^ v == (m & !v)) by (bit_vector)
                            requires
                                v == 1u16 << k,
                                k < 16,
                                m & (1u16 << k) != 0,
                        ;
                    }
                    self.0 ^= v;
                    return Some(Candidates(v));
                }
                proof {
                    assert(m & (((1u32 << (k + 1) as u16) - 1) as u16) == 0) by (bit_vector)
                        requires
                            k < 16,
                            m & (((1u32 << k) - 1) as u16) == 0,
                            m & (1u16 << k) == 0,
                    ;
                }
                k += 1;
            }
            proof {
                assert(m == 0) by (bit_vector)
                    requires
                        m & (((1u32 << 16u16) - 1) as u16) == 0,
                ;
            }
            None
        }
    }

    /// Remove every digit of `cs` from this set.
    pub fn substract(&mut self, cs: &Candidates)
        ensures
            final(self)@ == (old(self)@ & !cs@),
            mask_subset(final(self)@, old(self)@),
            mask_count(final(self)@) >= mask_count(old(self)@) - mask_count(cs@),
    {
        proof {
            lemma_and_not(self.0, cs.0);
        }
        self.0 &= !cs.0;
    }

    /// The union of three candidate sets.
    pub fn union(c1: Candidates, c2: Candidates, c3: Candidates) -> (r: Self)
        ensures
            r@ == (c1@ | c2@ | c3@),
    {
        Candidates(c1.0 | c2.0 | c3.0)
    }

    /// The candidate set denoted by a puzzle character.
    pub fn from(c: char) -> (r: Self)
        ensures
            r@ == char_mask(c),
    {
        let u = c as u32;
        if 49 <= u && u <= 57 {
            Candidates(1u16 << ((u - 49) as u16))
        } else {
            Candidates(FULL_MASK)
        }
    }

    /// The single character for this cell: its digit when solved, `'X'`
    /// when empty, and an arbitrary table entry otherwise (callers only
    /// rely on it for sets with one digit or fewer).
    pub fn lucky(&self) -> (r: char)
        ensures
            r == lucky_char(self@),
    {
        let r = self.0 % 11;
        if r == 1 {
            '1'
        } else if r == 2 {
            '2'
        } else if r == 3 {
            '9'
        } else if r == 4 {
            '3'
        } else if r == 5 {
            '5'
        } else if r == 7 {
            '8'
        } else if r == 8 {
            '4'
        } else if r == 9 {
            '7'
        } else if r == 10 {
            '6'
        } else {
            'X'
        }
    }

    /// Render the set: its single character when one digit or fewer
    /// remains, else every remaining digit in increasing order.
    pub fn to_string(&self) -> (r: String)
        ensures
            r@ == cand_str(self@),
    {
        let mut s = String::new();
        if self.is_done() {
            push_char(&mut s, self.lucky());
            proof {
                assert(s@ =~= seq![lucky_char(self@)]);
            }
        } else {
            let mut i: usize = 1;
            while i <= 9
                invariant
                    1 <= i <= 10,
                    s@ == digit_seq(self.0, i - 1),
                decreases 10 - i,
            {
                if self.0 & (1u16 << ((i - 1) as u16)) != 0 {
                    push_char(&mut s, digit_to_char(i));
                }
                i += 1;
            }
        }
        s
    }

    /// An iterator over the remaining digits, lowest first.
    pub fn iter(&self) -> (r: Iter)
        ensures
            r@ == self@,
    {
        Iter { v: *self }
    }
}

/// Iterates over the digits of a candidate set, lowest first, yielding
/// each as a one-element set.
pub struct Iter {
    v: Candidates,
}

impl View for Iter {
    type V = u16;

    closed spec fn view(&self) -> u16 {
        self.v@
    }
}

impl Iter {
    /// The next remaining digit, as a one-element set, or `None` once the
    /// set is exhausted.
    pub fn next(&mut self) -> (r: Option<Candidates>)
        ensures
            old(self)@ == 0 ==> r is None && final(self)@ == old(self)@,
            old(self)@ != 0 ==> (r matches Some(c) && c@ == low_bit(old(self)@)
                && mask_count(c@) == 1 && mask_subset(c@, old(self)@)
                && final(self)@ == (old(self)@ & !c@)
                && mask_count(final(self)@) == mask_count(old(self)@) - 1),
    {
        self.v.pop()
    }
}

/// The union of three candidate sets does not depend on the order of its
/// arguments: the three exchanges below generate every permutation.
pub proof fn lemma_union_commutes(c1: Candidates, c2: Candidates, c3: Candidates)
    ensures
        (c1@ | c2@ | c3@) == (c2@ | c1@ | c3@),
        (c1@ | c2@ | c3@) == (c1@ | c3@ | c2@),
        (c1@ | c2@ | c3@) == (c3@ | c2@ | c1@),
{
    let a = c1@;
    let b = c2@;
    let c = c3@;
    assert((a | b | c) == (b | a | c) && (a | b | c) == (a | c | b) && (a | b | c) == (c | b | a))
        by (bit_vector);
}

/// The union of three candidate sets does not depend on grouping.
pub proof fn lemma_union_associates(c1: Candidates, c2: Candidates, c3: Candidates)
    ensures
        ((c1@ | c2@) | c3@) == (c1@ | (c2@ | c3@)),
{
    let a = c1@;
    let b = c2@;
    let c = c3@;
    assert(((a | b) | c) == (a | (b | c))) by (bit_vector);
}

/// Subtracting one candidate set from another never increases its
/// cardinality.
pub proof fn lemma_substract_shrinks(c1: Candidates, c2: Candidates)
    ensures
        mask_count(c1@ & !c2@) <= mask_count(c1@),
{
    lemma_and_not(c1@, c2@);
    lemma_count_subset(c1@ & !c2@, c1@);
}

/// The sequence of one-element sets that popping yields until the set is
/// exhausted: each step removes the lowest remaining digit.
pub open spec fn pop_seq(m: u16) -> Seq<u16>
    decreases mask_count(m) via pop_seq_dec
{
    if m == 0 {
        Seq::empty()
    } else {
        seq![low_bit(m)].add(pop_seq(m & !low_bit(m)))
    }
}

#[via_fn]
proof fn pop_seq_dec(m: u16) {
    lemma_count_bounds(m);
    if m != 0 {
        lemma_low_bit(m);
        lemma_count_bounds(m & !low_bit(m));
    }
}

proof fn lemma_pop_seq(m: u16)
    ensures
        pop_seq(m).no_duplicates(),
        forall|k: u16| k < 16 ==> (((m >> k) & 1 == 1) == pop_seq(m).contains(1u16 << k)),
        forall|x: u16| #[trigger] pop_seq(m).contains(x) ==> mask_count(x) == 1 && mask_subset(x, m),
    decreases mask_count(m),
{
    lemma_count_bounds(m);
    if m == 0 {
        assert(forall|k: u16| k < 16 ==> (0u16 >> k) & 1 == 0) by (bit_vector);
        assert(pop_seq(0u16).len() == 0);
    } else {
        let b = low_bit(m);
        let rest = m & !b;
        lemma_low_bit(m);
        lemma_pop_seq(rest);
        let t = pop_seq(rest);
        let s = pop_seq(m);
        assert(s == seq![b].add(t));
        assert(s.len() == 1 + t.len());
        assert(s[0] == b);
        assert(forall|i: int| 0 < i < s.len() ==> s[i] == t[i - 1]);

        // membership in `s` is membership in `t` or equality with `b`
        assert forall|x: u16| s.contains(x) implies x == b || t.contains(x) by {
            let i = choose|i: int| 0 <= i < s.len() && s[i] == x;
            if i > 0 {
                assert(t[i - 1] == x);
            }
        }
        assert forall|x: u16| x == b || t.contains(x) implies s.contains(x) by {
            if x == b {
                assert(s[0] == x);
            } else {
                let i = choose|i: int| 0 <= i < t.len() && t[i] == x;
                assert(s[i + 1] == x);
            }
        }

        // `b` itself never reappears in the tail
        assert(b & rest == 0) by (bit_vector)
            requires
                rest == m & !b,
        ;
        assert(!t.contains(b)) by {
            if t.contains(b) {
                lemma_subset_absence(b, rest, b);
            }
        }
        assert forall|i: int, j: int| 0 <= i < j < s.len() implies s[i] != s[j] by {
            if i > 0 {
                assert(t[i - 1] != t[j - 1]);
            } else {
                assert(t.contains(s[j]));
            }
        }

        // a digit of `m` is either `b` or a digit of the remainder
        assert forall|k: u16| k < 16 implies (((m >> k) & 1 == 1) == (b == 1u16 << k
            || (rest >> k) & 1 == 1)) by {
            assert(((m >> k) & 1 == 1) == (b == 1u16 << k || (rest >> k) & 1 == 1))
                by (bit_vector)
                requires
                    k < 16,
                    mask_count(b) == 1,
                    b & m == b,
                    rest == m & !b,
            ;
        }

        assert forall|x: u16| s.contains(x) implies mask_count(x) == 1 && mask_subset(x, m) by {
            if x == b {
            } else {
                assert(pop_seq(rest).contains(x));
                assert(mask_subset(x, rest));
                assert(mask_subset(x, m)) by (bit_vector)
                    requires
                        x & rest == x,
                        rest == m & !b,
                ;
            }
        }
    }
}

/// Popping a candidate set until it is exhausted yields every digit that
/// was originally in the set exactly once, each as a one-element subset.
pub proof fn lemma_pop_enumerates(c: Candidates)
    ensures
        pop_seq(c@).no_duplicates(),
        forall|k: u16| k < 16 ==> (((c@ >> k) & 1 == 1) == pop_seq(c@).contains(1u16 << k)),
        forall|x: u16| pop_seq(c@).contains(x) ==> mask_count(x) == 1 && mask_subset(x, c@),
{
    lemma_pop_seq(c@);
}

} // verus!
