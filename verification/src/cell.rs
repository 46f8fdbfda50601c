//! The bit-level model of hierarchical hexagonal cell identifiers.
//!
//! A cell identifier is a 64-bit word:
//!
//! - bit 63: reserved, must be 0;
//! - bits 59..=62: mode, must be 1 for a cell;
//! - bits 56..=58: reserved mode-dependent bits;
//! - bits 52..=55: resolution, 0..=15;
//! - bits 45..=51: base cell, 0..=121;
//! - bits 0..=44: fifteen 3-bit digits, where digit `r` (for resolution
//!   `r`, counted from 1) occupies bits `(15-r)*3 ..= (15-r)*3+2`. Digits
//!   at resolutions past the cell's own hold the filler value 7.
//!
//! A cell at resolution `r > 0` has one parent at each resolution below
//! `r`, obtained by rewriting the resolution field and filling the now
//! unused digits with 7; a cell at resolution `r < 15` has seven child
//! positions at resolution `r + 1`, one per digit value `0..=6`.

use vstd::prelude::*;

verus! {

/// The resolution level encoded in a cell identifier.
pub open spec fn res_of(c: u64) -> u8 {
    ((c >> 52) & 0xF) as u8
}

/// The base (resolution-0) cell number encoded in a cell identifier.
pub open spec fn base_of(c: u64) -> u8 {
    ((c >> 45) & 0x7F) as u8
}

/// The mode field of an identifier; 1 marks a cell.
pub open spec fn mode_of(c: u64) -> u8 {
    ((c >> 59) & 0xF) as u8
}

/// The 3-bit digit at resolution `r`, meaningful for `1 <= r <= 15`.
pub open spec fn digit_of(c: u64, r: int) -> u8 {
    ((c >> (((15 - r) * 3) as u64)) & 0x7) as u8
}

/// The frame of a cell identifier is well-formed: reserved bit clear,
/// mode 1, base cell below 122.
pub open spec fn is_cell_index(c: u64) -> bool {
    (c >> 63) == 0 && mode_of(c) == 1 && base_of(c) < 122
}

/// Every digit at a used resolution is an actual child position (0..=6).
pub open spec fn digits_in_range(c: u64) -> bool {
    forall|r: int| 1 <= r <= res_of(c) ==> digit_of(c, r) <= 6
}

/// Every digit past the cell's resolution holds the filler value 7.
pub open spec fn canonical(c: u64) -> bool {
    forall|r: int| res_of(c) < r <= 15 ==> digit_of(c, r) == 7
}

/// A fully valid cell identifier, in the unique canonical form the
/// library stores.
pub open spec fn valid_cell(c: u64) -> bool {
    is_cell_index(c) && digits_in_range(c) && canonical(c)
}

/// The mask selecting the digit bits below resolution `r`, all of which
/// are unused by a cell at resolution `r`.
pub open spec fn low_mask(r: int) -> u64 {
    if 0 <= r < 15 {
        u64::MAX >> ((64 - (15 - r) * 3) as u64)
    } else {
        0
    }
}

/// The ancestor of `c` at resolution `r`: the resolution field is
/// rewritten and the digits past `r` are filled with 7. For a canonical
/// `c`, `parent_spec(c, res_of(c)) == c`.
pub open spec fn parent_spec(c: u64, r: int) -> u64 {
    ((c & 0xFF0F_FFFF_FFFF_FFFFu64) | ((r as u64) << 52)) | low_mask(r)
}

/// The child of `p` at digit position `d`, one resolution finer.
pub open spec fn child_spec(p: u64, d: int) -> u64 {
    let rc = res_of(p) as int + 1;
    let sh = ((15 - rc) * 3) as u64;
    (((p & 0xFF0F_FFFF_FFFF_FFFFu64) | ((rc as u64) << 52)) & !(0x7u64 << sh)) | ((d as u64) << sh)
}

/// The canonical form of `c`: unused digits filled with 7.
pub open spec fn canon_spec(c: u64) -> u64 {
    parent_spec(c, res_of(c) as int)
}

/// `a` is a strict ancestor of `d`: it is coarser, and `d` refines it.
pub open spec fn is_strict_ancestor(a: u64, d: u64) -> bool {
    res_of(a) < res_of(d) && parent_spec(d, res_of(a) as int) == a
}

/// Two cells are related when one's footprint contains the other's.
pub open spec fn cells_related(a: u64, b: u64) -> bool {
    a == b || is_strict_ancestor(a, b) || is_strict_ancestor(b, a)
}

/// The mode-dependent reserved bits, preserved by every derivation.
pub open spec fn mode_dep_of(c: u64) -> u8 {
    ((c >> 56) & 0x7) as u8
}

/// Taking the ancestor at resolution `r` rewrites the resolution field,
/// keeps the frame and the digits up to `r`, and fills the rest with 7.
pub proof fn lemma_parent_fields(c: u64, r: int)
    requires
        0 <= r <= res_of(c),
    ensures
        res_of(parent_spec(c, r)) == r,
        base_of(parent_spec(c, r)) == base_of(c),
        parent_spec(c, r) >> 63 == c >> 63,
        mode_of(parent_spec(c, r)) == mode_of(c),
        mode_dep_of(parent_spec(c, r)) == mode_dep_of(c),
        forall|i: int| 1 <= i <= r ==> digit_of(parent_spec(c, r), i) == digit_of(c, i),
        forall|i: int| r < i <= 15 ==> digit_of(parent_spec(c, r), i) == 7,
        canonical(c) && r == res_of(c) ==> parent_spec(c, r) == c,
{
    lemma_res_bound(c);
    let p = parent_spec(c, r);
    let ru = r as u64;
    if r == 15 {
        let q = (c & 0xFF0F_FFFF_FFFF_FFFFu64) | (15u64 << 52);
        assert(q | 0u64 == q) by (bit_vector);
        assert(p == q);
        assert((q >> 52) & 0xF == 15 && (q >> 45) & 0x7F == (c >> 45) & 0x7F && q >> 63 == c >> 63
            && (q >> 59) & 0xF == (c >> 59) & 0xF && (q >> 56) & 0x7 == (c >> 56) & 0x7)
            by (bit_vector)
            requires
                q == (c & 0xFF0F_FFFF_FFFF_FFFFu64) | (15u64 << 52),
        ;
        assert forall|i: int| 1 <= i <= 15 implies digit_of(p, i) == digit_of(c, i) by {
            let iu = i as u64;
            assert(((15 - i) * 3) as u64 == (15 - iu) * 3);
            assert((q >> (((15 - iu) * 3) as u64)) & 0x7 == (c >> (((15 - iu) * 3) as u64)) & 0x7) by (bit_vector)
                requires
                    1 <= iu <= 15,
                    q == (c & 0xFF0F_FFFF_FFFF_FFFFu64) | (15u64 << 52),
            ;
        }
        if ((c >> 52) & 0xF) as u8 == 15 {
            assert(q == c) by (bit_vector)
                requires
                    ((c >> 52) & 0xF) as u8 == 15,
                    q == (c & 0xFF0F_FFFF_FFFF_FFFFu64) | (15u64 << 52),
            ;
        }
    } else {
        let lm = u64::MAX >> ((64 - (15 - r) * 3) as u64);
        assert((64 - (15 - r) * 3) as u64 == 64 - (15 - ru) * 3);
        assert(p == ((c & 0xFF0F_FFFF_FFFF_FFFFu64) | (ru << 52)) | (u64::MAX >> (((64 - (15 - ru) * 3)) as u64)));
        assert((p >> 52) & 0xF == ru && (p >> 45) & 0x7F == (c >> 45) & 0x7F && p >> 63 == c >> 63
            && (p >> 59) & 0xF == (c >> 59) & 0xF && (p >> 56) & 0x7 == (c >> 56) & 0x7)
            by (bit_vector)
            requires
                ru <= 14,
                p == ((c & 0xFF0F_FFFF_FFFF_FFFFu64) | (ru << 52)) | (u64::MAX >> (((64 - (15 - ru) * 3)) as u64)),
        ;
        assert forall|i: int| 1 <= i <= r implies digit_of(p, i) == digit_of(c, i) by {
            let iu = i as u64;
            assert(((15 - i) * 3) as u64 == (15 - iu) * 3);
            assert((p >> (((15 - iu) * 3) as u64)) & 0x7 == (c >> (((15 - iu) * 3) as u64)) & 0x7) by (bit_vector)
                requires
                    1 <= iu,
                    iu <= ru,
                    ru <= 14,
                    p == ((c & 0xFF0F_FFFF_FFFF_FFFFu64) | (ru << 52)) | (u64::MAX >> (((64 - (15 - ru) * 3)) as u64)),
            ;
        }
        assert forall|i: int| r < i <= 15 implies digit_of(p, i) == 7 by {
            let iu = i as u64;
            assert(((15 - i) * 3) as u64 == (15 - iu) * 3);
            assert((p >> (((15 - iu) * 3) as u64)) & 0x7 == 7) by (bit_vector)
                requires
                    ru < iu,
                    iu <= 15,
                    ru <= 14,
                    p == ((c & 0xFF0F_FFFF_FFFF_FFFFu64) | (ru << 52)) | (u64::MAX >> (((64 - (15 - ru) * 3)) as u64)),
            ;
        }
        if canonical(c) && r == res_of(c) {
            assert forall|i: int| 1 <= i <= 15 implies digit_of(p, i) == digit_of(c, i) by {
                if i > r {
                    assert(digit_of(c, i) == 7);
                }
            }
            lemma_cell_ext(p, c);
        }
    }
}

/// Two identifiers that agree on every field are the same word.
pub proof fn lemma_cell_ext(a: u64, b: u64)
    requires
        a >> 63 == b >> 63,
        mode_of(a) == mode_of(b),
        mode_dep_of(a) == mode_dep_of(b),
        res_of(a) == res_of(b),
        base_of(a) == base_of(b),
        forall|i: int| 1 <= i <= 15 ==> digit_of(a, i) == digit_of(b, i),
    ensures
        a == b,
{
    assert(digit_of(a, 1) == digit_of(b, 1));
    assert(digit_of(a, 2) == digit_of(b, 2));
    assert(digit_of(a, 3) == digit_of(b, 3));
    assert(digit_of(a, 4) == digit_of(b, 4));
    assert(digit_of(a, 5) == digit_of(b, 5));
    assert(digit_of(a, 6) == digit_of(b, 6));
    assert(digit_of(a, 7) == digit_of(b, 7));
    assert(digit_of(a, 8) == digit_of(b, 8));
    assert(digit_of(a, 9) == digit_of(b, 9));
    assert(digit_of(a, 10) == digit_of(b, 10));
    assert(digit_of(a, 11) == digit_of(b, 11));
    assert(digit_of(a, 12) == digit_of(b, 12));
    assert(digit_of(a, 13) == digit_of(b, 13));
    assert(digit_of(a, 14) == digit_of(b, 14));
    assert(digit_of(a, 15) == digit_of(b, 15));
    assert(a == b) by (bit_vector)
        requires
            a >> 63 == b >> 63,
            ((a >> 59) & 0xF) as u8 == ((b >> 59) & 0xF) as u8,
            ((a >> 56) & 0x7) as u8 == ((b >> 56) & 0x7) as u8,
            ((a >> 52) & 0xF) as u8 == ((b >> 52) & 0xF) as u8,
            ((a >> 45) & 0x7F) as u8 == ((b >> 45) & 0x7F) as u8,
            ((a >> 42) & 0x7) as u8 == ((b >> 42) & 0x7) as u8,
            ((a >> 39) & 0x7) as u8 == ((b >> 39) & 0x7) as u8,
            ((a >> 36) & 0x7) as u8 == ((b >> 36) & 0x7) as u8,
            ((a >> 33) & 0x7) as u8 == ((b >> 33) & 0x7) as u8,
            ((a >> 30) & 0x7) as u8 == ((b >> 30) & 0x7) as u8,
            ((a >> 27) & 0x7) as u8 == ((b >> 27) & 0x7) as u8,
            ((a >> 24) & 0x7) as u8 == ((b >> 24) & 0x7) as u8,
            ((a >> 21) & 0x7) as u8 == ((b >> 21) & 0x7) as u8,
            ((a >> 18) & 0x7) as u8 == ((b >> 18) & 0x7) as u8,
            ((a >> 15) & 0x7) as u8 == ((b >> 15) & 0x7) as u8,
            ((a >> 12) & 0x7) as u8 == ((b >> 12) & 0x7) as u8,
            ((a >> 9) & 0x7) as u8 == ((b >> 9) & 0x7) as u8,
            ((a >> 6) & 0x7) as u8 == ((b >> 6) & 0x7) as u8,
            ((a >> 3) & 0x7) as u8 == ((b >> 3) & 0x7) as u8,
            ((a >> 0) & 0x7) as u8 == ((b >> 0) & 0x7) as u8,
    ;
}
pub proof fn lemma_res_bound(c: u64)
    ensures
        res_of(c) <= 15,
{
    assert(((c >> 52) & 0xF) as u8 <= 15) by (bit_vector);
}

/// The resolution level encoded in a cell identifier.
pub fn cell_res(c: u64) -> (r: u8)
    ensures
        r == res_of(c),
        r <= 15,
{
    proof {
        lemma_res_bound(c);
    }
    ((c >> 52) & 0xF) as u8
}

/// The 3-bit digit of `c` at resolution `r`.
pub fn cell_digit(c: u64, r: u8) -> (d: u8)
    requires
        1 <= r <= 15,
    ensures
        d == digit_of(c, r as int),
{
    ((c >> (((15 - r) as u64) * 3)) & 0x7) as u8
}

/// Decides whether a raw 64-bit word denotes a hexagonal cell: the frame
/// fields are well-formed and every used digit is a child position.
pub fn check_cell(c: u64) -> (b: bool)
    ensures
        b == (is_cell_index(c) && digits_in_range(c)),
{
    let reserved_clear = (c >> 63) == 0;
    let mode = ((c >> 59) & 0xF) as u8;
    let base = ((c >> 45) & 0x7F) as u8;
    if !(reserved_clear && mode == 1 && base < 122) {
        return false;
    }
    let res = cell_res(c);
    let mut r: u8 = 1;
    while r <= res
        invariant
            1 <= r <= res + 1,
            res == res_of(c),
            res <= 15,
            forall|i: int| 1 <= i < r ==> digit_of(c, i) <= 6,
        decreases res + 1 - r,
    {
        if cell_digit(c, r) > 6 {
            return false;
        }
        r = r + 1;
    }
    true
}

/// The ancestor of `c` at resolution `r`.
pub fn cell_parent(c: u64, r: u8) -> (p: u64)
    requires
        r <= 15,
    ensures
        p == parent_spec(c, r as int),
{
    let cleared = (c & 0xFF0F_FFFF_FFFF_FFFFu64) | ((r as u64) << 52);
    if r >= 15 {
        assert(cleared | 0u64 == cleared) by (bit_vector);
        cleared
    } else {
        cleared | (u64::MAX >> (64 - ((15 - r) as u64) * 3))
    }
}

/// The child of `p` at digit position `d`.
pub fn cell_child(p: u64, d: u8) -> (k: u64)
    requires
        res_of(p) <= 14,
        d <= 6,
    ensures
        k == child_spec(p, d as int),
{
    let rc = cell_res(p) + 1;
    let sh = ((15 - rc) as u64) * 3;
    (((p & 0xFF0F_FFFF_FFFF_FFFFu64) | ((rc as u64) << 52)) & !(0x7u64 << sh)) | ((d as u64)
        << sh)
}

/// The canonical form of `c`.
pub fn canonicalize(c: u64) -> (k: u64)
    ensures
        k == canon_spec(c),
{
    let res = cell_res(c);
    cell_parent(c, res)
}


/// Any digit field is at most 7.
pub proof fn lemma_digit_bound(c: u64, r: int)
    requires
        1 <= r <= 15,
    ensures
        digit_of(c, r) <= 7,
{
    let sh = ((15 - r) * 3) as u64;
    assert((c >> sh) & 0x7 <= 7) by (bit_vector);
}

/// Taking ancestors is compositional: the coarser ancestor of an
/// ancestor is the ancestor at the coarser resolution.
pub proof fn lemma_parent_compose(c: u64, r1: int, r2: int)
    requires
        0 <= r1 <= r2 <= 15,
    ensures
        parent_spec(parent_spec(c, r2), r1) == parent_spec(c, r1),
{
    let r1u = r1 as u64;
    let r2u = r2 as u64;
    let q2 = parent_spec(c, r2);
    if r2 == 15 {
        assert((((c & 0xFF0F_FFFF_FFFF_FFFFu64) | (15u64 << 52)) | 0u64)
            & 0xFF0F_FFFF_FFFF_FFFFu64 == c & 0xFF0F_FFFF_FFFF_FFFFu64) by (bit_vector);
        assert(q2 & 0xFF0F_FFFF_FFFF_FFFFu64 == c & 0xFF0F_FFFF_FFFF_FFFFu64);
    } else {
        assert((64 - (15 - r2) * 3) as u64 == 64 - (15 - r2u) * 3);
        assert((64 - (15 - r1) * 3) as u64 == 64 - (15 - r1u) * 3);
        assert((((q2 & 0xFF0F_FFFF_FFFF_FFFFu64) | (r1u << 52)) | (u64::MAX >> (((64 - (15
            - r1u) * 3)) as u64))) == (((c & 0xFF0F_FFFF_FFFF_FFFFu64) | (r1u << 52)) | (
        u64::MAX >> (((64 - (15 - r1u) * 3)) as u64)))) by (bit_vector)
            requires
                r1u <= r2u,
                r2u <= 14,
                q2 == ((c & 0xFF0F_FFFF_FFFF_FFFFu64) | (r2u << 52)) | (u64::MAX >> (((64 - (15
                    - r2u) * 3)) as u64)),
        ;
    }
}

/// Forming a child rewrites the resolution field and one digit and
/// keeps every other field.
pub proof fn lemma_child_fields(p: u64, d: int)
    requires
        res_of(p) <= 14,
        0 <= d <= 7,
    ensures
        res_of(child_spec(p, d)) == res_of(p) + 1,
        base_of(child_spec(p, d)) == base_of(p),
        child_spec(p, d) >> 63 == p >> 63,
        mode_of(child_spec(p, d)) == mode_of(p),
        mode_dep_of(child_spec(p, d)) == mode_dep_of(p),
        digit_of(child_spec(p, d), res_of(p) + 1) == d,
        forall|i: int| 1 <= i <= res_of(p) ==> digit_of(child_spec(p, d), i) == digit_of(p, i),
        forall|i: int|
            res_of(p) + 2 <= i <= 15 ==> digit_of(child_spec(p, d), i) == digit_of(p, i),
{
    let k = child_spec(p, d);
    let rpu = res_of(p) as u64;
    let rcu = (rpu + 1) as u64;
    let du = d as u64;
    assert(((p >> 52) & 0xF) <= 15) by (bit_vector);
    assert(rpu == (p >> 52) & 0xF);
    assert(((15 - (res_of(p) as int + 1)) * 3) as u64 == (14 - rpu) * 3);
    assert(k == (((p & 0xFF0F_FFFF_FFFF_FFFFu64) | (rcu << 52)) & !(0x7u64 << (((14 - rpu)
        * 3) as u64))) | (du << (((14 - rpu) * 3) as u64)));
    assert((k >> 52) & 0xF == rpu + 1 && (k >> 45) & 0x7F == (p >> 45) & 0x7F && k >> 63 == p
        >> 63 && (k >> 59) & 0xF == (p >> 59) & 0xF && (k >> 56) & 0x7 == (p >> 56) & 0x7 && (k
        >> (((14 - rpu) * 3) as u64)) & 0x7 == du) by (bit_vector)
        requires
            rpu <= 14,
            rcu == rpu + 1,
            du <= 7,
            k == (((p & 0xFF0F_FFFF_FFFF_FFFFu64) | (rcu << 52)) & !(0x7u64 << (((14
                - rpu) * 3) as u64))) | (du << (((14 - rpu) * 3) as u64)),
    ;
    assert(((15 - (res_of(p) + 1)) * 3) as u64 == (14 - rpu) * 3);
    assert forall|i: int| 1 <= i <= res_of(p) implies digit_of(k, i) == digit_of(p, i) by {
        let iu = i as u64;
        assert(((15 - i) * 3) as u64 == (15 - iu) * 3);
        assert((k >> (((15 - iu) * 3) as u64)) & 0x7 == (p >> (((15 - iu) * 3) as u64)) & 0x7)
            by (bit_vector)
            requires
                1 <= iu,
                iu <= rpu,
                rpu <= 14,
                rcu == rpu + 1,
                du <= 7,
                k == (((p & 0xFF0F_FFFF_FFFF_FFFFu64) | (rcu << 52)) & !(0x7u64 << (((14
                    - rpu) * 3) as u64))) | (du << (((14 - rpu) * 3) as u64)),
        ;
    }
    assert forall|i: int| res_of(p) + 2 <= i <= 15 implies digit_of(k, i) == digit_of(p, i) by {
        let iu = i as u64;
        assert(((15 - i) * 3) as u64 == (15 - iu) * 3);
        assert((k >> (((15 - iu) * 3) as u64)) & 0x7 == (p >> (((15 - iu) * 3) as u64)) & 0x7)
            by (bit_vector)
            requires
                rpu + 2 <= iu,
                iu <= 15,
                rpu <= 14,
                rcu == rpu + 1,
                du <= 7,
                k == (((p & 0xFF0F_FFFF_FFFF_FFFFu64) | (rcu << 52)) & !(0x7u64 << (((14
                    - rpu) * 3) as u64))) | (du << (((14 - rpu) * 3) as u64)),
        ;
    }
}

/// An ancestor of a well-formed cell is a valid cell, and a strict
/// ancestor in the sense of the footprint relation.
pub proof fn lemma_parent_valid(c: u64, r: int)
    requires
        is_cell_index(c),
        digits_in_range(c),
        0 <= r <= res_of(c),
    ensures
        valid_cell(parent_spec(c, r)),
        res_of(parent_spec(c, r)) == r,
        r < res_of(c) ==> is_strict_ancestor(parent_spec(c, r), c),
{
    lemma_parent_fields(c, r);
    let p = parent_spec(c, r);
    assert forall|i: int| 1 <= i <= res_of(p) implies digit_of(p, i) <= 6 by {
        assert(digit_of(p, i) == digit_of(c, i));
        assert(digit_of(c, i) <= 6);
    }
    assert forall|i: int| res_of(p) < i <= 15 implies digit_of(p, i) == 7 by {}
}

/// The footprint-containment relation is transitive.
pub proof fn lemma_ancestor_trans(a: u64, b: u64, c: u64)
    requires
        is_strict_ancestor(a, b),
        is_strict_ancestor(b, c),
    ensures
        is_strict_ancestor(a, c),
{
    lemma_res_bound(c);
    lemma_parent_compose(c, res_of(a) as int, res_of(b) as int);
}

/// A child of a valid non-finest cell is a valid cell one level finer,
/// and the parent operation inverts the child operation.
pub proof fn lemma_child_valid(p: u64, d: int)
    requires
        valid_cell(p),
        res_of(p) <= 14,
        0 <= d <= 6,
    ensures
        valid_cell(child_spec(p, d)),
        res_of(child_spec(p, d)) == res_of(p) + 1,
        digit_of(child_spec(p, d), res_of(p) + 1) == d,
        parent_spec(child_spec(p, d), res_of(p) as int) == p,
        is_strict_ancestor(p, child_spec(p, d)),
{
    lemma_child_fields(p, d);
    let k = child_spec(p, d);
    assert forall|i: int| 1 <= i <= res_of(k) implies digit_of(k, i) <= 6 by {
        if i <= res_of(p) {
            assert(digit_of(k, i) == digit_of(p, i));
        }
    }
    assert forall|i: int| res_of(k) < i <= 15 implies digit_of(k, i) == 7 by {
        assert(digit_of(k, i) == digit_of(p, i));
    }
    lemma_parent_fields(k, res_of(p) as int);
    let q = parent_spec(k, res_of(p) as int);
    assert forall|i: int| 1 <= i <= 15 implies digit_of(q, i) == digit_of(p, i) by {
        if i <= res_of(p) {
            assert(digit_of(q, i) == digit_of(k, i));
        } else {
            assert(digit_of(q, i) == 7);
            assert(digit_of(p, i) == 7);
        }
    }
    lemma_cell_ext(q, p);
}

/// A strict descendant of `p` lies under exactly one of `p`'s children:
/// the one named by its digit just below `p`'s resolution.
pub proof fn lemma_descendant_step(p: u64, k: u64)
    requires
        valid_cell(k),
        is_strict_ancestor(p, k),
    ensures
        digit_of(k, res_of(p) + 1) <= 6,
        res_of(k) == res_of(p) + 1 ==> k == child_spec(p, digit_of(k, res_of(p) + 1) as int),
        res_of(k) > res_of(p) + 1 ==> is_strict_ancestor(
            child_spec(p, digit_of(k, res_of(p) + 1) as int),
            k,
        ),
{
    lemma_res_bound(k);
    let rp = res_of(p) as int;
    let d = digit_of(k, rp + 1);
    lemma_parent_fields(k, rp);
    lemma_parent_fields(k, rp + 1);
    assert(parent_spec(k, rp) == p);
    lemma_digit_bound(k, rp + 1);
    // The one-step refinement of the ancestor at rp is the ancestor at rp + 1.
    let q = parent_spec(k, rp);
    lemma_child_fields(q, d as int);
    let ch = child_spec(q, d as int);
    let pk = parent_spec(k, rp + 1);
    assert forall|i: int| 1 <= i <= 15 implies digit_of(ch, i) == digit_of(pk, i) by {
        if i <= rp {
            assert(digit_of(ch, i) == digit_of(q, i));
            assert(digit_of(q, i) == digit_of(k, i));
            assert(digit_of(pk, i) == digit_of(k, i));
        } else if i == rp + 1 {
            assert(digit_of(ch, i) == d);
            assert(digit_of(pk, i) == digit_of(k, i));
        } else {
            assert(digit_of(ch, i) == digit_of(q, i));
            assert(digit_of(q, i) == 7);
            assert(digit_of(pk, i) == 7);
        }
    }
    lemma_cell_ext(ch, pk);
    if res_of(k) == rp + 1 {
        assert(parent_spec(k, res_of(k) as int) == k);
    }
}

} // verus!
