//! Aggregation of IPv4 and IPv6 prefixes into the smallest equivalent list
//! of canonical prefixes.
//!
//! Each prefix is turned into the half-open interval of the addresses it
//! covers, the intervals of each family are merged, and every merged
//! interval is cut, from its start, into the largest aligned blocks that fit.

use vstd::prelude::*;
use vstd::arithmetic::power2::{pow2, lemma_pow2_pos, lemma_pow2_adds, lemma_pow2_unfold, lemma2_to64};
use vstd::arithmetic::div_mod::{
    lemma_fundamental_div_mod, lemma_mod_pos_bound, lemma_mod_multiples_basic, lemma_div_pos_is_pos,
};
use vstd::arithmetic::mul::lemma_mul_inequality;
use crate::interval::{
    IntervalKey, covers, cover_set, in_interval, well_formed, normalized, is_merge_of, merge_of,
    lemma_merge_of_exists, lemma_merge_of_same_cover, merge_intervals_forwards_copy,
};
use crate::ipmath::{U129, two_pow_128, lemma_pow2_128, pow2_u128};

verus! {

/// An IPv4 or IPv6 prefix: an address and a prefix length. The address may
/// have host bits set.
#[derive(Debug, Clone, Copy, PartialEq, Eq, Structural)]
#[allow(inconsistent_fields)]
pub enum Cidr {
    V4 { addr: u32, len: u8 },
    V6 { addr: u128, len: u8 },
}

/// The number of address bits of a family.
pub open spec fn width(v6: bool) -> nat {
    if v6 { 128 } else { 32 }
}

impl Cidr {
    pub open spec fn is_v6(self) -> bool {
        match self {
            Cidr::V4 { .. } => false,
            Cidr::V6 { .. } => true,
        }
    }

    pub open spec fn address(self) -> int {
        match self {
            Cidr::V4 { addr, .. } => addr as int,
            Cidr::V6 { addr, .. } => addr as int,
        }
    }

    pub open spec fn prefix_len(self) -> int {
        match self {
            Cidr::V4 { len, .. } => len as int,
            Cidr::V6 { len, .. } => len as int,
        }
    }

    /// The prefix length is at most the width of the family.
    pub open spec fn valid(self) -> bool {
        self.prefix_len() <= width(self.is_v6())
    }

    /// The number of addresses the prefix covers.
    pub open spec fn block_size(self) -> nat {
        pow2((width(self.is_v6()) - self.prefix_len()) as nat)
    }

    /// The address with the host bits cleared.
    pub open spec fn network(self) -> int {
        self.address() - self.address() % (self.block_size() as int)
    }

    /// The prefix is of family `v6` and covers the address `x`.
    pub open spec fn contains(self, v6: bool, x: int) -> bool {
        self.is_v6() == v6 && self.network() <= x < self.network() + self.block_size()
    }

    /// No host bit is set.
    pub open spec fn canonical(self) -> bool {
        self.address() % (self.block_size() as int) == 0
    }

    /// The addresses of the prefix as a half-open interval.
    pub open spec fn interval(self) -> (U129, U129) {
        (U129::of(self.network()), U129::of(self.network() + self.block_size()))
    }
}

/// Some prefix of `p` of family `v6` covers `x`.
pub open spec fn covered(p: Seq<Cidr>, v6: bool, x: int) -> bool {
    exists|i: int| 0 <= i < p.len() && #[trigger] p[i].contains(v6, x)
}

/// The addresses of family `v6` that the prefixes of `p` cover.
pub open spec fn address_set(p: Seq<Cidr>, v6: bool) -> Set<int> {
    Set::new(|x: int| covered(p, v6, x))
}

pub open spec fn all_valid(p: Seq<Cidr>) -> bool {
    forall|i: int| 0 <= i < p.len() ==> #[trigger] p[i].valid()
}

/// The intervals of the prefixes of family `v6`, in input order.
pub open spec fn family_intervals(p: Seq<Cidr>, v6: bool) -> Seq<(U129, U129)>
    decreases p.len(),
{
    if p.len() == 0 {
        Seq::empty()
    } else {
        let rest = family_intervals(p.drop_last(), v6);
        if p.last().is_v6() == v6 {
            rest.push(p.last().interval())
        } else {
            rest
        }
    }
}

pub open spec fn make_cidr(a: int, len: int, v6: bool) -> Cidr {
    if v6 {
        Cidr::V6 { addr: a as u128, len: len as u8 }
    } else {
        Cidr::V4 { addr: a as u32, len: len as u8 }
    }
}

/// The size exponent of the block cut at `s` from `[s, e)`: grown from `k`
/// while the doubled block stays aligned at `s`, fits before `e` and is not
/// wider than the family.
pub open spec fn block_exp(s: int, e: int, w: nat, k: nat) -> nat
    decreases w - k,
{
    if k < w && (s / pow2(k) as int) % 2 == 0 && s + pow2(k + 1) <= e {
        block_exp(s, e, w, k + 1)
    } else {
        k
    }
}

/// The blocks that `[s, e)` is cut into, from `s` upwards, each the largest
/// aligned block that fits.
pub open spec fn split_range(s: int, e: int, v6: bool) -> Seq<Cidr>
    decreases e - s,
    via split_range_decreases
{
    if 0 <= s < e {
        let k = block_exp(s, e, width(v6), 0);
        seq![make_cidr(s, width(v6) - k, v6)] + split_range(s + pow2(k), e, v6)
    } else {
        Seq::empty()
    }
}

#[via_fn]
proof fn split_range_decreases(s: int, e: int, v6: bool) {
    if 0 <= s < e {
        lemma_block_exp_start(s, e, width(v6));
    }
}

/// The block grown from `k` stays aligned at `s`, fits before `e`, and could
/// not be doubled.
proof fn lemma_block_exp(s: int, e: int, w: nat, k: nat)
    requires
        0 <= s,
        k <= w,
        s % (pow2(k) as int) == 0,
        s + pow2(k) <= e,
    ensures
        k <= block_exp(s, e, w, k) <= w,
        s % (pow2(block_exp(s, e, w, k)) as int) == 0,
        s + pow2(block_exp(s, e, w, k)) <= e,
        !(block_exp(s, e, w, k) < w && (s / pow2(block_exp(s, e, w, k)) as int) % 2 == 0 && s + pow2(
            block_exp(s, e, w, k) + 1,
        ) <= e),
    decreases w - k,
{
    if k < w && (s / pow2(k) as int) % 2 == 0 && s + pow2(k + 1) <= e {
        let p = pow2(k) as int;
        lemma_pow2_pos(k);
        lemma_pow2_unfold(k + 1);
        lemma_fundamental_div_mod(s, p);
        let q = s / p;
        lemma_fundamental_div_mod(q, 2);
        let h = q / 2;
        assert(s == p * q);
        assert(s == h * (2 * p)) by (nonlinear_arith)
            requires
                s == p * q,
                q == 2 * h + q % 2,
                q % 2 == 0,
        ;
        lemma_mod_multiples_basic(h, 2 * p);
        lemma_block_exp(s, e, w, k + 1);
    }
}

proof fn lemma_block_exp_start(s: int, e: int, w: nat)
    requires
        0 <= s < e,
    ensures
        block_exp(s, e, w, 0) <= w,
        s % (pow2(block_exp(s, e, w, 0)) as int) == 0,
        s + pow2(block_exp(s, e, w, 0)) <= e,
        pow2(block_exp(s, e, w, 0)) >= 1,
{
    vstd::arithmetic::power2::lemma2_to64();
    lemma_block_exp(s, e, w, 0);
    lemma_pow2_pos(block_exp(s, e, w, 0));
}

/// The blocks of each interval of `m`, in order.
pub open spec fn split_all(m: Seq<(U129, U129)>, v6: bool) -> Seq<Cidr>
    decreases m.len(),
{
    if m.len() == 0 {
        Seq::empty()
    } else {
        split_all(m.drop_last(), v6) + split_range(m.last().0.rank(), m.last().1.rank(), v6)
    }
}

/// The aggregate of the prefixes of family `v6`.
pub open spec fn family_blocks(p: Seq<Cidr>, v6: bool) -> Seq<Cidr> {
    split_all(merge_of(family_intervals(p, v6)), v6)
}

/// The aggregate of `p`: the IPv4 blocks, then the IPv6 blocks.
pub open spec fn aggregate_spec(p: Seq<Cidr>) -> Seq<Cidr> {
    family_blocks(p, false) + family_blocks(p, true)
}

pub proof fn lemma_width_pow2(v6: bool)
    ensures
        pow2(width(v6)) == if v6 { u128::MAX + 1 } else { u32::MAX + 1 },
{
    lemma2_to64();
    lemma_pow2_128();
}

/// The network of an address lies in the address space, aligned to the
/// block size, with the whole block inside the address space.
proof fn lemma_network(a: int, len: nat, w: nat)
    requires
        0 <= a < pow2(w),
        len <= w,
    ensures
        pow2((w - len) as nat) >= 1,
        0 <= a - a % (pow2((w - len) as nat) as int) <= a,
        (a - a % (pow2((w - len) as nat) as int)) % (pow2((w - len) as nat) as int) == 0,
        a - a % (pow2((w - len) as nat) as int) + pow2((w - len) as nat) <= pow2(w),
{
    let size = pow2((w - len) as nat) as int;
    lemma_pow2_pos((w - len) as nat);
    lemma_pow2_pos(len);
    lemma_pow2_adds((w - len) as nat, len);
    assert((w - len) as nat + len == w);
    let big = pow2(len) as int;
    assert(pow2(w) == size * big);
    lemma_fundamental_div_mod(a, size);
    lemma_mod_pos_bound(a, size);
    lemma_div_pos_is_pos(a, size);
    let q = a / size;
    assert(a - a % size == size * q);
    assert(q * size == size * q) by (nonlinear_arith);
    lemma_mod_multiples_basic(q, size);
    if q >= big {
        lemma_mul_inequality(big, q, size);
        assert(big * size == size * big) by (nonlinear_arith);
        assert(false);
    }
    lemma_mul_inequality(q + 1, big, size);
    assert((q + 1) * size == size * q + size) by (nonlinear_arith);
    assert(big * size == size * big) by (nonlinear_arith);
}

proof fn lemma_prefix_interval(c: Cidr)
    requires
        c.valid(),
    ensures
        c.block_size() >= 1,
        0 <= c.network(),
        c.network() + c.block_size() <= pow2(width(c.is_v6())),
        c.network() % (c.block_size() as int) == 0,
        c.interval().0.rank() == c.network(),
        c.interval().1.rank() == c.network() + c.block_size(),
        forall|x: int| #[trigger] in_interval(c.interval(), x) == c.contains(c.is_v6(), x),
{
    let w = width(c.is_v6());
    lemma_width_pow2(c.is_v6());
    lemma_network(c.address(), c.prefix_len() as nat, w);
    assert((w - c.prefix_len()) as nat == (w - c.prefix_len() as nat) as nat);
    lemma_pow2_128();
    lemma2_to64();
    assert(pow2(width(c.is_v6())) <= two_pow_128()) by {
        if !c.is_v6() {
            vstd::arithmetic::power2::lemma_pow2_strictly_increases(32, 128);
        }
    }
}

proof fn lemma_covered_push(p: Seq<Cidr>, c: Cidr, v6: bool, x: int)
    ensures
        covered(p.push(c), v6, x) == (covered(p, v6, x) || c.contains(v6, x)),
{
    let t = p.push(c);
    if covered(p, v6, x) {
        let i = choose|i: int| 0 <= i < p.len() && #[trigger] p[i].contains(v6, x);
        assert(t[i].contains(v6, x));
    }
    if c.contains(v6, x) {
        assert(t[p.len() as int].contains(v6, x));
    }
    if covered(t, v6, x) {
        let i = choose|i: int| 0 <= i < t.len() && #[trigger] t[i].contains(v6, x);
        if i < p.len() {
            assert(p[i].contains(v6, x));
        }
    }
}

proof fn lemma_covered_concat(a: Seq<Cidr>, b: Seq<Cidr>, v6: bool, x: int)
    ensures
        covered(a + b, v6, x) == (covered(a, v6, x) || covered(b, v6, x)),
{
    let t = a + b;
    if covered(a, v6, x) {
        let i = choose|i: int| 0 <= i < a.len() && #[trigger] a[i].contains(v6, x);
        assert(t[i].contains(v6, x));
    }
    if covered(b, v6, x) {
        let i = choose|i: int| 0 <= i < b.len() && #[trigger] b[i].contains(v6, x);
        assert(t[a.len() + i].contains(v6, x));
    }
    if covered(t, v6, x) {
        let i = choose|i: int| 0 <= i < t.len() && #[trigger] t[i].contains(v6, x);
        if i < a.len() {
            assert(a[i].contains(v6, x));
        } else {
            assert(b[i - a.len()].contains(v6, x));
        }
    }
}

/// The intervals of a family's prefixes are non-empty, lie in the family's
/// address space and cover exactly the family's addresses.
proof fn lemma_family_intervals(p: Seq<Cidr>, v6: bool)
    requires
        all_valid(p),
    ensures
        well_formed(family_intervals(p, v6)),
        cover_set(family_intervals(p, v6)) == address_set(p, v6),
        forall|i: int| 0 <= i < family_intervals(p, v6).len() ==> 0 <= (#[trigger] family_intervals(p, v6)[i]).0.rank()
            && family_intervals(p, v6)[i].1.rank() <= pow2(width(v6)),
    decreases p.len(),
{
    let f = family_intervals(p, v6);
    if p.len() == 0 {
        assert(cover_set(f) =~= address_set(p, v6));
    } else {
        let d = p.drop_last();
        let c = p.last();
        assert(p =~= d.push(c));
        assert forall|i: int| 0 <= i < d.len() implies #[trigger] d[i].valid() by {
            assert(d[i] == p[i]);
        }
        lemma_family_intervals(d, v6);
        let fd = family_intervals(d, v6);
        lemma_prefix_interval(c);
        if c.is_v6() == v6 {
            assert(f == fd.push(c.interval()));
            assert forall|i: int| 0 <= i < f.len() implies (#[trigger] f[i]).0.rank() < f[i].1.rank() by {
                if i < fd.len() {
                    assert(f[i] == fd[i]);
                }
            }
            assert forall|i: int| 0 <= i < f.len() implies 0 <= (#[trigger] f[i]).0.rank() && f[i].1.rank() <= pow2(width(v6)) by {
                if i < fd.len() {
                    assert(f[i] == fd[i]);
                }
            }
            assert forall|x: int| cover_set(f).contains(x) == address_set(p, v6).contains(x) by {
                crate::interval::lemma_covers_push(fd, c.interval(), x);
                lemma_covered_push(d, c, v6, x);
                assert(cover_set(fd).contains(x) == address_set(d, v6).contains(x));
            }
        } else {
            assert forall|x: int| cover_set(f).contains(x) == address_set(p, v6).contains(x) by {
                lemma_covered_push(d, c, v6, x);
                assert(cover_set(fd).contains(x) == address_set(d, v6).contains(x));
            }
        }
        assert(cover_set(f) =~= address_set(p, v6));
    }
}

/// Every block of `b` is a valid, canonical prefix of family `v6`.
pub open spec fn blocks_ok(b: Seq<Cidr>, v6: bool) -> bool {
    forall|i: int| 0 <= i < b.len() ==> (#[trigger] b[i]).valid() && b[i].canonical() && b[i].is_v6() == v6
}

proof fn lemma_covered_single(c: Cidr, v6: bool, x: int)
    ensures
        covered(seq![c], v6, x) == c.contains(v6, x),
{
    if c.contains(v6, x) {
        assert(seq![c][0].contains(v6, x));
    }
}

/// The block cut at `s` covers `[s, s + 2^k)`.
proof fn lemma_block(s: int, k: nat, v6: bool)
    requires
        0 <= s,
        k <= width(v6),
        s % (pow2(k) as int) == 0,
        s + pow2(k) <= pow2(width(v6)),
    ensures
        make_cidr(s, width(v6) - k, v6).valid(),
        make_cidr(s, width(v6) - k, v6).canonical(),
        make_cidr(s, width(v6) - k, v6).is_v6() == v6,
        make_cidr(s, width(v6) - k, v6).address() == s,
        make_cidr(s, width(v6) - k, v6).prefix_len() == width(v6) - k,
        forall|x: int| #[trigger] make_cidr(s, width(v6) - k, v6).contains(v6, x) == (s <= x < s + pow2(k)),
        forall|x: int, f: bool| f != v6 ==> !#[trigger] make_cidr(s, width(v6) - k, v6).contains(f, x),
{
    let c = make_cidr(s, width(v6) - k, v6);
    lemma_width_pow2(v6);
    lemma_pow2_pos(k);
    assert((width(v6) - (width(v6) - k)) as nat == k);
    assert(c.block_size() == pow2(k));
}

proof fn lemma_split_range(s: int, e: int, v6: bool)
    requires
        0 <= s <= e <= pow2(width(v6)),
    ensures
        blocks_ok(split_range(s, e, v6), v6),
        forall|x: int| #[trigger] covered(split_range(s, e, v6), v6, x) == (s <= x < e),
        forall|x: int, f: bool| f != v6 ==> !#[trigger] covered(split_range(s, e, v6), f, x),
    decreases e - s,
{
    let b = split_range(s, e, v6);
    if s < e {
        let k = block_exp(s, e, width(v6), 0);
        lemma_block_exp_start(s, e, width(v6));
        lemma_block(s, k, v6);
        let c = make_cidr(s, width(v6) - k, v6);
        let rest = split_range(s + pow2(k), e, v6);
        lemma_split_range(s + pow2(k), e, v6);
        assert(b == seq![c] + rest);
        assert forall|i: int| 0 <= i < b.len() implies (#[trigger] b[i]).valid() && b[i].canonical() && b[i].is_v6() == v6 by {
            if i > 0 {
                assert(b[i] == rest[i - 1]);
            }
        }
        assert forall|x: int| #[trigger] covered(b, v6, x) == (s <= x < e) by {
            lemma_covered_concat(seq![c], rest, v6, x);
            lemma_covered_single(c, v6, x);
        }
        assert forall|x: int, f: bool| f != v6 implies !#[trigger] covered(b, f, x) by {
            lemma_covered_concat(seq![c], rest, f, x);
            lemma_covered_single(c, f, x);
        }
    }
}

/// The intervals of `m` lie in the address space of family `v6`.
pub open spec fn within_family(m: Seq<(U129, U129)>, v6: bool) -> bool {
    forall|i: int| 0 <= i < m.len() ==> 0 <= (#[trigger] m[i]).0.rank() <= m[i].1.rank() <= pow2(width(v6))
}

proof fn lemma_split_all(m: Seq<(U129, U129)>, v6: bool)
    requires
        within_family(m, v6),
    ensures
        blocks_ok(split_all(m, v6), v6),
        address_set(split_all(m, v6), v6) == cover_set(m),
        address_set(split_all(m, v6), !v6) == Set::<int>::empty(),
    decreases m.len(),
{
    let b = split_all(m, v6);
    if m.len() == 0 {
        assert(address_set(b, v6) =~= cover_set(m));
        assert(address_set(b, !v6) =~= Set::<int>::empty());
    } else {
        let d = m.drop_last();
        let l = m.last();
        assert forall|i: int| 0 <= i < d.len() implies 0 <= (#[trigger] d[i]).0.rank() <= d[i].1.rank() <= pow2(width(v6)) by {
            assert(d[i] == m[i]);
        }
        lemma_split_all(d, v6);
        lemma_split_range(l.0.rank(), l.1.rank(), v6);
        let bd = split_all(d, v6);
        let br = split_range(l.0.rank(), l.1.rank(), v6);
        assert(b == bd + br);
        assert forall|i: int| 0 <= i < b.len() implies (#[trigger] b[i]).valid() && b[i].canonical() && b[i].is_v6() == v6 by {
            if i < bd.len() {
                assert(b[i] == bd[i]);
            } else {
                assert(b[i] == br[i - bd.len()]);
            }
        }
        assert(m =~= d.push(l));
        assert forall|x: int| address_set(b, v6).contains(x) == cover_set(m).contains(x) by {
            lemma_covered_concat(bd, br, v6, x);
            crate::interval::lemma_covers_push(d, l, x);
            assert(address_set(bd, v6).contains(x) == cover_set(d).contains(x));
        }
        assert(address_set(b, v6) =~= cover_set(m));
        let nf = !v6;
        assert forall|x: int| !#[trigger] address_set(b, nf).contains(x) by {
            lemma_covered_concat(bd, br, nf, x);
            assert(!address_set(bd, nf).contains(x));
        }
        assert(address_set(b, !v6) =~= Set::<int>::empty());
    }
}

/// A normalized list covering the addresses of a family lies in its address space.
proof fn lemma_merge_within_family(p: Seq<Cidr>, v6: bool, m: Seq<(U129, U129)>)
    requires
        all_valid(p),
        normalized(m),
        cover_set(m) == address_set(p, v6),
    ensures
        within_family(m, v6),
{
    assert forall|i: int| 0 <= i < m.len() implies 0 <= (#[trigger] m[i]).0.rank() <= m[i].1.rank() <= pow2(width(v6)) by {
        let lo = m[i].0.rank();
        let hi = m[i].1.rank();
        assert(in_interval(m[i], lo));
        assert(cover_set(m).contains(lo));
        assert(address_set(p, v6).contains(lo));
        let j = choose|j: int| 0 <= j < p.len() && #[trigger] p[j].contains(v6, lo);
        lemma_prefix_interval(p[j]);
        assert(in_interval(m[i], hi - 1));
        assert(cover_set(m).contains(hi - 1));
        assert(address_set(p, v6).contains(hi - 1));
        let j2 = choose|j2: int| 0 <= j2 < p.len() && #[trigger] p[j2].contains(v6, hi - 1);
        lemma_prefix_interval(p[j2]);
    }
}

/// The blocks of one family of the aggregate cover exactly the addresses of
/// that family in the input.
proof fn lemma_family_blocks(p: Seq<Cidr>, v6: bool)
    requires
        all_valid(p),
    ensures
        blocks_ok(family_blocks(p, v6), v6),
        address_set(family_blocks(p, v6), v6) == address_set(p, v6),
        address_set(family_blocks(p, v6), !v6) == Set::<int>::empty(),
        within_family(merge_of(family_intervals(p, v6)), v6),
        is_merge_of(family_intervals(p, v6), merge_of(family_intervals(p, v6))),
{
    lemma_family_intervals(p, v6);
    let f = family_intervals(p, v6);
    lemma_merge_of_exists(f);
    lemma_merge_within_family(p, v6, merge_of(f));
    lemma_split_all(merge_of(f), v6);
}

/// The aggregate covers exactly the addresses that the input covers, in
/// each family, and consists of valid canonical prefixes.
pub proof fn lemma_aggregate_covers(p: Seq<Cidr>)
    requires
        all_valid(p),
    ensures
        address_set(aggregate_spec(p), false) == address_set(p, false),
        address_set(aggregate_spec(p), true) == address_set(p, true),
        all_valid(aggregate_spec(p)),
        forall|i: int| 0 <= i < aggregate_spec(p).len() ==> (#[trigger] aggregate_spec(p)[i]).canonical(),
{
    lemma_family_blocks(p, false);
    lemma_family_blocks(p, true);
    let a = family_blocks(p, false);
    let b = family_blocks(p, true);
    let r = aggregate_spec(p);
    assert forall|x: int| address_set(r, false).contains(x) == address_set(p, false).contains(x) by {
        lemma_covered_concat(a, b, false, x);
        assert(!address_set(b, false).contains(x));
        assert(address_set(a, false).contains(x) == address_set(p, false).contains(x));
    }
    assert forall|x: int| address_set(r, true).contains(x) == address_set(p, true).contains(x) by {
        lemma_covered_concat(a, b, true, x);
        assert(!address_set(a, true).contains(x));
        assert(address_set(b, true).contains(x) == address_set(p, true).contains(x));
    }
    assert(address_set(r, false) =~= address_set(p, false));
    assert(address_set(r, true) =~= address_set(p, true));
    assert forall|i: int| 0 <= i < r.len() implies (#[trigger] r[i]).valid() && r[i].canonical() by {
        if i < a.len() {
            assert(r[i] == a[i]);
        } else {
            assert(r[i] == b[i - a.len()]);
        }
    }
}

/// Inputs that cover the same addresses have the same aggregate.
pub proof fn lemma_aggregate_same_addresses(p: Seq<Cidr>, q: Seq<Cidr>)
    requires
        all_valid(p),
        all_valid(q),
        address_set(p, false) == address_set(q, false),
        address_set(p, true) == address_set(q, true),
    ensures
        aggregate_spec(p) == aggregate_spec(q),
{
    lemma_family_intervals(p, false);
    lemma_family_intervals(q, false);
    lemma_family_intervals(p, true);
    lemma_family_intervals(q, true);
    lemma_merge_of_same_cover(family_intervals(p, false), family_intervals(q, false));
    lemma_merge_of_same_cover(family_intervals(p, true), family_intervals(q, true));
}

/// Aggregating an aggregate changes nothing.
pub proof fn lemma_aggregate_idempotent(p: Seq<Cidr>)
    requires
        all_valid(p),
    ensures
        aggregate_spec(aggregate_spec(p)) == aggregate_spec(p),
{
    lemma_aggregate_covers(p);
    lemma_aggregate_same_addresses(aggregate_spec(p), p);
}

/// The order of the input does not matter: a permutation of it has the
/// same aggregate.
pub proof fn lemma_aggregate_order_invariant(p: Seq<Cidr>, q: Seq<Cidr>)
    requires
        all_valid(p),
        p.to_multiset() == q.to_multiset(),
    ensures
        aggregate_spec(p) == aggregate_spec(q),
{
    broadcast use vstd::seq_lib::group_to_multiset_ensures;

    assert forall|i: int| 0 <= i < q.len() implies #[trigger] q[i].valid() by {
        assert(q.contains(q[i]));
        assert(p.to_multiset().count(q[i]) > 0);
        assert(p.contains(q[i]));
    }
    assert forall|v6: bool, x: int| address_set(p, v6).contains(x) == address_set(q, v6).contains(x) by {
        if covered(p, v6, x) {
            let i = choose|i: int| 0 <= i < p.len() && #[trigger] p[i].contains(v6, x);
            assert(p.contains(p[i]));
            assert(q.to_multiset().count(p[i]) > 0);
            assert(q.contains(p[i]));
            let j = choose|j: int| 0 <= j < q.len() && q[j] == p[i];
            assert(q[j].contains(v6, x));
        }
        if covered(q, v6, x) {
            let i = choose|i: int| 0 <= i < q.len() && #[trigger] q[i].contains(v6, x);
            assert(q.contains(q[i]));
            assert(p.to_multiset().count(q[i]) > 0);
            assert(p.contains(q[i]));
            let j = choose|j: int| 0 <= j < p.len() && p[j] == q[i];
            assert(p[j].contains(v6, x));
        }
    }
    assert(address_set(p, false) =~= address_set(q, false));
    assert(address_set(p, true) =~= address_set(q, true));
    lemma_aggregate_same_addresses(p, q);
}

proof fn lemma_block_exp_whole_space(k: nat)
    requires
        k <= 128,
    ensures
        block_exp(0, two_pow_128(), 128, k) == 128,
    decreases 128 - k,
{
    if k < 128 {
        lemma_pow2_pos(k);
        lemma_pow2_128();
        if k + 1 < 128 {
            vstd::arithmetic::power2::lemma_pow2_strictly_increases(k + 1, 128);
        }
        assert(0int / (pow2(k) as int) == 0);
        lemma_block_exp_whole_space(k + 1);
    }
}

impl Cidr {
    /// The addresses of the prefix as a half-open interval.
    pub fn to_interval(&self) -> (r: (U129, U129))
        requires
            self.valid(),
        ensures
            r == self.interval(),
    {
        let (a, w, len): (u128, u32, u8) = match *self {
            Cidr::V4 { addr, len } => (addr as u128, 32, len),
            Cidr::V6 { addr, len } => (addr, 128, len),
        };
        let host: u32 = w - len as u32;
        proof {
            lemma_width_pow2(self.is_v6());
            lemma_prefix_interval(*self);
            lemma_pow2_128();
        }
        if host == 128 {
            proof {
                assert(self.block_size() == two_pow_128());
                vstd::arithmetic::div_mod::lemma_small_mod(a as nat, two_pow_128() as nat);
            }
            (U129::from_u128(0), U129 { carry: true, low: 0 })
        } else {
            let size = pow2_u128(host);
            let net = a - a % size;
            (U129::from_u128(net), U129::add_u128(net, size))
        }
    }
}

/// Appends to `out` the blocks that `[lo, hi)` is cut into.
fn split_interval(lo: U129, hi: U129, v6: bool, out: &mut Vec<Cidr>)
    requires
        0 <= lo.rank() < hi.rank() <= pow2(width(v6)),
    ensures
        final(out)@ == old(out)@ + split_range(lo.rank(), hi.rank(), v6),
{
    let w: u32 = if v6 { 128 } else { 32 };
    let ghost e = hi.rank();
    proof {
        lemma_width_pow2(v6);
        lemma_pow2_128();
    }
    let mut s: u128 = lo.low;
    if hi.carry && s == 0 {
        proof {
            lemma_block_exp_whole_space(0);
            vstd::arithmetic::power2::lemma2_to64();
            assert(split_range(two_pow_128(), two_pow_128(), true) == Seq::<Cidr>::empty());
            assert(split_range(0, e, v6) =~= seq![make_cidr(0, 0, true)]);
        }
        out.push(Cidr::V6 { addr: 0, len: 0 });
        return;
    }
    let ghost start = out@;
    loop
        invariant_except_break
            start + split_range(lo.rank(), e, v6) == out@ + split_range(s as int, e, v6),
        invariant
            lo.rank() <= s < e,
            e == hi.rank(),
            e <= pow2(width(v6)),
            w == width(v6),
            pow2(width(v6)) == if v6 { u128::MAX + 1 } else { u32::MAX + 1 },
            two_pow_128() == u128::MAX + 1,
            !(hi.carry && s == 0),
        ensures
            final(out)@ == start + split_range(lo.rank(), e, v6),
        decreases e - s,
    {
        let rem: u128 = if hi.carry { (u128::MAX - s) + 1 } else { hi.low - s };
        let mut k: u32 = 0;
        let mut size: u128 = 1;
        proof {
            assert(rem == e - s);
            vstd::arithmetic::power2::lemma2_to64();
        }
        while k < w && (s / size) % 2 == 0 && size <= rem - size
            invariant
                k <= w,
                w == width(v6),
                size == pow2(k as nat),
                1 <= size <= rem,
                rem == e - s,
                s as int % (pow2(k as nat) as int) == 0,
                block_exp(s as int, e, width(v6), k as nat) == block_exp(s as int, e, width(v6), 0),
            decreases w - k,
        {
            proof {
                lemma_pow2_unfold((k + 1) as nat);
                lemma_block_exp(s as int, e, width(v6), k as nat);
                let p = pow2(k as nat) as int;
                let q = s as int / p;
                lemma_fundamental_div_mod(s as int, p);
                lemma_fundamental_div_mod(q, 2);
                let h = q / 2;
                assert(s as int == h * (2 * p)) by (nonlinear_arith)
                    requires
                        s as int == p * q + (s as int) % p,
                        (s as int) % p == 0,
                        q == 2 * h + q % 2,
                        q % 2 == 0,
                ;
                lemma_mod_multiples_basic(h, 2 * p);
            }
            size = size * 2;
            k = k + 1;
        }
        proof {
            lemma_block_exp_start(s as int, e, width(v6));
            lemma_block(s as int, k as nat, v6);
            lemma_pow2_unfold((k + 1) as nat);
            assert(!(k < w && (s as int / pow2(k as nat) as int) % 2 == 0 && s + pow2((k + 1) as nat) <= e));
            assert(block_exp(s as int, e, width(v6), k as nat) == k);
            assert(split_range(s as int, e, v6) == seq![make_cidr(s as int, width(v6) - k, v6)] + split_range(
                s + pow2(k as nat),
                e,
                v6,
            ));
        }
        let len: u8 = (w - k) as u8;
        let c = if v6 {
            Cidr::V6 { addr: s, len }
        } else {
            Cidr::V4 { addr: s as u32, len }
        };
        let ghost before = out@;
        out.push(c);
        proof {
            assert(c == make_cidr(s as int, width(v6) - k, v6));
            assert(out@ == before.push(c));
            assert(before + split_range(s as int, e, v6) =~= out@ + split_range(s + pow2(k as nat), e, v6));
        }
        if size == rem {
            proof {
                assert(split_range(e, e, v6) == Seq::<Cidr>::empty());
                assert(out@ + split_range(e, e, v6) =~= out@);
            }
            break;
        }
        s = s + size;
    }
}

/// The intervals of the prefixes of family `v6`, in input order.
fn collect_family_intervals(input: &Vec<Cidr>, v6: bool) -> (r: Vec<(U129, U129)>)
    requires
        all_valid(input@),
    ensures
        r@ == family_intervals(input@, v6),
{
    let mut r: Vec<(U129, U129)> = Vec::new();
    let mut i: usize = 0;
    while i < input.len()
        invariant
            i <= input.len(),
            all_valid(input@),
            r@ == family_intervals(input@.take(i as int), v6),
        decreases input.len() - i,
    {
        let c = input[i];
        proof {
            assert(input@.take(i + 1).drop_last() =~= input@.take(i as int));
            assert(input@.take(i + 1).last() == c);
        }
        let is_v6 = match c {
            Cidr::V4 { .. } => false,
            Cidr::V6 { .. } => true,
        };
        if is_v6 == v6 {
            let iv = c.to_interval();
            r.push(iv);
        }
        i = i + 1;
    }
    assert(input@.take(input.len() as int) =~= input@);
    r
}

/// Appends to `out` the blocks of every interval of `m`.
fn split_merged(m: &Vec<(U129, U129)>, v6: bool, out: &mut Vec<Cidr>)
    requires
        within_family(m@, v6),
        well_formed(m@),
    ensures
        final(out)@ == old(out)@ + split_all(m@, v6),
{
    let ghost start = out@;
    let mut i: usize = 0;
    assert(split_all(m@.take(0), v6) =~= Seq::<Cidr>::empty());
    assert(start + Seq::<Cidr>::empty() =~= start);
    while i < m.len()
        invariant
            i <= m.len(),
            within_family(m@, v6),
            well_formed(m@),
            out@ == start + split_all(m@.take(i as int), v6),
        decreases m.len() - i,
    {
        let (lo, hi) = m[i];
        proof {
            assert(m@.take(i + 1).drop_last() =~= m@.take(i as int));
            assert(m@.take(i + 1).last() == (lo, hi));
            assert(0 <= m@[i as int].0.rank() < m@[i as int].1.rank());
        }
        split_interval(lo, hi, v6, out);
        proof {
            assert(out@ =~= start + split_all(m@.take(i + 1), v6));
        }
        i = i + 1;
    }
    assert(m@.take(m.len() as int) =~= m@);
}

/// Aggregates `input` into the smallest list of canonical prefixes that
/// covers the same addresses: the IPv4 blocks in ascending order, then the
/// IPv6 blocks.
pub fn aggregate(input: &Vec<Cidr>) -> (r: Vec<Cidr>)
    requires
        all_valid(input@),
    ensures
        r@ == aggregate_spec(input@),
        address_set(r@, false) == address_set(input@, false),
        address_set(r@, true) == address_set(input@, true),
        all_valid(r@),
        forall|i: int| 0 <= i < r@.len() ==> (#[trigger] r@[i]).canonical(),
        no_fusable_pair(r@),
        ascending(r@),
{
    proof {
        lemma_aggregate_covers(input@);
        lemma_aggregate_no_fusable_pair(input@);
        lemma_family_blocks(input@, false);
        lemma_family_blocks(input@, true);
        lemma_family_intervals(input@, false);
        lemma_family_intervals(input@, true);
    }
    let mut out: Vec<Cidr> = Vec::new();
    let v4 = collect_family_intervals(input, false);
    let m4 = merge_intervals_forwards_copy(v4);
    split_merged(&m4, false, &mut out);
    let v6 = collect_family_intervals(input, true);
    let m6 = merge_intervals_forwards_copy(v6);
    split_merged(&m6, true, &mut out);
    proof {
        assert(out@ =~= aggregate_spec(input@));
    }
    out
}

/// The prefix that a text such as `10.0.0.0/24` or `fd00::/32` denotes, if any.
pub uninterp spec fn parsed_cidr(s: Seq<char>) -> Option<Cidr>;

/// Relies on ipnet's `FromStr` for `IpNet`: it reads an IPv4 or IPv6 address,
/// a slash and a prefix length, and accepts a length only up to the width of
/// the family (`Ipv4Net::new`, `Ipv6Net::new`).
#[verifier::external_body]
fn parse_ip_net(s: &str) -> (r: Option<Cidr>)
    ensures
        r == parsed_cidr(s@),
        r matches Some(c) ==> c.valid(),
{
    match s.parse::<ipnet::IpNet>() {
        Ok(ipnet::IpNet::V4(n)) => Some(Cidr::V4 { addr: u32::from(n.addr()), len: n.prefix_len() }),
        Ok(ipnet::IpNet::V6(n)) => Some(Cidr::V6 { addr: u128::from(n.addr()), len: n.prefix_len() }),
        Err(_) => None,
    }
}

/// The prefixes that the texts of `ss` denote, in order, leaving out the
/// texts that denote none.
pub open spec fn parsed_all(ss: Seq<Seq<char>>) -> Seq<Cidr>
    decreases ss.len(),
{
    if ss.len() == 0 {
        Seq::empty()
    } else {
        let rest = parsed_all(ss.drop_last());
        match parsed_cidr(ss.last()) {
            Some(c) => rest.push(c),
            None => rest,
        }
    }
}

pub open spec fn texts(v: Seq<String>) -> Seq<Seq<char>> {
    v.map_values(|s: String| s@)
}

/// Reads prefixes written as `address/length`, skipping texts that are not
/// prefixes.
pub fn parse_cidrs(strings: &Vec<String>) -> (r: Vec<Cidr>)
    ensures
        r@ == parsed_all(texts(strings@)),
        all_valid(r@),
{
    let mut out: Vec<Cidr> = Vec::new();
    let mut i: usize = 0;
    while i < strings.len()
        invariant
            i <= strings.len(),
            out@ == parsed_all(texts(strings@.take(i as int))),
            all_valid(out@),
        decreases strings.len() - i,
    {
        let parsed = parse_ip_net(strings[i].as_str());
        proof {
            let t = texts(strings@.take(i + 1));
            assert(t.drop_last() =~= texts(strings@.take(i as int)));
            assert(t.last() == strings@[i as int]@);
        }
        match parsed {
            Some(c) => out.push(c),
            None => {},
        }
        i = i + 1;
    }
    assert(strings@.take(strings.len() as int) =~= strings@);
    out
}

/// `a` and `b` are the lower and upper halves of one prefix a bit shorter,
/// so that the two could be replaced by it.
pub open spec fn fusable(a: Cidr, b: Cidr) -> bool {
    &&& a.is_v6() == b.is_v6()
    &&& a.prefix_len() == b.prefix_len()
    &&& a.prefix_len() >= 1
    &&& a.address() % (2 * a.block_size() as int) == 0
    &&& b.address() == a.address() + a.block_size()
}

/// The IPv4 prefixes of `b` come before the IPv6 ones, and within a family
/// each prefix ends before the next one starts.
pub open spec fn ascending(b: Seq<Cidr>) -> bool {
    forall|i: int, j: int|
        0 <= i < j < b.len() ==> (!(#[trigger] b[i]).is_v6() && (#[trigger] b[j]).is_v6()) || (b[i].is_v6()
            == b[j].is_v6() && b[i].address() + b[i].block_size() <= b[j].address())
}

/// No two blocks of `b` could be replaced by one prefix.
pub open spec fn no_fusable_pair(b: Seq<Cidr>) -> bool {
    forall|i: int, j: int| 0 <= i < b.len() && 0 <= j < b.len() ==> !fusable(#[trigger] b[i], #[trigger] b[j])
}

proof fn lemma_even_quotient(s: int, p: int)
    requires
        p > 0,
        s % (2 * p) == 0,
    ensures
        (s / p) % 2 == 0,
{
    lemma_fundamental_div_mod(s, 2 * p);
    let q = s / (2 * p);
    assert(s == p * (2 * q)) by (nonlinear_arith)
        requires
            s == (2 * p) * q + s % (2 * p),
            s % (2 * p) == 0,
    ;
    vstd::arithmetic::div_mod::lemma_div_multiples_vanish(2 * q, p);
    assert((2 * q) % 2 == 0) by (nonlinear_arith);
}

/// The blocks of `[s, e)` lie inside it, and none two could be fused.
proof fn lemma_split_range_tight(s: int, e: int, v6: bool)
    requires
        0 <= s <= e <= pow2(width(v6)),
    ensures
        forall|i: int| 0 <= i < split_range(s, e, v6).len() ==> s <= (#[trigger] split_range(s, e, v6)[i]).address()
            && split_range(s, e, v6)[i].address() + split_range(s, e, v6)[i].block_size() <= e,
        no_fusable_pair(split_range(s, e, v6)),
        ascending(split_range(s, e, v6)),
    decreases e - s,
{
    let b = split_range(s, e, v6);
    if s < e {
        let w = width(v6);
        let k = block_exp(s, e, w, 0);
        lemma_block_exp_start(s, e, w);
        vstd::arithmetic::power2::lemma2_to64();
        lemma_block_exp(s, e, w, 0);
        lemma_block(s, k, v6);
        let c = make_cidr(s, w - k, v6);
        assert((w - c.prefix_len()) as nat == k);
        let rest = split_range(s + pow2(k), e, v6);
        lemma_split_range_tight(s + pow2(k), e, v6);
        lemma_split_range(s + pow2(k), e, v6);
        assert(b == seq![c] + rest);
        assert forall|i: int| 0 <= i < b.len() implies s <= (#[trigger] b[i]).address() && b[i].address()
            + b[i].block_size() <= e by {
            if i > 0 {
                assert(b[i] == rest[i - 1]);
            }
        }
        assert forall|i: int, j: int| 0 <= i < b.len() && 0 <= j < b.len() implies !fusable(
            #[trigger] b[i],
            #[trigger] b[j],
        ) by {
            if i > 0 && j > 0 {
                assert(b[i] == rest[i - 1] && b[j] == rest[j - 1]);
            } else if i == 0 && j > 0 {
                let d = rest[j - 1];
                assert(b[j] == d);
                if fusable(c, d) {
                    assert((w - d.prefix_len()) as nat == k);
                    assert(d.block_size() == pow2(k));
                    lemma_pow2_unfold(k + 1);
                    lemma_pow2_pos(k);
                    lemma_even_quotient(s, pow2(k) as int);
                    assert(s + pow2(k + 1) <= e);
                    assert(false);
                }
            } else if i > 0 && j == 0 {
                let d = rest[i - 1];
                assert(b[i] == d);
                lemma_pow2_pos(k);
                assert(d.block_size() >= 1) by {
                    lemma_pow2_pos((width(d.is_v6()) - d.prefix_len()) as nat);
                }
            }
        }
        assert forall|i: int, j: int| 0 <= i < j < b.len() implies (!(#[trigger] b[i]).is_v6() && (
        #[trigger] b[j]).is_v6()) || (b[i].is_v6() == b[j].is_v6() && b[i].address() + b[i].block_size() <= b[j].address()) by {
            lemma_pow2_pos(k);
            assert(b[j] == rest[j - 1]);
            if i > 0 {
                assert(b[i] == rest[i - 1]);
            }
        }
    }
}

/// The blocks of a normalized list of intervals end by the end of its last
/// interval, and none two could be fused.
proof fn lemma_split_all_tight(m: Seq<(U129, U129)>, v6: bool)
    requires
        normalized(m),
        within_family(m, v6),
    ensures
        m.len() > 0 ==> forall|i: int| 0 <= i < split_all(m, v6).len() ==> (#[trigger] split_all(m, v6)[i]).address()
            + split_all(m, v6)[i].block_size() <= m.last().1.rank(),
        no_fusable_pair(split_all(m, v6)),
        ascending(split_all(m, v6)),
    decreases m.len(),
{
    let b = split_all(m, v6);
    if m.len() > 0 {
        let d = m.drop_last();
        let l = m.last();
        crate::interval::lemma_normalized_drop_last(m);
        assert forall|i: int| 0 <= i < d.len() implies 0 <= (#[trigger] d[i]).0.rank() <= d[i].1.rank() <= pow2(
            width(v6),
        ) by {
            assert(d[i] == m[i]);
        }
        lemma_split_all_tight(d, v6);
        lemma_split_all(d, v6);
        lemma_split_range_tight(l.0.rank(), l.1.rank(), v6);
        lemma_split_range(l.0.rank(), l.1.rank(), v6);
        let bd = split_all(d, v6);
        let br = split_range(l.0.rank(), l.1.rank(), v6);
        assert(b == bd + br);
        if d.len() > 0 {
            assert(m[d.len() - 1] == d.last());
            assert(m[d.len() - 1].1.rank() < m[d.len() as int].0.rank());
        }
        assert(bd.len() > 0 ==> d.len() > 0) by {
            if d.len() == 0 {
                assert(bd =~= Seq::<Cidr>::empty());
            }
        }
        assert forall|i: int| 0 <= i < b.len() implies (#[trigger] b[i]).address() + b[i].block_size() <= m.last().1.rank() by {
            if i < bd.len() {
                assert(b[i] == bd[i]);
                assert(d.last().1.rank() <= l.1.rank());
            } else {
                assert(b[i] == br[i - bd.len()]);
            }
        }
        assert forall|i: int, j: int| 0 <= i < b.len() && 0 <= j < b.len() implies !fusable(
            #[trigger] b[i],
            #[trigger] b[j],
        ) by {
            if i < bd.len() && j < bd.len() {
                assert(b[i] == bd[i] && b[j] == bd[j]);
            } else if i >= bd.len() && j >= bd.len() {
                assert(b[i] == br[i - bd.len()] && b[j] == br[j - bd.len()]);
            } else if i < bd.len() {
                assert(b[i] == bd[i] && b[j] == br[j - bd.len()]);
            } else {
                assert(b[i] == br[i - bd.len()] && b[j] == bd[j]);
                lemma_pow2_pos((width(b[i].is_v6()) - b[i].prefix_len()) as nat);
                lemma_pow2_pos((width(b[j].is_v6()) - b[j].prefix_len()) as nat);
            }
        }
        assert forall|i: int, j: int| 0 <= i < j < b.len() implies (!(#[trigger] b[i]).is_v6() && (
        #[trigger] b[j]).is_v6()) || (b[i].is_v6() == b[j].is_v6() && b[i].address() + b[i].block_size() <= b[j].address()) by {
            if j < bd.len() {
                assert(b[i] == bd[i] && b[j] == bd[j]);
            } else if i >= bd.len() {
                assert(b[i] == br[i - bd.len()] && b[j] == br[j - bd.len()]);
            } else {
                assert(b[i] == bd[i] && b[j] == br[j - bd.len()]);
                lemma_pow2_pos((width(b[i].is_v6()) - b[i].prefix_len()) as nat);
                assert(d.len() > 0);
                assert(bd[i].address() + bd[i].block_size() <= d.last().1.rank());
                assert(l.0.rank() <= br[j - bd.len()].address());
                assert(bd[i].is_v6() == v6 && br[j - bd.len()].is_v6() == v6);
            }
        }
    }
}

/// No two prefixes of the aggregate could be replaced by one prefix, and
/// the aggregate is in ascending order: IPv4 first, then by address.
pub proof fn lemma_aggregate_no_fusable_pair(p: Seq<Cidr>)
    requires
        all_valid(p),
    ensures
        no_fusable_pair(aggregate_spec(p)),
        ascending(aggregate_spec(p)),
{
    lemma_family_blocks(p, false);
    lemma_family_blocks(p, true);
    lemma_split_all_tight(merge_of(family_intervals(p, false)), false);
    lemma_split_all_tight(merge_of(family_intervals(p, true)), true);
    let a = family_blocks(p, false);
    let b = family_blocks(p, true);
    let r = aggregate_spec(p);
    assert forall|i: int, j: int| 0 <= i < r.len() && 0 <= j < r.len() implies !fusable(
        #[trigger] r[i],
        #[trigger] r[j],
    ) by {
        if i < a.len() {
            assert(r[i] == a[i]);
        } else {
            assert(r[i] == b[i - a.len()]);
        }
        if j < a.len() {
            assert(r[j] == a[j]);
        } else {
            assert(r[j] == b[j - a.len()]);
        }
    }
    assert forall|i: int, j: int| 0 <= i < j < r.len() implies (!(#[trigger] r[i]).is_v6() && (
    #[trigger] r[j]).is_v6()) || (r[i].is_v6() == r[j].is_v6() && r[i].address() + r[i].block_size() <= r[j].address()) by {
        if j < a.len() {
            assert(r[i] == a[i] && r[j] == a[j]);
        } else if i >= a.len() {
            assert(r[i] == b[i - a.len()] && r[j] == b[j - a.len()]);
        } else {
            assert(r[i] == a[i] && r[j] == b[j - a.len()]);
        }
    }
}

/// No aligned block longer than `c` that starts where `c` starts ends by `e`.
pub open spec fn maximal_before(c: Cidr, e: int) -> bool {
    forall|j: nat|
        (width(c.is_v6()) - c.prefix_len()) < j <= width(c.is_v6()) && c.address() % (#[trigger] pow2(j) as int)
            == 0 ==> c.address() + pow2(j) > e
}

/// The addresses of `d` lie among those of `b`, in the same family.
pub open spec fn inside(d: Cidr, b: Cidr) -> bool {
    &&& d.is_v6() == b.is_v6()
    &&& b.network() <= d.network()
    &&& d.network() + d.block_size() <= b.network() + b.block_size()
}

proof fn lemma_pow2_divides(x: int, i: nat, j: nat)
    requires
        i <= j,
        x % (pow2(j) as int) == 0,
    ensures
        x % (pow2(i) as int) == 0,
{
    lemma_pow2_pos(i);
    lemma_pow2_pos(j);
    lemma_pow2_pos((j - i) as nat);
    lemma_pow2_adds(i, (j - i) as nat);
    assert(i + (j - i) as nat == j);
    lemma_fundamental_div_mod(x, pow2(j) as int);
    let q = x / (pow2(j) as int);
    let a = pow2(i) as int;
    let b = pow2((j - i) as nat) as int;
    assert(x == (b * q) * a) by (nonlinear_arith)
        requires
            x == (a * b) * q + x % (a * b),
            x % (a * b) == 0,
    ;
    lemma_mod_multiples_basic(b * q, a);
}

proof fn lemma_multiple_step(a: int, b: int, p: int)
    requires
        p > 0,
        a % p == 0,
        b % p == 0,
        a < b,
    ensures
        a + p <= b,
{
    lemma_fundamental_div_mod(a, p);
    lemma_fundamental_div_mod(b, p);
    let x = a / p;
    let y = b / p;
    assert(a == p * x && b == p * y);
    if x >= y {
        lemma_mul_inequality(y, x, p);
        assert(p * y <= p * x) by (nonlinear_arith)
            requires
                y * p <= x * p,
        ;
    }
    assert(x + 1 <= y);
    lemma_mul_inequality(x + 1, y, p);
    assert(a + p == (x + 1) * p) by (nonlinear_arith)
        requires
            a == p * x,
    ;
    assert(y * p == b) by (nonlinear_arith)
        requires
            b == p * y,
    ;
}

/// Every block of `[s, e)` is as long as it can be: no longer aligned block
/// starting where it starts ends by `e`.
proof fn lemma_split_range_maximal(s: int, e: int, v6: bool)
    requires
        0 <= s <= e <= pow2(width(v6)),
    ensures
        forall|i: int| 0 <= i < split_range(s, e, v6).len() ==> maximal_before(#[trigger] split_range(s, e, v6)[i], e),
    decreases e - s,
{
    let b = split_range(s, e, v6);
    if s < e {
        let w = width(v6);
        let k = block_exp(s, e, w, 0);
        lemma_block_exp_start(s, e, w);
        vstd::arithmetic::power2::lemma2_to64();
        lemma_block_exp(s, e, w, 0);
        lemma_block(s, k, v6);
        let c = make_cidr(s, w - k, v6);
        let rest = split_range(s + pow2(k), e, v6);
        lemma_split_range_maximal(s + pow2(k), e, v6);
        assert(b == seq![c] + rest);
        assert forall|j: nat|
            (width(c.is_v6()) - c.prefix_len()) < j <= width(c.is_v6()) && c.address() % (#[trigger] pow2(j) as int)
                == 0 implies c.address() + pow2(j) > e by {
            lemma_pow2_divides(s, k + 1, j);
            lemma_pow2_unfold(k + 1);
            lemma_pow2_pos(k);
            lemma_even_quotient(s, pow2(k) as int);
            if k + 1 < j {
                vstd::arithmetic::power2::lemma_pow2_strictly_increases(k + 1, j);
            }
        }
        assert forall|i: int| 0 <= i < b.len() implies maximal_before(#[trigger] b[i], e) by {
            if i > 0 {
                assert(b[i] == rest[i - 1]);
            }
        }
    }
}

/// Each block of a normalized list of intervals lies in one of them, as
/// long as it can be there.
pub open spec fn fits_some_interval(m: Seq<(U129, U129)>, c: Cidr) -> bool {
    exists|i: int|
        0 <= i < m.len() && (#[trigger] m[i]).0.rank() <= c.address() && c.address() + c.block_size() <= m[i].1.rank()
            && maximal_before(c, m[i].1.rank())
}

proof fn lemma_split_all_fits(m: Seq<(U129, U129)>, v6: bool)
    requires
        within_family(m, v6),
    ensures
        forall|t: int| 0 <= t < split_all(m, v6).len() ==> fits_some_interval(m, #[trigger] split_all(m, v6)[t]),
    decreases m.len(),
{
    let b = split_all(m, v6);
    if m.len() > 0 {
        let d = m.drop_last();
        let l = m.last();
        assert forall|i: int| 0 <= i < d.len() implies 0 <= (#[trigger] d[i]).0.rank() <= d[i].1.rank() <= pow2(
            width(v6),
        ) by {
            assert(d[i] == m[i]);
        }
        lemma_split_all_fits(d, v6);
        lemma_split_range_tight(l.0.rank(), l.1.rank(), v6);
        lemma_split_range_maximal(l.0.rank(), l.1.rank(), v6);
        let bd = split_all(d, v6);
        let br = split_range(l.0.rank(), l.1.rank(), v6);
        assert(b == bd + br);
        assert forall|t: int| 0 <= t < b.len() implies fits_some_interval(m, #[trigger] b[t]) by {
            if t < bd.len() {
                assert(b[t] == bd[t]);
                assert(fits_some_interval(d, bd[t]));
                let i = choose|i: int|
                    0 <= i < d.len() && (#[trigger] d[i]).0.rank() <= bd[t].address() && bd[t].address()
                        + bd[t].block_size() <= d[i].1.rank() && maximal_before(bd[t], d[i].1.rank());
                assert(m[i] == d[i]);
            } else {
                assert(b[t] == br[t - bd.len()]);
                assert(m[m.len() - 1] == l);
            }
        }
    }
}

/// The end of an interval of a normalized list is not covered.
proof fn lemma_end_uncovered(m: Seq<(U129, U129)>, i: int)
    requires
        normalized(m),
        0 <= i < m.len(),
    ensures
        !cover_set(m).contains(m[i].1.rank()),
{
    let x = m[i].1.rank();
    if covers(m, x) {
        let k = choose|k: int| 0 <= k < m.len() && #[trigger] in_interval(m[k], x);
        if k > i {
            crate::interval::lemma_normalized_ordered(m, i, k);
        } else if k < i {
            crate::interval::lemma_normalized_ordered(m, k, i);
        }
    }
}

/// A prefix whose addresses all lie among those of a normalized list of
/// intervals lies inside one block of its split.
proof fn lemma_inside_some_block(m: Seq<(U129, U129)>, v6: bool, d: Cidr)
    requires
        normalized(m),
        within_family(m, v6),
        d.valid(),
        d.is_v6() == v6,
        forall|x: int| d.contains(v6, x) ==> #[trigger] cover_set(m).contains(x),
    ensures
        exists|t: int| 0 <= t < split_all(m, v6).len() && inside(d, #[trigger] split_all(m, v6)[t]),
{
    let b = split_all(m, v6);
    lemma_split_all(m, v6);
    lemma_split_all_fits(m, v6);
    lemma_prefix_interval(d);
    let n = d.network();
    assert(d.contains(v6, n));
    assert(cover_set(m).contains(n));
    assert(address_set(b, v6).contains(n));
    let t = choose|t: int| 0 <= t < b.len() && #[trigger] b[t].contains(v6, n);
    let c = b[t];
    assert(fits_some_interval(m, c));
    let i = choose|i: int|
        0 <= i < m.len() && (#[trigger] m[i]).0.rank() <= c.address() && c.address() + c.block_size() <= m[i].1.rank()
            && maximal_before(c, m[i].1.rank());
    let hi = m[i].1.rank();
    assert(c.valid() && c.canonical() && c.is_v6() == v6);
    assert(c.network() == c.address());
    if n + d.block_size() > hi {
        lemma_end_uncovered(m, i);
        assert(d.contains(v6, hi));
        assert(false);
    }
    let w = width(v6);
    let j = (w - d.prefix_len()) as nat;
    let k = (w - c.prefix_len()) as nat;
    let s = c.address();
    lemma_pow2_pos(j);
    lemma_pow2_pos(k);
    if j <= k {
        lemma_pow2_divides(s, j, k);
        vstd::arithmetic::div_mod::lemma_mod_self_0(pow2(k) as int);
        lemma_pow2_divides(pow2(k) as int, j, k);
        assert((s + pow2(k)) % (pow2(j) as int) == 0) by {
            lemma_fundamental_div_mod(s, pow2(j) as int);
            lemma_fundamental_div_mod(pow2(k) as int, pow2(j) as int);
            let p = pow2(j) as int;
            let a = s / p;
            let bb = (pow2(k) as int) / p;
            assert(s + pow2(k) == (a + bb) * p) by (nonlinear_arith)
                requires
                    s == p * a + s % p,
                    s % p == 0,
                    pow2(k) as int == p * bb + (pow2(k) as int) % p,
                    (pow2(k) as int) % p == 0,
            ;
            lemma_mod_multiples_basic(a + bb, p);
        }
        lemma_multiple_step(n, s + pow2(k), pow2(j) as int);
        assert(inside(d, c));
    } else {
        lemma_pow2_divides(n, k, j);
        if s < n {
            lemma_multiple_step(s, n, pow2(k) as int);
        }
        assert(n == s);
        assert(c.address() % (pow2(j) as int) == 0);
        assert(c.address() + pow2(j) > hi);
        assert(false);
    }
}

/// Some prefix of `q` lies inside `c`.
pub open spec fn holds_inside(q: Seq<Cidr>, c: Cidr) -> bool {
    exists|j: int| 0 <= j < q.len() && inside(#[trigger] q[j], c)
}

/// Two blocks of an aggregate that hold the same address are the same block.
proof fn lemma_blocks_disjoint(r: Seq<Cidr>, a: int, b: int, v6: bool, x: int)
    requires
        ascending(r),
        forall|i: int| 0 <= i < r.len() ==> (#[trigger] r[i]).canonical(),
        0 <= a < r.len(),
        0 <= b < r.len(),
        r[a].contains(v6, x),
        r[b].contains(v6, x),
    ensures
        a == b,
{
    if a < b {
        assert(r[a].canonical() && r[b].canonical());
    } else if b < a {
        assert(r[a].canonical() && r[b].canonical());
    }
}

/// No list of valid prefixes that covers the same addresses as the input is
/// shorter than its aggregate.
pub proof fn lemma_aggregate_minimal(p: Seq<Cidr>, q: Seq<Cidr>)
    requires
        all_valid(p),
        all_valid(q),
        address_set(q, false) == address_set(p, false),
        address_set(q, true) == address_set(p, true),
    ensures
        aggregate_spec(p).len() <= q.len(),
{
    let r = aggregate_spec(p);
    lemma_aggregate_covers(p);
    lemma_aggregate_no_fusable_pair(p);
    lemma_family_blocks(p, false);
    lemma_family_blocks(p, true);
    let a4 = family_blocks(p, false);
    let a6 = family_blocks(p, true);
    let m4 = merge_of(family_intervals(p, false));
    let m6 = merge_of(family_intervals(p, true));
    lemma_split_all(m4, false);
    lemma_split_all(m6, true);
    assert forall|i: int| 0 <= i < r.len() implies #[trigger] holds_inside(q, r[i]) by {
        let c = r[i];
        let f = c.is_v6();
        let x = c.address();
        lemma_prefix_interval(c);
        lemma_pow2_pos((width(f) - c.prefix_len()) as nat);
        assert(c.contains(f, x));
        assert(address_set(r, f).contains(x));
        assert(address_set(q, f).contains(x));
        let j = choose|j: int| 0 <= j < q.len() && #[trigger] q[j].contains(f, x);
        let d = q[j];
        assert(d.valid());
        let m = if f { m6 } else { m4 };
        let fb = if f { a6 } else { a4 };
        assert(fb == split_all(m, f));
        assert forall|y: int| d.contains(f, y) implies #[trigger] cover_set(m).contains(y) by {
            assert(address_set(q, f).contains(y));
            assert(address_set(p, f).contains(y));
            assert(address_set(fb, f).contains(y));
        }
        lemma_inside_some_block(m, f, d);
        let t = choose|t: int| 0 <= t < fb.len() && inside(d, #[trigger] fb[t]);
        let t2 = if f { a4.len() + t } else { t };
        assert(r[t2] == fb[t]);
        lemma_prefix_interval(d);
        assert(r[t2].contains(f, x));
        lemma_blocks_disjoint(r, i, t2, f, x);
        assert(inside(q[j], r[i]));
    }
    let g = |i: int| choose|j: int| 0 <= j < q.len() && inside(#[trigger] q[j], r[i]);
    let dom = vstd::set_lib::set_int_range(0, r.len() as int);
    let img = vstd::set_lib::set_int_range(0, q.len() as int);
    vstd::set_lib::lemma_int_range(0, r.len() as int);
    vstd::set_lib::lemma_int_range(0, q.len() as int);
    assert forall|i1: int, i2: int| dom.contains(i1) && dom.contains(i2) && #[trigger] g(i1) == #[trigger] g(i2) implies i1
        == i2 by {
        assert(holds_inside(q, r[i1]) && holds_inside(q, r[i2]));
        let j = g(i1);
        let d = q[j];
        lemma_prefix_interval(d);
        lemma_pow2_pos((width(d.is_v6()) - d.prefix_len()) as nat);
        assert(d.contains(d.is_v6(), d.network()));
        assert(r[i1].contains(d.is_v6(), d.network()));
        assert(r[i2].contains(d.is_v6(), d.network()));
        lemma_blocks_disjoint(r, i1, i2, d.is_v6(), d.network());
    }
    assert(vstd::relations::injective_on(g, dom));
    vstd::set_lib::lemma_map_size(dom, dom.map(g), g);
    assert forall|y: int| dom.map(g).contains(y) implies img.contains(y) by {
        let i = choose|i: int| dom.contains(i) && g(i) == y;
        assert(holds_inside(q, r[i]));
    }
    assert(dom.map(g).subset_of(img));
    vstd::set_lib::lemma_len_subset(dom.map(g), img);
}

} // verus!
