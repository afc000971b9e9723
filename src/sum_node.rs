use vstd::prelude::*;
use vstd::arithmetic::div_mod::{lemma_add_mod_noop, lemma_mod_add_multiples_vanish, lemma_small_mod, lemma_mul_mod_noop_left};
use crate::segment_tree::SegmentTreeState;

verus! {

/// Range-add / range-sum node state. Sums wrap around on `i64` overflow, so values
/// are sums taken modulo `2^64`.
#[derive(Debug, Clone)]
pub struct SumNode {
    sum: i64,
    delta: i64,
    left: usize,
    right: usize,
    width: i64,
}

pub open spec fn modulus() -> int {
    0x1_0000_0000_0000_0000
}

/// The `i64` congruent to `x` modulo `2^64`, as wrapping arithmetic gives it.
pub open spec fn crop(x: int) -> i64 {
    if x % modulus() > i64::MAX as int {
        ((x % modulus()) - modulus()) as i64
    } else {
        (x % modulus()) as i64
    }
}

/// Every value of `s` after adding `d` with wrapping.
pub open spec fn shift_i64(s: Seq<i64>, d: i64) -> Seq<i64> {
    s.map_values(|x: i64| crop(x + d))
}

/// The plain sum of a run of values.
pub open spec fn sum_int(s: Seq<i64>) -> int
    decreases s.len(),
{
    if s.len() == 0 {
        0
    } else {
        sum_int(s.drop_last()) + s.last()
    }
}

proof fn lemma_crop_mod(x: int)
    ensures
        (crop(x) as int) % modulus() == x % modulus(),
        i64::MIN <= crop(x) <= i64::MAX,
{
    let m = x % modulus();
    assert(0 <= m < modulus());
    if m > i64::MAX as int {
        lemma_mod_add_multiples_vanish(m - modulus(), modulus());
        lemma_small_mod(m as nat, modulus() as nat);
    } else {
        lemma_small_mod(m as nat, modulus() as nat);
    }
}

proof fn lemma_crop_same(x: int, y: int)
    requires
        x % modulus() == y % modulus(),
    ensures
        crop(x) == crop(y),
{
}

proof fn lemma_crop_id(y: i64)
    ensures
        crop(y as int) == y,
{
    if y >= 0 {
        lemma_small_mod(y as nat, modulus() as nat);
    } else {
        lemma_mod_add_multiples_vanish(y as int, modulus());
        lemma_small_mod((y + modulus()) as nat, modulus() as nat);
    }
}

proof fn lemma_wrapping_add(a: i64, b: i64)
    ensures
        vstd::wrapping::i64_specs::wrapping_add(a, b) == crop(a + b),
{
    let s = a as int + b as int;
    if s > i64::MAX as int {
        lemma_mod_add_multiples_vanish(s - modulus(), modulus());
        lemma_crop_id((s - modulus()) as i64);
    } else if s < i64::MIN as int {
        lemma_mod_add_multiples_vanish(s, modulus());
        lemma_crop_id((s + modulus()) as i64);
    } else {
        lemma_crop_id(s as i64);
    }
}

/// Congruence is kept by addition.
proof fn lemma_cong_add(a1: int, a2: int, b1: int, b2: int)
    requires
        a1 % modulus() == a2 % modulus(),
        b1 % modulus() == b2 % modulus(),
    ensures
        (a1 + b1) % modulus() == (a2 + b2) % modulus(),
{
    lemma_add_mod_noop(a1, b1, modulus());
    lemma_add_mod_noop(a2, b2, modulus());
}

/// Congruence is kept by multiplication with the same factor.
proof fn lemma_cong_mul(a1: int, a2: int, b: int)
    requires
        a1 % modulus() == a2 % modulus(),
    ensures
        (a1 * b) % modulus() == (a2 * b) % modulus(),
{
    lemma_mul_mod_noop_left(a1, b, modulus());
    lemma_mul_mod_noop_left(a2, b, modulus());
}

proof fn lemma_sum_concat(a: Seq<i64>, b: Seq<i64>)
    ensures
        sum_int(a + b) == sum_int(a) + sum_int(b),
    decreases b.len(),
{
    if b.len() > 0 {
        assert((a + b).drop_last() =~= a + b.drop_last());
        lemma_sum_concat(a, b.drop_last());
    } else {
        assert(a + b =~= a);
    }
}

/// Adding `d` to every value adds `len * d` to the sum, modulo `2^64`.
proof fn lemma_sum_shifted(s: Seq<i64>, d: i64)
    ensures
        sum_int(shift_i64(s, d)) % modulus() == (sum_int(s) + s.len() * d) % modulus(),
    decreases s.len(),
{
    let t = shift_i64(s, d);
    if s.len() > 0 {
        lemma_sum_shifted(s.drop_last(), d);
        assert(t.drop_last() =~= shift_i64(s.drop_last(), d));
        lemma_crop_mod(s.last() + d);
        lemma_cong_add(
            sum_int(t.drop_last()),
            sum_int(s.drop_last()) + (s.len() - 1) * d,
            t.last() as int,
            s.last() + d,
        );
        assert(sum_int(s.drop_last()) + (s.len() - 1) * d + (s.last() + d) == sum_int(s) + s.len() * d) by (nonlinear_arith)
            requires
                sum_int(s) == sum_int(s.drop_last()) + s.last(),
        ;
    }
}

impl SumNode {
    /// `sum` plus the pending additions over the covered range, modulo `2^64`.
    spec fn total(&self, len: nat) -> int {
        self.sum + len * self.delta
    }
}

impl SegmentTreeState for SumNode {
    type LeafT = i64;

    type DeltaT = i64;

    open spec fn fold_spec(s: Seq<i64>) -> i64 {
        crop(sum_int(s))
    }

    open spec fn merge_spec(a: i64, b: i64) -> i64 {
        crop(a + b)
    }

    open spec fn add_spec(x: i64, d: i64) -> i64 {
        crop(x + d)
    }

    closed spec fn holds(&self, lo: nat, s: Seq<i64>) -> bool {
        &&& s.len() >= 1
        &&& self.left == lo
        &&& self.right + 1 == lo + s.len()
        &&& self.width == crop(s.len() as int)
        &&& crop(self.total(s.len())) == crop(sum_int(s))
    }

    closed spec fn pending(&self) -> i64 {
        self.delta
    }

    closed spec fn clean(&self) -> bool {
        self.delta == 0
    }

    proof fn lemma_fold_concat(a: Seq<i64>, b: Seq<i64>) {
        lemma_sum_concat(a, b);
        lemma_crop_mod(sum_int(a));
        lemma_crop_mod(sum_int(b));
        lemma_cong_add(crop(sum_int(a)) as int, sum_int(a), crop(sum_int(b)) as int, sum_int(b));
    }

    proof fn lemma_clean_pending(&self) {
        assert forall|x: i64| #[trigger] Self::add_spec(x, self.pending()) == x by {
            lemma_crop_id(x);
        }
    }

    fn merge(a: i64, b: i64) -> i64 {
        proof {
            lemma_wrapping_add(a, b);
        }
        a.wrapping_add(b)
    }

    fn empty_value() -> i64 {
        proof {
            lemma_crop_id(0);
        }
        0
    }

    fn new() -> Self {
        SumNode { sum: 0, delta: 0, left: 0, right: 0, width: 1 }
    }

    fn new_with_leaf(leaf_value: i64, leaf_pos: usize) -> Self {
        let r = SumNode { sum: leaf_value, delta: 0, left: leaf_pos, right: leaf_pos, width: 1 };
        proof {
            lemma_crop_id(1);
            assert(seq![leaf_value].drop_last() =~= Seq::<i64>::empty());
            assert(sum_int(Seq::<i64>::empty()) == 0);
            assert(sum_int(seq![leaf_value]) == sum_int(Seq::<i64>::empty()) + leaf_value);
            assert(r.total(1) == leaf_value);
        }
        r
    }

    fn new_with_children(left_child: &Self, right_child: &Self) -> Self {
        let r = SumNode {
            sum: left_child.sum.wrapping_add(right_child.sum),
            delta: 0,
            left: left_child.left,
            right: right_child.right,
            width: left_child.width.wrapping_add(right_child.width),
        };
        proof {
            lemma_wrapping_add(left_child.sum, right_child.sum);
            lemma_wrapping_add(left_child.width, right_child.width);
            assert forall|lo: nat, ls: Seq<i64>, rs: Seq<i64>|
                left_child.holds(lo, ls) && left_child.clean() && right_child.holds(lo + ls.len(), rs)
                    && right_child.clean() implies #[trigger] r.holds(lo, ls + rs) by {
                let n = (ls + rs).len();
                assert(left_child.total(ls.len()) == left_child.sum);
                assert(right_child.total(rs.len()) == right_child.sum);
                lemma_crop_id(left_child.sum);
                lemma_crop_id(right_child.sum);
                lemma_crop_mod(sum_int(ls));
                lemma_crop_mod(sum_int(rs));
                lemma_sum_concat(ls, rs);
                lemma_cong_add(left_child.sum as int, sum_int(ls), right_child.sum as int, sum_int(rs));
                lemma_crop_mod(left_child.sum + right_child.sum);
                assert(r.total(n) == r.sum);
                lemma_crop_id(r.sum);
                lemma_crop_same(r.sum as int, sum_int(ls + rs));
                lemma_crop_mod(ls.len() as int);
                lemma_crop_mod(rs.len() as int);
                lemma_cong_add(left_child.width as int, ls.len() as int, right_child.width as int, rs.len() as int);
                lemma_crop_same(left_child.width + right_child.width, n as int);
            }
        }
        r
    }

    fn get_delta(&self) -> i64 {
        self.delta
    }

    fn update_delta(&mut self, delta: &i64) {
        let ghost old_self = *self;
        let ghost dd: i64 = *delta;
        self.delta = self.delta.wrapping_add(*delta);
        proof {
            lemma_wrapping_add(old_self.delta, *delta);
            lemma_crop_mod(old_self.delta + dd);
            assert forall|lo: nat, s: Seq<i64>| #[trigger] old_self.holds(lo, s) implies self.holds(lo, s.map_values(|x: i64| Self::add_spec(x, dd))) by {
                assert(s.map_values(|x: i64| Self::add_spec(x, dd)) =~= shift_i64(s, dd));
                let n = s.len();
                let t = shift_i64(s, *delta);
                lemma_sum_shifted(s, *delta);
                lemma_cong_mul(self.delta as int, old_self.delta + dd, n as int);
                assert(self.delta * n == n * self.delta) by (nonlinear_arith);
                assert((old_self.delta + dd) * n == n * old_self.delta + n * dd) by (nonlinear_arith);
                lemma_cong_add(old_self.sum as int, old_self.sum as int, n * self.delta, n * old_self.delta + n * dd);
                lemma_crop_mod(old_self.total(n));
                lemma_crop_mod(sum_int(s));
                lemma_cong_add(old_self.total(n), sum_int(s), n * dd, n * dd);
                lemma_crop_same(self.total(n), sum_int(t));
            }
            assert forall|x: i64| #[trigger] Self::add_spec(x, self.pending()) == Self::add_spec(
                Self::add_spec(x, old_self.pending()),
                *delta,
            ) by {
                lemma_crop_mod(x + old_self.delta);
                lemma_cong_add(x as int, x as int, self.delta as int, old_self.delta + dd);
                lemma_cong_add(crop(x + old_self.delta) as int, x + old_self.delta, dd as int, dd as int);
                lemma_crop_same(x + self.delta, crop(x + old_self.delta) + dd);
            }
        }
    }

    fn get_value(&self) -> i64 {
        proof {
            assert forall|lo: nat, s: Seq<i64>| #[trigger] self.holds(lo, s) && self.clean() implies self.sum == Self::fold_spec(s) by {
                assert(self.total(s.len()) == self.sum);
                lemma_crop_id(self.sum);
            }
        }
        self.sum
    }

    fn push(&mut self, left_child: &mut Self, right_child: &mut Self) {
        let ghost s0 = *self;
        let ghost l0 = *left_child;
        let ghost r0 = *right_child;
        let add = self.width.wrapping_mul(self.delta);
        self.sum = self.sum.wrapping_add(add);
        left_child.delta = left_child.delta.wrapping_add(self.delta);
        right_child.delta = right_child.delta.wrapping_add(self.delta);
        self.delta = 0;
        proof {
            lemma_wrapping_add(s0.sum, add);
            lemma_wrapping_add(l0.delta, s0.delta);
            lemma_wrapping_add(r0.delta, s0.delta);
            assert(add == crop(s0.width * s0.delta));
            assert forall|lo: nat, s: Seq<i64>| s0.holds(lo, s) implies #[trigger] self.holds(lo, s) by {
                let n = s.len();
                lemma_crop_mod(n as int);
                lemma_cong_mul(s0.width as int, n as int, s0.delta as int);
                lemma_crop_mod(s0.width * s0.delta);
                lemma_cong_add(s0.sum as int, s0.sum as int, add as int, n * s0.delta);
                assert(n * s0.delta == (n as int) * (s0.delta as int));
                lemma_crop_mod(s0.sum + add);
                assert(self.total(n) == self.sum);
                lemma_crop_id(self.sum);
                lemma_crop_same(self.sum as int, s0.total(n));
            }
            assert forall|lo: nat, s: Seq<i64>| #[trigger] l0.holds(lo, s) implies left_child.holds(lo, s.map_values(|x: i64| Self::add_spec(x, s0.pending()))) by {
                assert(s.map_values(|x: i64| Self::add_spec(x, s0.pending())) =~= shift_i64(s, s0.delta));
                Self::lemma_child_shift(l0, *left_child, s0.delta, lo, s);
            }
            assert forall|lo: nat, s: Seq<i64>| #[trigger] r0.holds(lo, s) implies right_child.holds(lo, s.map_values(|x: i64| Self::add_spec(x, s0.pending()))) by {
                assert(s.map_values(|x: i64| Self::add_spec(x, s0.pending())) =~= shift_i64(s, s0.delta));
                Self::lemma_child_shift(r0, *right_child, s0.delta, lo, s);
            }
            assert forall|x: i64| #[trigger] Self::add_spec(x, left_child.pending()) == Self::add_spec(
                Self::add_spec(x, l0.pending()),
                s0.pending(),
            ) by {
                Self::lemma_compose(x, l0.delta, s0.delta);
            }
            assert forall|x: i64| #[trigger] Self::add_spec(x, right_child.pending()) == Self::add_spec(
                Self::add_spec(x, r0.pending()),
                s0.pending(),
            ) by {
                Self::lemma_compose(x, r0.delta, s0.delta);
            }
        }
    }

    fn push_leaf(&mut self) {
        let ghost s0 = *self;
        self.sum = self.sum.wrapping_add(self.delta);
        self.delta = 0;
        proof {
            lemma_wrapping_add(s0.sum, s0.delta);
            assert forall|lo: nat, s: Seq<i64>| s0.holds(lo, s) && s.len() == 1 implies #[trigger] self.holds(lo, s) by {
                assert(s0.total(1) == s0.sum + s0.delta);
                assert(self.total(1) == self.sum);
                lemma_crop_id(self.sum);
                lemma_crop_mod(s0.sum + s0.delta);
                lemma_crop_same(self.sum as int, s0.sum + s0.delta);
            }
        }
    }

    fn compute(&mut self, left_child: &Self, right_child: &Self) {
        let ghost s0 = *self;
        self.sum = left_child.sum.wrapping_add(right_child.sum);
        proof {
            lemma_wrapping_add(left_child.sum, right_child.sum);
            assert forall|lo: nat, s: Seq<i64>, ls: Seq<i64>, rs: Seq<i64>|
                #![trigger s0.holds(lo, s), self.holds(lo, ls + rs)]
                s0.holds(lo, s) && s0.clean() && s.len() == ls.len() + rs.len() && left_child.holds(lo, ls)
                    && left_child.clean() && right_child.holds(lo + ls.len(), rs) && right_child.clean()
                    implies self.holds(lo, ls + rs) && self.clean() by {
                let n = (ls + rs).len();
                assert(left_child.total(ls.len()) == left_child.sum);
                assert(right_child.total(rs.len()) == right_child.sum);
                lemma_crop_id(left_child.sum);
                lemma_crop_id(right_child.sum);
                lemma_crop_mod(sum_int(ls));
                lemma_crop_mod(sum_int(rs));
                lemma_sum_concat(ls, rs);
                lemma_cong_add(left_child.sum as int, sum_int(ls), right_child.sum as int, sum_int(rs));
                lemma_crop_mod(left_child.sum + right_child.sum);
                assert(self.total(n) == self.sum);
                lemma_crop_id(self.sum);
                lemma_crop_same(self.sum as int, sum_int(ls + rs));
            }
        }
    }
}

impl SumNode {
    proof fn lemma_compose(x: i64, p: i64, d: i64)
        ensures
            crop(x + crop(p + d)) == crop(crop(x + p) + d),
    {
        lemma_crop_mod(p + d);
        lemma_crop_mod(x + p);
        lemma_cong_add(x as int, x as int, crop(p + d) as int, p + d);
        lemma_cong_add(crop(x + p) as int, x + p, d as int, d as int);
        lemma_crop_same(x + crop(p + d), crop(x + p) + d);
    }

    proof fn lemma_child_shift(c0: SumNode, c1: SumNode, d: i64, lo: nat, s: Seq<i64>)
        requires
            c0.holds(lo, s),
            c1.sum == c0.sum,
            c1.left == c0.left,
            c1.right == c0.right,
            c1.width == c0.width,
            c1.delta == crop(c0.delta + d),
        ensures
            c1.holds(lo, shift_i64(s, d)),
    {
        let n = s.len();
        let t = shift_i64(s, d);
        lemma_sum_shifted(s, d);
        lemma_crop_mod(c0.delta + d);
        lemma_cong_mul(c1.delta as int, c0.delta + d, n as int);
        assert(c1.delta * n == n * c1.delta) by (nonlinear_arith);
        assert((c0.delta + d) * n == n * c0.delta + n * d) by (nonlinear_arith);
        lemma_cong_add(c0.sum as int, c0.sum as int, n * c1.delta, n * c0.delta + n * d);
        lemma_crop_mod(c0.total(n));
        lemma_crop_mod(sum_int(s));
        lemma_cong_add(c0.total(n), sum_int(s), n * d, n * d);
        lemma_crop_same(c1.total(n), sum_int(t));
    }
}

} // verus!
