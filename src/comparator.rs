use vstd::prelude::*;

verus! {

/// Number of byte limbs in which the difference of the compared values is exposed.
pub const DIFF_LIMBS: usize = 4;

/// Every compared value must be below this bound (`256 ^ DIFF_LIMBS`).
pub const COMPARE_BOUND: u64 = 0x1_0000_0000;

/// `256 ^ k`.
pub open spec fn pow256(k: nat) -> nat
    decreases k,
{
    if k == 0 {
        1
    } else {
        256 * pow256((k - 1) as nat)
    }
}

/// The value of little-endian byte limbs.
pub open spec fn limbs_value(s: Seq<u8>) -> nat
    decreases s.len(),
{
    if s.len() == 0 {
        0
    } else {
        limbs_value(s.drop_last()) + pow256((s.len() - 1) as nat) * (s.last() as nat)
    }
}

/// `k` byte limbs hold a value below `256 ^ k`.
pub proof fn lemma_limbs_value_bound(s: Seq<u8>)
    ensures
        limbs_value(s) < pow256(s.len()),
    decreases s.len(),
{
    if s.len() > 0 {
        let t = s.drop_last();
        lemma_limbs_value_bound(t);
        let p = pow256(t.len());
        let v = limbs_value(t);
        let l = s.last() as nat;
        assert(v + p * l < 256 * p) by (nonlinear_arith)
            requires
                v < p,
                l < 256,
        ;
    }
}

/// The three outcomes of an order relation.
#[derive(PartialEq, Eq, Structural, Clone, Copy, Debug)]
pub enum Order {
    Less,
    Equal,
    Greater,
}

/// Witness of the relation between two bounded values `a` and `b`: the flags
/// `lt` and `eq`, and the limbs of `a - b + lt * COMPARE_BOUND`.
#[derive(Clone, Debug)]
pub struct Comparison {
    pub lt: bool,
    pub eq: bool,
    pub diff: Vec<u8>,
}

impl Comparison {
    /// The relation that the witness claims.
    pub open spec fn order_spec(&self) -> Order {
        if self.lt {
            Order::Less
        } else if self.eq {
            Order::Equal
        } else {
            Order::Greater
        }
    }

    /// The constraints of the comparator on `a` and `b`.
    pub open spec fn holds_spec(&self, a: int, b: int) -> bool {
        &&& self.diff@.len() == DIFF_LIMBS
        &&& limbs_value(self.diff@) == a - b + (if self.lt { COMPARE_BOUND as int } else { 0 })
        &&& self.eq == (a == b)
    }

    /// The relation as a tagged result.
    pub fn order(&self) -> (r: Order)
        ensures
            r == self.order_spec(),
    {
        if self.lt {
            Order::Less
        } else if self.eq {
            Order::Equal
        } else {
            Order::Greater
        }
    }

    /// Evaluates the comparator's constraints on `a` and `b`.
    pub fn holds(&self, a: u64, b: u64) -> (r: bool)
        requires
            a < COMPARE_BOUND,
            b < COMPARE_BOUND,
        ensures
            r == self.holds_spec(a as int, b as int),
    {
        if self.diff.len() != DIFF_LIMBS {
            return false;
        }
        let mut acc: u64 = 0;
        let mut p: u64 = 1;
        let mut k: usize = 0;
        while k < DIFF_LIMBS
            invariant
                self.diff@.len() == DIFF_LIMBS,
                k <= DIFF_LIMBS,
                p == pow256(k as nat),
                acc == limbs_value(self.diff@.take(k as int)),
                acc < p,
            decreases DIFF_LIMBS - k,
        {
            assert(self.diff@.take(k + 1).drop_last() =~= self.diff@.take(k as int));
            reveal_with_fuel(pow256, 5);
            assert(p <= 0x100_0000) by {
                assert(k <= 3);
            }
            let limb = self.diff[k];
            assert(acc + p * limb < p * 256) by (nonlinear_arith)
                requires
                    acc < p,
                    limb < 256,
            ;
            acc = acc + p * (limb as u64);
            p = p * 256;
            k = k + 1;
        }
        assert(self.diff@.take(DIFF_LIMBS as int) =~= self.diff@);
        let want: u64 = if self.lt {
            a + COMPARE_BOUND - b
        } else if a >= b {
            a - b
        } else {
            return false;
        };
        acc == want && self.eq == (a == b)
    }
}

/// The comparator's constraints on bounded values pin both flags: `lt` holds
/// exactly when `a < b`, and `eq` exactly when `a == b`.
pub proof fn lemma_comparison_sound(c: Comparison, a: int, b: int)
    requires
        0 <= a < COMPARE_BOUND,
        0 <= b < COMPARE_BOUND,
        c.holds_spec(a, b),
    ensures
        c.lt == (a < b),
        c.eq == (a == b),
        c.order_spec() == (if a < b {
            Order::Less
        } else if a == b {
            Order::Equal
        } else {
            Order::Greater
        }),
{
    lemma_limbs_value_bound(c.diff@);
    reveal_with_fuel(pow256, 5);
}

/// Builds the comparator witness for `a` and `b`.
pub fn compare(a: u64, b: u64) -> (r: Comparison)
    requires
        a < COMPARE_BOUND,
        b < COMPARE_BOUND,
    ensures
        r.lt == (a < b),
        r.eq == (a == b),
        r.holds_spec(a as int, b as int),
        r.order_spec() == (if a < b {
            Order::Less
        } else if a == b {
            Order::Equal
        } else {
            Order::Greater
        }),
{
    let lt = a < b;
    let d: u64 = if lt {
        a + COMPARE_BOUND - b
    } else {
        a - b
    };
    let mut diff: Vec<u8> = Vec::new();
    let mut x: u64 = d;
    let mut k: usize = 0;
    assert(limbs_value(diff@) == 0 && pow256(0) == 1) by {
        reveal_with_fuel(pow256, 1);
        reveal_with_fuel(limbs_value, 1);
    }
    while k < DIFF_LIMBS
        invariant
            k <= DIFF_LIMBS,
            diff@.len() == k,
            d == limbs_value(diff@) + pow256(k as nat) * x,
            d < COMPARE_BOUND,
        decreases DIFF_LIMBS - k,
    {
        let limb: u64 = x % 256;
        let rest: u64 = x / 256;
        let ghost old_diff = diff@;
        diff.push(limb as u8);
        assert(diff@.drop_last() =~= old_diff);
        let ghost pk = pow256(k as nat);
        assert(pow256((k + 1) as nat) == 256 * pk);
        assert(pk * x == pk * limb + (256 * pk) * rest) by (nonlinear_arith)
            requires
                x == limb + 256 * rest,
        ;
        x = rest;
        k = k + 1;
    }
    assert(x == 0) by {
        reveal_with_fuel(pow256, 5);
        assert(pow256(4) * x <= d) by (nonlinear_arith)
            requires
                d == limbs_value(diff@) + pow256(4) * x,
                limbs_value(diff@) >= 0,
        ;
        assert(pow256(4) == COMPARE_BOUND);
        assert(x == 0) by (nonlinear_arith)
            requires
                COMPARE_BOUND * x <= d,
                d < COMPARE_BOUND,
        ;
    }
    Comparison { lt, eq: a == b, diff }
}

} // verus!
