//! Why an honest shuffle satisfies the equation that links its proof to the
//! ciphertexts.

use vstd::prelude::*;

use crate::arith::{lemma_red_add, lemma_red_mul, lemma_red_sub, red};
use crate::elgamal::{ct_add, ct_encrypt, CtView};
use crate::proofs::shuffle::{ct_combination, re_encryption_holds};
use crate::random::is_permutation;

verus! {

/// The sum of a list of integers.
pub open spec fn int_sum(q: Seq<int>) -> int
    decreases q.len(),
{
    if q.len() == 0 {
        0
    } else {
        int_sum(q.drop_last()) + q.last()
    }
}

/// The products of two lists, position by position.
pub open spec fn products(a: Seq<int>, b: Seq<int>) -> Seq<int> {
    Seq::new(a.len(), |i: int| a[i] * b[i])
}

/// The list `q` read in the order of `perm`.
pub open spec fn permuted(q: Seq<int>, perm: Seq<usize>) -> Seq<int> {
    Seq::new(perm.len(), |k: int| q[perm[k] as int])
}

/// The list `q` with zero at the positions outside of `s`.
spec fn masked(q: Seq<int>, s: Set<int>) -> Seq<int> {
    Seq::new(
        q.len(),
        |i: int|
            if s.contains(i) {
                q[i]
            } else {
                0
            },
    )
}

proof fn lemma_masked_insert(q: Seq<int>, s: Set<int>, p: int)
    requires
        0 <= p < q.len(),
        !s.contains(p),
    ensures
        int_sum(masked(q, s.insert(p))) == int_sum(masked(q, s)) + q[p],
    decreases q.len(),
{
    let a = masked(q, s.insert(p));
    let b = masked(q, s);
    let shorter = q.drop_last();
    assert(a.drop_last() =~= masked(shorter, s.insert(p)));
    assert(b.drop_last() =~= masked(shorter, s));
    if p == q.len() - 1 {
        assert(masked(shorter, s.insert(p)) =~= masked(shorter, s));
    } else {
        lemma_masked_insert(shorter, s, p);
    }
}

/// The set of the first `k` numbers of `perm`.
spec fn prefix_set(perm: Seq<usize>, k: int) -> Set<int>
    decreases k,
{
    if k <= 0 {
        Set::empty()
    } else {
        prefix_set(perm, k - 1).insert(perm[k - 1] as int)
    }
}

proof fn lemma_prefix(q: Seq<int>, perm: Seq<usize>, k: int)
    requires
        is_permutation(perm, q.len() as int),
        0 <= k <= perm.len(),
    ensures
        prefix_set(perm, k).finite(),
        prefix_set(perm, k).len() == k,
        forall|x: int|
            prefix_set(perm, k).contains(x) ==> exists|j: int| 0 <= j < k && perm[j] as int == x,
        int_sum(permuted(q, perm.take(k))) == int_sum(masked(q, prefix_set(perm, k))),
    decreases k,
{
    if k == 0 {
        assert(permuted(q, perm.take(0)) =~= Seq::<int>::empty());
        lemma_masked_empty(q);
    } else {
        lemma_prefix(q, perm, k - 1);
        let s = prefix_set(perm, k - 1);
        let p = perm[k - 1] as int;
        assert(!s.contains(p)) by {
            if s.contains(p) {
                let j = choose|j: int| 0 <= j < k - 1 && perm[j] as int == p;
                assert(perm[j] == perm[k - 1]);
            }
        }
        lemma_masked_insert(q, s, p);
        let now = permuted(q, perm.take(k));
        assert(now.drop_last() =~= permuted(q, perm.take(k - 1)));
        assert(now.last() == q[p]);
        assert forall|x: int| prefix_set(perm, k).contains(x) implies exists|j: int|
            0 <= j < k && perm[j] as int == x by {
            if x == p {
                assert(perm[k - 1] as int == x);
            } else {
                assert(s.contains(x));
                let j = choose|j: int| 0 <= j < k - 1 && perm[j] as int == x;
                assert(0 <= j < k && perm[j] as int == x);
            }
        }
    }
}

proof fn lemma_masked_empty(q: Seq<int>)
    ensures
        int_sum(masked(q, Set::empty())) == 0,
    decreases q.len(),
{
    if q.len() > 0 {
        assert(masked(q, Set::empty()).drop_last() =~= masked(q.drop_last(), Set::empty()));
        lemma_masked_empty(q.drop_last());
    }
}

/// The sum of a list does not depend on its order.
pub proof fn lemma_permuted_sum(q: Seq<int>, perm: Seq<usize>)
    requires
        is_permutation(perm, q.len() as int),
    ensures
        int_sum(permuted(q, perm)) == int_sum(q),
{
    let n = q.len() as int;
    lemma_prefix(q, perm, n);
    let s = prefix_set(perm, n);
    assert(perm.take(n) =~= perm);
    let range = vstd::set_lib::set_int_range(0, n);
    vstd::set_lib::lemma_int_range(0, n);
    assert(s.subset_of(range)) by {
        assert forall|x: int| s.contains(x) implies range.contains(x) by {
            let j = choose|j: int| 0 <= j < n && perm[j] as int == x;
            assert(perm[j] < n);
        }
    }
    vstd::set_lib::lemma_subset_equality(s, range);
    assert(masked(q, s) =~= q);
}

/// Sums of lists that agree modulo the group order agree modulo it.
proof fn lemma_sum_red(a: Seq<int>, b: Seq<int>)
    requires
        a.len() == b.len(),
        forall|i: int| 0 <= i < a.len() ==> red(#[trigger] a[i]) == red(b[i]),
    ensures
        red(int_sum(a)) == red(int_sum(b)),
    decreases a.len(),
{
    if a.len() > 0 {
        assert forall|i: int| 0 <= i < a.len() - 1 implies red(#[trigger] a.drop_last()[i]) == red(
            b.drop_last()[i],
        ) by {
            assert(red(a[i]) == red(b[i]));
        }
        lemma_sum_red(a.drop_last(), b.drop_last());
        assert(red(a[a.len() - 1]) == red(b[b.len() - 1]));
        lemma_red_add(int_sum(a.drop_last()), a.last());
        lemma_red_add(int_sum(b.drop_last()), b.last());
    }
}

proof fn lemma_sum_add(a: Seq<int>, b: Seq<int>, c: Seq<int>)
    requires
        a.len() == b.len() == c.len(),
        forall|i: int| 0 <= i < a.len() ==> #[trigger] c[i] == a[i] + b[i],
    ensures
        int_sum(c) == int_sum(a) + int_sum(b),
    decreases a.len(),
{
    if a.len() > 0 {
        assert forall|i: int| 0 <= i < a.len() - 1 implies #[trigger] c.drop_last()[i]
            == a.drop_last()[i] + b.drop_last()[i] by {
            assert(c[i] == a[i] + b[i]);
        }
        lemma_sum_add(a.drop_last(), b.drop_last(), c.drop_last());
        assert(c[c.len() - 1] == a[a.len() - 1] + b[b.len() - 1]);
    }
}

proof fn lemma_sum_scale(a: Seq<int>, k: int, b: Seq<int>)
    requires
        a.len() == b.len(),
        forall|i: int| 0 <= i < a.len() ==> #[trigger] b[i] == k * a[i],
    ensures
        int_sum(b) == k * int_sum(a),
    decreases a.len(),
{
    if a.len() > 0 {
        assert forall|i: int| 0 <= i < a.len() - 1 implies #[trigger] b.drop_last()[i] == k
            * a.drop_last()[i] by {
            assert(b[i] == k * a[i]);
        }
        lemma_sum_scale(a.drop_last(), k, b.drop_last());
        assert(b[b.len() - 1] == k * a[a.len() - 1]);
        let x = int_sum(a.drop_last());
        let y = a.last();
        assert(k * x + k * y == k * (x + y)) by (nonlinear_arith);
    }
}

/// One component of a combination: its terms, summed.
proof fn lemma_combination(cts: Seq<CtView>, ks: Seq<int>)
    requires
        cts.len() <= ks.len(),
    ensures
        ct_combination(cts, ks).r1 == red(int_sum(products(firsts(cts), ks))),
        ct_combination(cts, ks).r2 == red(int_sum(products(seconds(cts), ks))),
        ct_combination(cts, ks).b == red(int_sum(products(thirds(cts), ks))),
    decreases cts.len(),
{
    if cts.len() == 0 {
        crate::arith::lemma_order();
        crate::arith::lemma_red_small(0);
    } else {
        let n = cts.len() - 1;
        let less = cts.drop_last();
        lemma_combination(less, ks);
        assert(products(firsts(cts), ks).drop_last() =~= products(firsts(less), ks));
        assert(products(seconds(cts), ks).drop_last() =~= products(seconds(less), ks));
        assert(products(thirds(cts), ks).drop_last() =~= products(thirds(less), ks));
        lemma_red_add(int_sum(products(firsts(less), ks)), cts[n].r1 * ks[n]);
        lemma_red_add(int_sum(products(seconds(less), ks)), cts[n].r2 * ks[n]);
        lemma_red_add(int_sum(products(thirds(less), ks)), cts[n].b * ks[n]);
    }
}

spec fn firsts(cts: Seq<CtView>) -> Seq<int> {
    cts.map_values(|ct: CtView| ct.r1)
}

spec fn seconds(cts: Seq<CtView>) -> Seq<int> {
    cts.map_values(|ct: CtView| ct.r2)
}

spec fn thirds(cts: Seq<CtView>) -> Seq<int> {
    cts.map_values(|ct: CtView| ct.b)
}

/// The equation for one component, with `g` the key's component, `o` and `s`
/// those of the original and of the shuffled ciphertexts.
proof fn lemma_component(
    g: int,
    o: Seq<int>,
    s: Seq<int>,
    rho: Seq<int>,
    perm: Seq<usize>,
    d: Seq<int>,
    f: Seq<int>,
    t: Seq<int>,
    r0: int,
)
    requires
        is_permutation(perm, o.len() as int),
        s.len() == o.len(),
        rho.len() == o.len(),
        d.len() == o.len(),
        f.len() == o.len(),
        t.len() == o.len(),
        forall|k: int| 0 <= k < s.len() ==> #[trigger] s[k] == red(g * rho[k] + o[perm[k] as int]),
        forall|k: int| 0 <= k < f.len() ==> #[trigger] f[k] == red(t[perm[k] as int] - d[k]),
    ensures
        red(
            red(
                red(red(int_sum(products(s, d))) + red(g * r0)) - red(int_sum(products(o, t))),
            ) + red(int_sum(products(s, f))),
        ) == red(g * red(r0 + int_sum(products(rho, permuted(t, perm))))),
{
    let n = o.len();
    let tp = permuted(t, perm);
    let op = permuted(o, perm);
    let a = products(s, d);
    let b = products(s, f);
    let both = Seq::new(n, |k: int| a[k] + b[k]);
    let terms = Seq::new(n, |k: int| (g * rho[k] + op[k]) * tp[k]);
    let keyed = Seq::new(n, |k: int| g * (rho[k] * tp[k]));
    let moved = products(op, tp);
    lemma_sum_add(a, b, both);
    assert forall|k: int| 0 <= k < n implies red(#[trigger] both[k]) == red(terms[k]) by {
        let x = g * rho[k] + op[k];
        assert(s[k] == red(x));
        assert(f[k] == red(tp[k] - d[k]));
        assert(a[k] + b[k] == s[k] * (d[k] + f[k])) by (nonlinear_arith)
            requires
                a[k] == s[k] * d[k],
                b[k] == s[k] * f[k],
        ;
        lemma_red_add(d[k], tp[k] - d[k]);
        assert(red(d[k] + f[k]) == red(tp[k]));
        lemma_red_mul(s[k], d[k] + f[k]);
        lemma_red_mul(s[k], tp[k]);
        lemma_red_mul(x, tp[k]);
    }
    lemma_sum_red(both, terms);
    assert forall|k: int| 0 <= k < n implies #[trigger] terms[k] == keyed[k] + moved[k] by {
        let r = rho[k];
        let u = op[k];
        let v = tp[k];
        assert((g * r + u) * v == g * (r * v) + u * v) by (nonlinear_arith);
    }
    lemma_sum_add(keyed, moved, terms);
    lemma_sum_scale(products(rho, tp), g, keyed);
    assert(moved =~= permuted(products(o, t), perm));
    lemma_permuted_sum(products(o, t), perm);
    let w = int_sum(products(rho, tp));
    let sa = int_sum(a);
    let sb = int_sum(b);
    let ot = int_sum(products(o, t));
    assert(red(sa + sb) == red(g * w + ot));
    lemma_red_add(sa, g * r0);
    lemma_red_sub(sa + g * r0, ot);
    lemma_red_add(sa + g * r0 - ot, sb);
    lemma_red_add(sa + sb, g * r0 - ot);
    lemma_red_add(g * w + ot, g * r0 - ot);
    assert(g * w + g * r0 == g * (r0 + w)) by (nonlinear_arith);
    lemma_red_mul(g, r0 + w);
}

/// An honest shuffle satisfies the linking equation: where each shuffled
/// ciphertext is the original at its place in the permutation, re-encrypted
/// with `rho`; where `f` hides the permuted `t` behind the masks `d`; where
/// `e_d` combines the shuffled ciphertexts with the masks and hides this with
/// `r0`; and where the response is `r0` plus the sum of `rho` times the
/// permuted `t`.
pub proof fn law_linkage(
    key: CtView,
    originals: Seq<CtView>,
    shuffled: Seq<CtView>,
    rho: Seq<int>,
    perm: Seq<usize>,
    d: Seq<int>,
    f: Seq<int>,
    t: Seq<int>,
    r0: int,
)
    requires
        is_permutation(perm, originals.len() as int),
        shuffled.len() == originals.len(),
        rho.len() == originals.len(),
        d.len() == originals.len(),
        f.len() == originals.len(),
        t.len() == originals.len(),
        forall|k: int|
            0 <= k < shuffled.len() ==> #[trigger] shuffled[k] == ct_add(
                ct_encrypt(key, 0, rho[k]),
                originals[perm[k] as int],
            ),
        forall|k: int| 0 <= k < f.len() ==> #[trigger] f[k] == red(t[perm[k] as int] - d[k]),
    ensures
        re_encryption_holds(
            key,
            ct_add(ct_combination(shuffled, d), ct_encrypt(key, 0, r0)),
            red(r0 + int_sum(products(rho, permuted(t, perm)))),
            t,
            f,
            originals,
            shuffled,
        ),
{
    lemma_combination(shuffled, d);
    lemma_combination(shuffled, f);
    lemma_combination(originals, t);
    assert forall|k: int| 0 <= k < shuffled.len() implies #[trigger] firsts(shuffled)[k] == red(
        key.r1 * rho[k] + firsts(originals)[perm[k] as int],
    ) by {
        let o = originals[perm[k] as int];
        assert(shuffled[k] == ct_add(ct_encrypt(key, 0, rho[k]), o));
        lemma_red_add(key.r1 * rho[k], o.r1);
    }
    assert forall|k: int| 0 <= k < shuffled.len() implies #[trigger] seconds(shuffled)[k] == red(
        key.r2 * rho[k] + seconds(originals)[perm[k] as int],
    ) by {
        let o = originals[perm[k] as int];
        assert(shuffled[k] == ct_add(ct_encrypt(key, 0, rho[k]), o));
        lemma_red_add(key.r2 * rho[k], o.r2);
    }
    assert forall|k: int| 0 <= k < shuffled.len() implies #[trigger] thirds(shuffled)[k] == red(
        key.b * rho[k] + thirds(originals)[perm[k] as int],
    ) by {
        let o = originals[perm[k] as int];
        assert(shuffled[k] == ct_add(ct_encrypt(key, 0, rho[k]), o));
        lemma_red_add(key.b * rho[k], o.b);
    }
    lemma_component(key.r1, firsts(originals), firsts(shuffled), rho, perm, d, f, t, r0);
    lemma_component(key.r2, seconds(originals), seconds(shuffled), rho, perm, d, f, t, r0);
    lemma_component(key.b, thirds(originals), thirds(shuffled), rho, perm, d, f, t, r0);
}

} // verus!
