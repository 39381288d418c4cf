//! What the proofs about ciphertexts show.
//!
//! Whoever can answer two challenges after the same commitments shows the claim:
//! it is then true of what the ciphertexts decrypt to.

use vstd::prelude::*;

use crate::arith::{
    is_inverse, lemma_order, lemma_red_add, lemma_red_mul, lemma_red_small, lemma_red_sub,
    lemma_red_twice, red,
};
use crate::elgamal::{
    ct_add, ct_decrypt, ct_encrypt, ct_scale, ct_strip, ct_sub, law_decrypt_add,
    law_decrypt_encrypt, law_decrypt_scale, law_decrypt_strip, law_decrypt_sub, CtView,
};
use crate::proofs::designated::{DvProof, DvView};
use crate::proofs::relation::{objection, ProofView, RelationView, StatementView};

verus! {

/// Two answers to different challenges give the factor between two points.
pub(crate) proof fn lemma_extract(g: int, p: int, i: int, z: int, w: int, c: int, d: int, inverse: int)
    requires
        red(g * z) == red(i + p * c),
        red(g * w) == red(i + p * d),
        is_inverse(c - d, inverse),
    ensures
        red(p) == red(g * ((z - w) * inverse)),
{
    lemma_red_sub(g * z, g * w);
    lemma_red_sub(i + p * c, i + p * d);
    assert(g * z - g * w == g * (z - w)) by (nonlinear_arith);
    assert(i + p * c - (i + p * d) == p * (c - d)) by (nonlinear_arith);
    lemma_red_mul(g * (z - w), inverse);
    lemma_red_mul(p * (c - d), inverse);
    assert((g * (z - w)) * inverse == g * ((z - w) * inverse)) by (nonlinear_arith);
    assert((p * (c - d)) * inverse == p * ((c - d) * inverse)) by (nonlinear_arith);
    lemma_red_mul(p, (c - d) * inverse);
    assert(p * 1 == p);
}

/// What a ciphertext decrypts to depends on residues alone.
pub(crate) proof fn lemma_same_residues(x1: int, x2: int, a: CtView, b: CtView)
    requires
        red(a.r1) == red(b.r1),
        red(a.r2) == red(b.r2),
        red(a.b) == red(b.b),
    ensures
        ct_decrypt(x1, x2, a) == ct_decrypt(x1, x2, b),
{
    lemma_red_mul(x1, a.r1);
    lemma_red_mul(x1, b.r1);
    lemma_red_mul(x2, a.r2);
    lemma_red_mul(x2, b.r2);
    lemma_red_add(x1 * a.r1, x2 * a.r2);
    lemma_red_add(x1 * b.r1, x2 * b.r2);
    lemma_red_sub(a.b, x1 * a.r1 + x2 * a.r2);
    lemma_red_sub(b.b, x1 * b.r1 + x2 * b.r2);
}

/// Two answers open a ciphertext: it encrypts what the answers differ by.
proof fn lemma_opened(
    x1: int,
    x2: int,
    key: CtView,
    ct: CtView,
    i: CtView,
    m: int,
    z: int,
    n: int,
    w: int,
    c: int,
    d: int,
    inverse: int,
)
    requires
        key.b == red(x1 * key.r1 + x2 * key.r2),
        ct_encrypt(key, m, z) == ct_add(i, ct_scale(ct, c)),
        ct_encrypt(key, n, w) == ct_add(i, ct_scale(ct, d)),
        is_inverse(c - d, inverse),
    ensures
        ct_decrypt(x1, x2, ct) == red((m - n) * inverse),
{
    let r = (z - w) * inverse;
    let v = (m - n) * inverse;
    lemma_red_add(i.r1, ct.r1 * c);
    lemma_red_add(i.r1, ct.r1 * d);
    lemma_red_add(i.r2, ct.r2 * c);
    lemma_red_add(i.r2, ct.r2 * d);
    lemma_red_add(i.b, ct.b * c);
    lemma_red_add(i.b, ct.b * d);
    lemma_extract(key.r1, ct.r1, i.r1, z, w, c, d, inverse);
    lemma_extract(key.r2, ct.r2, i.r2, z, w, c, d, inverse);
    assert(1 * (key.b * z + m) == key.b * z + m && 1 * (key.b * w + n) == key.b * w + n);
    lemma_extract(1, ct.b, i.b, key.b * z + m, key.b * w + n, c, d, inverse);
    assert(1 * ((key.b * z + m - (key.b * w + n)) * inverse) == key.b * r + v) by (nonlinear_arith)
        requires
            r == (z - w) * inverse,
            v == (m - n) * inverse,
    ;
    lemma_red_twice(key.r1 * r);
    lemma_red_twice(key.r2 * r);
    lemma_red_twice(key.b * r + v);
    lemma_same_residues(x1, x2, ct, ct_encrypt(key, v, r));
    law_decrypt_encrypt(x1, x2, key, v, r);
}

/// A multiple of the key encrypts zero.
proof fn lemma_key_multiple(key: CtView, z: int)
    ensures
        ct_scale(key, z) == ct_encrypt(key, 0, z),
{
}

/// Whether the claim is true of what the secret key `(x1, x2)` decrypts.
pub open spec fn claim_holds(x1: int, x2: int, s: StatementView) -> bool {
    match s.relation {
        RelationView::Zero { ct } => ct_decrypt(x1, x2, ct) == 0,
        RelationView::Or { ct, values } => ct_decrypt(x1, x2, ct) == red(values[0]) || ct_decrypt(
            x1,
            x2,
            ct,
        ) == red(values[1]),
        RelationView::Exp { ct, base } => exists|x: int|
            ct_decrypt(x1, x2, ct) == #[trigger] red(base * x),
        RelationView::NotId { ct } => ct_decrypt(x1, x2, ct) != 0,
        RelationView::LogEq { c1, c2, d } => exists|m: int|
            red(ct_decrypt(x1, x2, c1) - ct_decrypt(x1, x2, c2)) == #[trigger] red(d * m),
    }
}

/// A proof that a ciphertext encrypts zero shows it: who answers two challenges
/// after one commitment has a ciphertext that decrypts to zero.
pub proof fn law_zero_proof_shows(
    x1: int,
    x2: int,
    key: CtView,
    ct: CtView,
    p: ProofView,
    q: ProofView,
    c: Seq<int>,
    d: Seq<int>,
    inverse: int,
)
    requires
        key.b == red(x1 * key.r1 + x2 * key.r2),
        objection(StatementView { key, relation: RelationView::Zero { ct } }, p, c) is None,
        objection(StatementView { key, relation: RelationView::Zero { ct } }, q, d) is None,
        p.commitments == q.commitments,
        is_inverse(c[0] - d[0], inverse),
    ensures
        ct_decrypt(x1, x2, ct) == 0,
{
    let (z, w) = (p.responses[0], q.responses[0]);
    lemma_key_multiple(key, z);
    lemma_key_multiple(key, w);
    lemma_opened(x1, x2, key, ct, p.commitments[0], 0, z, 0, w, c[0], d[0], inverse);
    lemma_order();
    lemma_red_small(0);
    assert((0 - 0) * inverse == 0) by (nonlinear_arith);
}

/// A proof that a ciphertext encrypts one of two values shows it: who answers two
/// challenges after the same commitments has split one of them in two ways, and
/// the ciphertext decrypts to the value of that part.
pub proof fn law_or_proof_shows(
    x1: int,
    x2: int,
    key: CtView,
    ct: CtView,
    values: Seq<int>,
    p: ProofView,
    q: ProofView,
    c: Seq<int>,
    d: Seq<int>,
    inverse: int,
)
    requires
        key.b == red(x1 * key.r1 + x2 * key.r2),
        objection(StatementView { key, relation: RelationView::Or { ct, values } }, p, c) is None,
        objection(StatementView { key, relation: RelationView::Or { ct, values } }, q, d) is None,
        p.commitments == q.commitments,
    ensures
        is_inverse(p.challenges[0] - q.challenges[0], inverse) ==> ct_decrypt(x1, x2, ct) == red(
            values[0],
        ),
        is_inverse(p.challenges[1] - q.challenges[1], inverse) ==> ct_decrypt(x1, x2, ct) == red(
            values[1],
        ),
        red(c[0]) != red(d[0]) ==> red(p.challenges[0]) != red(q.challenges[0]) || red(
            p.challenges[1],
        ) != red(q.challenges[1]),
        p.commitments.len() == 2 && p.challenges.len() == 2 && p.responses.len() == 2,
{
    if is_inverse(p.challenges[0] - q.challenges[0], inverse) {
        lemma_branch(x1, x2, key, ct, values, p, q, 0, inverse);
    }
    if is_inverse(p.challenges[1] - q.challenges[1], inverse) {
        lemma_branch(x1, x2, key, ct, values, p, q, 1, inverse);
    }
    if red(p.challenges[0]) == red(q.challenges[0]) && red(p.challenges[1]) == red(q.challenges[1]) {
        lemma_red_add(p.challenges[0], p.challenges[1]);
        lemma_red_add(q.challenges[0], q.challenges[1]);
    }
}

proof fn lemma_branch(
    x1: int,
    x2: int,
    key: CtView,
    ct: CtView,
    values: Seq<int>,
    p: ProofView,
    q: ProofView,
    k: int,
    inverse: int,
)
    requires
        0 <= k < 2,
        key.b == red(x1 * key.r1 + x2 * key.r2),
        p.commitments == q.commitments,
        ct_scale(key, p.responses[k]) == ct_add(
            p.commitments[k],
            ct_scale(ct_strip(ct, values[k]), p.challenges[k]),
        ),
        ct_scale(key, q.responses[k]) == ct_add(
            q.commitments[k],
            ct_scale(ct_strip(ct, values[k]), q.challenges[k]),
        ),
        is_inverse(p.challenges[k] - q.challenges[k], inverse),
    ensures
        ct_decrypt(x1, x2, ct) == red(values[k]),
{
    let v = values[k];
    let (z, w) = (p.responses[k], q.responses[k]);
    lemma_key_multiple(key, z);
    lemma_key_multiple(key, w);
    lemma_opened(
        x1,
        x2,
        key,
        ct_strip(ct, v),
        p.commitments[k],
        0,
        z,
        0,
        w,
        p.challenges[k],
        q.challenges[k],
        inverse,
    );
    lemma_order();
    lemma_red_small(0);
    assert((0 - 0) * inverse == 0) by (nonlinear_arith);
    law_decrypt_strip(x1, x2, ct, v);
    lemma_difference_zero(ct_decrypt(x1, x2, ct), v);
    lemma_red_twice(ct.b - (x1 * ct.r1 + x2 * ct.r2));
}

/// Where a difference is zero, both have one residue.
pub(crate) proof fn lemma_difference_zero(a: int, b: int)
    requires
        red(a - b) == 0,
    ensures
        red(a) == red(b),
{
    lemma_red_add(a - b, b);
    assert(0 + b == b);
}

/// A proof that a ciphertext encrypts a known multiple of a point shows it.
pub proof fn law_exp_proof_shows(
    x1: int,
    x2: int,
    key: CtView,
    ct: CtView,
    base: int,
    p: ProofView,
    q: ProofView,
    c: Seq<int>,
    d: Seq<int>,
    inverse: int,
) -> (x: int)
    requires
        key.b == red(x1 * key.r1 + x2 * key.r2),
        objection(StatementView { key, relation: RelationView::Exp { ct, base } }, p, c) is None,
        objection(StatementView { key, relation: RelationView::Exp { ct, base } }, q, d) is None,
        p.commitments == q.commitments,
        is_inverse(c[0] - d[0], inverse),
    ensures
        x == (p.responses[1] - q.responses[1]) * inverse,
        ct_decrypt(x1, x2, ct) == red(base * x),
{
    let (z, w) = (p.responses, q.responses);
    lemma_opened(
        x1,
        x2,
        key,
        ct,
        p.commitments[0],
        base * z[1],
        z[0],
        base * w[1],
        w[0],
        c[0],
        d[0],
        inverse,
    );
    let x = (z[1] - w[1]) * inverse;
    assert((base * z[1] - base * w[1]) * inverse == base * x) by (nonlinear_arith)
        requires
            x == (z[1] - w[1]) * inverse,
    ;
    x
}

/// A proof that two ciphertexts encrypt one multiple of two points shows that
/// their difference is a multiple of the points' difference.
pub proof fn law_log_eq_proof_shows(
    x1: int,
    x2: int,
    key: CtView,
    c1: CtView,
    c2: CtView,
    diff: int,
    p: ProofView,
    q: ProofView,
    c: Seq<int>,
    d: Seq<int>,
    inverse: int,
) -> (m: int)
    requires
        key.b == red(x1 * key.r1 + x2 * key.r2),
        objection(
            StatementView { key, relation: RelationView::LogEq { c1, c2, d: diff } },
            p,
            c,
        ) is None,
        objection(
            StatementView { key, relation: RelationView::LogEq { c1, c2, d: diff } },
            q,
            d,
        ) is None,
        p.commitments == q.commitments,
        is_inverse(c[0] - d[0], inverse),
    ensures
        m == (p.responses[1] - q.responses[1]) * inverse,
        red(ct_decrypt(x1, x2, c1) - ct_decrypt(x1, x2, c2)) == red(diff * m),
{
    let (z, w) = (p.responses, q.responses);
    lemma_opened(
        x1,
        x2,
        key,
        ct_sub(c1, c2),
        p.commitments[0],
        diff * z[1],
        z[0],
        diff * w[1],
        w[0],
        c[0],
        d[0],
        inverse,
    );
    law_decrypt_sub(x1, x2, c1, c2);
    let m = (z[1] - w[1]) * inverse;
    assert((diff * z[1] - diff * w[1]) * inverse == diff * m) by (nonlinear_arith)
        requires
            m == (z[1] - w[1]) * inverse,
    ;
    m
}

/// A proof that a ciphertext does not encrypt the neutral element shows it.
pub proof fn law_not_id_proof_shows(
    x1: int,
    x2: int,
    key: CtView,
    ct: CtView,
    p: ProofView,
    q: ProofView,
    c: Seq<int>,
    d: Seq<int>,
    first: int,
    second: int,
)
    requires
        key.b == red(x1 * key.r1 + x2 * key.r2),
        objection(StatementView { key, relation: RelationView::NotId { ct } }, p, c) is None,
        objection(StatementView { key, relation: RelationView::NotId { ct } }, q, d) is None,
        p.commitments == q.commitments,
        is_inverse(c[0] - d[0], first),
        is_inverse(c[1] - d[1], second),
    ensures
        ct_decrypt(x1, x2, ct) != 0,
{
    let i = p.commitments;
    let (z, w) = (p.responses, q.responses);
    lemma_key_multiple(key, z[0]);
    lemma_key_multiple(key, w[0]);
    lemma_opened(x1, x2, key, i[1], i[0], 0, z[0], 0, w[0], c[0], d[0], first);
    lemma_order();
    lemma_red_small(0);
    assert((0 - 0) * first == 0) by (nonlinear_arith);
    assert(ct_decrypt(x1, x2, i[1]) == 0);
    // The other commitment is a multiple of the ciphertext.
    let k = (z[1] - w[1]) * second;
    lemma_red_add(i[2].r1, i[3].r1 * c[1]);
    lemma_red_add(i[2].r1, i[3].r1 * d[1]);
    lemma_red_add(i[2].r2, i[3].r2 * c[1]);
    lemma_red_add(i[2].r2, i[3].r2 * d[1]);
    lemma_red_add(i[2].b, i[3].b * c[1]);
    lemma_red_add(i[2].b, i[3].b * d[1]);
    lemma_extract(ct.r1, i[3].r1, i[2].r1, z[1], w[1], c[1], d[1], second);
    lemma_extract(ct.r2, i[3].r2, i[2].r2, z[1], w[1], c[1], d[1], second);
    lemma_extract(ct.b, i[3].b, i[2].b, z[1], w[1], c[1], d[1], second);
    lemma_red_twice(ct.r1 * k);
    lemma_red_twice(ct.r2 * k);
    lemma_red_twice(ct.b * k);
    lemma_same_residues(x1, x2, i[3], ct_scale(ct, k));
    law_decrypt_scale(x1, x2, ct, k);
    // Their sum decrypts to its last point, which is not neutral.
    let sum = ct_add(i[1], i[3]);
    law_decrypt_add(x1, x2, i[1], i[3]);
    assert(x1 * 0 + x2 * 0 == 0) by (nonlinear_arith);
    lemma_red_twice(i[1].b + i[3].b);
    assert(ct_decrypt(x1, x2, sum) == sum.b);
    if ct_decrypt(x1, x2, ct) == 0 {
        assert(0 * k == 0) by (nonlinear_arith);
    }
}

/// A designated proof shows its claim, or that its maker knows the verifier's
/// secret: the two parts of the challenge add up to one value, and who splits it
/// in two ways after the same commitments knows the factors of both claims.
pub proof fn law_designated_proof_shows(public: DvView, p: DvProof, q: DvProof, inverse: int)
    requires
        p.i0 == q.i0,
        p.i1a == q.i1a,
        p.i1b == q.i1b,
        public.objection(p) is None,
        public.objection(q) is None,
    ensures
        red(p.c0@ + p.c1@) == red(q.c0@ + q.c1@),
        is_inverse(p.c0@ - q.c0@, inverse) ==> red(public.pv) == red(
            public.base0 * ((p.z0@ - q.z0@) * inverse),
        ),
        is_inverse(p.c1@ - q.c1@, inverse) ==> red(public.p1a) == red(
            public.b1a * ((p.z1@ - q.z1@) * inverse),
        ) && red(public.p1b) == red(public.b1b * ((p.z1@ - q.z1@) * inverse)),
{
    if is_inverse(p.c0@ - q.c0@, inverse) {
        lemma_extract(
            public.base0,
            public.pv,
            p.i0.log(),
            p.z0@,
            q.z0@,
            p.c0@,
            q.c0@,
            inverse,
        );
    }
    if is_inverse(p.c1@ - q.c1@, inverse) {
        lemma_extract(
            public.b1a,
            public.p1a,
            p.i1a.log(),
            p.z1@,
            q.z1@,
            p.c1@,
            q.c1@,
            inverse,
        );
        lemma_extract(
            public.b1b,
            public.p1b,
            p.i1b.log(),
            p.z1@,
            q.z1@,
            p.c1@,
            q.c1@,
            inverse,
        );
    }
}

} // verus!
