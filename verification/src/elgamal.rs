//! Modified ElGamal encryption: two bases, one public point.

use dlog_group::group::GroupPoint;
use dlog_group::ristretto::RistrettoGroup;
use dlog_sigma_primitives::elgamal::ciphertext::DiscreteLogTable;
use rand::rngs::StdRng;
use vstd::prelude::*;

use crate::arith::{
    lemma_order, lemma_red_add, lemma_red_mul, lemma_red_small, lemma_red_sub, lemma_red_twice, red,
};
use crate::error::CryptoError;
use crate::group::{is_point_encoding, point_encoding, Point, Scalar};

verus! {

/// A ciphertext by the logarithms of its three points.
#[verifier::ext_equal]
pub struct CtView {
    pub r1: int,
    pub r2: int,
    pub b: int,
}

/// The componentwise sum.
pub open spec fn ct_add(x: CtView, y: CtView) -> CtView {
    CtView { r1: red(x.r1 + y.r1), r2: red(x.r2 + y.r2), b: red(x.b + y.b) }
}

/// The componentwise difference.
pub open spec fn ct_sub(x: CtView, y: CtView) -> CtView {
    CtView { r1: red(x.r1 - y.r1), r2: red(x.r2 - y.r2), b: red(x.b - y.b) }
}

/// The componentwise multiple.
pub open spec fn ct_scale(x: CtView, k: int) -> CtView {
    CtView { r1: red(x.r1 * k), r2: red(x.r2 * k), b: red(x.b * k) }
}

/// The ciphertext without the plaintext `m`.
pub open spec fn ct_strip(x: CtView, m: int) -> CtView {
    CtView { r1: x.r1, r2: x.r2, b: red(x.b - m) }
}

/// The ciphertext with the plaintext `m` added.
pub open spec fn ct_put(x: CtView, m: int) -> CtView {
    CtView { r1: x.r1, r2: x.r2, b: red(x.b + m) }
}

/// The ciphertext whose points are all neutral.
pub open spec fn ct_zero() -> CtView {
    CtView { r1: 0, r2: 0, b: 0 }
}

/// The encryption of `m` under `key` with randomness `r`.
///
/// The key is the triple of both bases and the public point.
pub open spec fn ct_encrypt(key: CtView, m: int, r: int) -> CtView {
    CtView { r1: red(key.r1 * r), r2: red(key.r2 * r), b: red(key.b * r + m) }
}

/// What the secret key `(x1, x2)` makes of a ciphertext.
pub open spec fn ct_decrypt(x1: int, x2: int, ct: CtView) -> int {
    red(ct.b - (x1 * ct.r1 + x2 * ct.r2))
}

/// The sum of a list of ciphertexts.
pub open spec fn ct_sum(cts: Seq<CtView>) -> CtView
    decreases cts.len(),
{
    if cts.len() == 0 {
        ct_zero()
    } else {
        ct_add(ct_sum(cts.drop_last()), cts.last())
    }
}

/// The sum in which the ciphertext at position `i` counts `i + 1` times.
pub open spec fn ct_ranked_sum(cts: Seq<CtView>) -> CtView
    decreases cts.len(),
{
    if cts.len() == 0 {
        ct_zero()
    } else {
        ct_add(ct_ranked_sum(cts.drop_last()), ct_scale(cts.last(), cts.len() as int))
    }
}

/// The encoding of a ciphertext: that of its three points, one after the other.
pub open spec fn ct_encoding(ct: CtView) -> Seq<u8> {
    point_encoding(ct.r1) + point_encoding(ct.r2) + point_encoding(ct.b)
}

/// The views of a list of ciphertexts.
pub open spec fn ct_views(cts: Seq<Ciphertext>) -> Seq<CtView> {
    cts.map_values(|ct: Ciphertext| ct@)
}

/// The views of rows of ciphertexts.
pub open spec fn ct_rows(rows: Seq<Vec<Ciphertext>>) -> Seq<Seq<CtView>> {
    rows.map_values(|row: Vec<Ciphertext>| ct_views(row@))
}

/// The two bases.
#[derive(Clone, Copy, Debug, PartialEq, Eq)]
pub struct ElGamalParams {
    pub g1: Point,
    pub g2: Point,
}

impl ElGamalParams {
    /// Two random bases.
    pub fn new(rng: &mut StdRng) -> Self {
        ElGamalParams { g1: Point::random(rng), g2: Point::random(rng) }
    }
}

/// A public key.
#[derive(Clone, Copy, Debug, PartialEq, Eq)]
pub struct PublicKey {
    pub h: Point,
}

impl PublicKey {
    /// The key triple: both bases and the public point.
    pub open spec fn key(self, params: ElGamalParams) -> CtView {
        CtView { r1: params.g1.log(), r2: params.g2.log(), b: self.h.log() }
    }

    /// The key triple as a ciphertext.
    pub fn to_ciphertext(&self, params: &ElGamalParams) -> (r: Ciphertext)
        ensures
            r@ == self.key(*params),
    {
        Ciphertext { random_point: params.g1, random_point2: params.g2, blinded_point: self.h }
    }

    /// Encrypts `value` with randomness `r`.
    pub fn encrypt_with(&self, params: &ElGamalParams, value: &Point, r: &Scalar) -> (ct:
        ExtendedCiphertext)
        ensures
            ct.inner@ == ct_encrypt(self.key(*params), value.log(), r@),
            ct.random_scalar == r,
    {
        proof {
            lemma_red_add(self.h.log() * r@, value.log());
        }
        ExtendedCiphertext {
            inner: Ciphertext {
                random_point: params.g1.times(r),
                random_point2: params.g2.times(r),
                blinded_point: self.h.times(r).plus(value),
            },
            random_scalar: *r,
        }
    }

    /// Recovers `m` from the encryption of `[m]G` whose randomness is known,
    /// looking it up in `table`.
    pub fn exp_dec_with_rnd(
        &self,
        params: &ElGamalParams,
        table: &DlogTable,
        ct: &Ciphertext,
        r: &Scalar,
    ) -> (res: Result<Scalar, CryptoError>)
        ensures
            (ct@.r1 != red(params.g1.log() * r@) || ct@.r2 != red(params.g2.log() * r@))
                ==> res == Err::<Scalar, CryptoError>(CryptoError::RandomPointMismatch),
            (ct@.r1 == red(params.g1.log() * r@) && ct@.r2 == red(params.g2.log() * r@)) ==> (
            match table_lookup(dlog_table_values(*table), red(ct@.b - self.h.log() * r@)) {
                Some(v) => res.is_ok() && res->Ok_0@ == v,
                None => res == Err::<Scalar, CryptoError>(CryptoError::ElementNotFound),
            }),
    {
        if !ct.random_point.equals(&params.g1.times(r)) || !ct.random_point2.equals(
            &params.g2.times(r),
        ) {
            return Err(CryptoError::RandomPointMismatch);
        }
        let point = ct.blinded_point.minus(&self.h.times(r));
        proof {
            lemma_red_sub(ct@.b, self.h.log() * r@);
        }
        match table.get(&point) {
            Some(value) => Ok(Scalar::from_u64(value)),
            None => Err(CryptoError::ElementNotFound),
        }
    }
}

/// A secret key.
#[derive(Clone, Copy, Debug)]
pub struct SecretKey {
    pub x1: Scalar,
    pub x2: Scalar,
}

impl SecretKey {
    /// A random secret key.
    pub fn new(rng: &mut StdRng) -> Self {
        SecretKey { x1: Scalar::random(rng), x2: Scalar::random(rng) }
    }

    /// The public key `[x1]g1 + [x2]g2`.
    pub fn to_public(&self, params: &ElGamalParams) -> (r: PublicKey)
        ensures
            r.h.log() == red(self.x1@ * params.g1.log() + self.x2@ * params.g2.log()),
    {
        proof {
            lemma_red_add(params.g1.log() * self.x1@, params.g2.log() * self.x2@);
            assert(params.g1.log() * self.x1@ == self.x1@ * params.g1.log()) by (nonlinear_arith);
            assert(params.g2.log() * self.x2@ == self.x2@ * params.g2.log()) by (nonlinear_arith);
        }
        PublicKey { h: params.g1.times(&self.x1).plus(&params.g2.times(&self.x2)) }
    }

    /// Decrypts a ciphertext.
    pub fn decrypt(&self, ct: &Ciphertext) -> (r: Point)
        ensures
            r.log() == ct_decrypt(self.x1@, self.x2@, ct@),
    {
        proof {
            let p = ct@.r1 * self.x1@;
            let q = ct@.r2 * self.x2@;
            lemma_red_add(p, q);
            lemma_red_sub(ct@.b, p + q);
            assert(p == self.x1@ * ct@.r1) by (nonlinear_arith)
                requires
                    p == ct@.r1 * self.x1@,
            ;
            assert(q == self.x2@ * ct@.r2) by (nonlinear_arith)
                requires
                    q == ct@.r2 * self.x2@,
            ;
        }
        ct.blinded_point.minus(
            &ct.random_point.times(&self.x1).plus(&ct.random_point2.times(&self.x2)),
        )
    }
}

/// A ciphertext.
#[derive(Clone, Copy, Debug, PartialEq, Eq)]
pub struct Ciphertext {
    pub random_point: Point,
    pub random_point2: Point,
    pub blinded_point: Point,
}

impl View for Ciphertext {
    type V = CtView;

    open spec fn view(&self) -> CtView {
        CtView {
            r1: self.random_point.log(),
            r2: self.random_point2.log(),
            b: self.blinded_point.log(),
        }
    }
}

impl Ciphertext {
    /// The ciphertext whose points are all neutral.
    pub fn zero() -> (r: Self)
        ensures
            r@ == ct_zero(),
    {
        Ciphertext {
            random_point: Point::identity(),
            random_point2: Point::identity(),
            blinded_point: Point::identity(),
        }
    }

    /// The sum, component by component.
    pub fn plus(&self, other: &Ciphertext) -> (r: Ciphertext)
        ensures
            r@ == ct_add(self@, other@),
    {
        Ciphertext {
            random_point: self.random_point.plus(&other.random_point),
            random_point2: self.random_point2.plus(&other.random_point2),
            blinded_point: self.blinded_point.plus(&other.blinded_point),
        }
    }

    /// The difference, component by component.
    pub fn minus(&self, other: &Ciphertext) -> (r: Ciphertext)
        ensures
            r@ == ct_sub(self@, other@),
    {
        Ciphertext {
            random_point: self.random_point.minus(&other.random_point),
            random_point2: self.random_point2.minus(&other.random_point2),
            blinded_point: self.blinded_point.minus(&other.blinded_point),
        }
    }

    /// The multiple, component by component.
    pub fn times(&self, k: &Scalar) -> (r: Ciphertext)
        ensures
            r@ == ct_scale(self@, k@),
    {
        Ciphertext {
            random_point: self.random_point.times(k),
            random_point2: self.random_point2.times(k),
            blinded_point: self.blinded_point.times(k),
        }
    }

    /// Takes a known plaintext out of the ciphertext.
    pub fn hom_sub(&self, m: &Point) -> (r: Ciphertext)
        ensures
            r@ == ct_strip(self@, m.log()),
    {
        Ciphertext {
            random_point: self.random_point,
            random_point2: self.random_point2,
            blinded_point: self.blinded_point.minus(m),
        }
    }

    /// Whether both are the same ciphertext.
    pub fn equals(&self, other: &Ciphertext) -> (r: bool)
        ensures
            r == (self@ == other@),
    {
        self.random_point.equals(&other.random_point) && self.random_point2.equals(
            &other.random_point2,
        ) && self.blinded_point.equals(&other.blinded_point)
    }

    /// Adds a point to the plaintext.
    pub fn hom_add(&self, m: &Point) -> (r: Ciphertext)
        ensures
            r@ == ct_put(self@, m.log()),
    {
        Ciphertext {
            random_point: self.random_point,
            random_point2: self.random_point2,
            blinded_point: self.blinded_point.plus(m),
        }
    }

    /// The sum of a list of ciphertexts.
    pub fn sum(cts: &[Ciphertext]) -> (r: Ciphertext)
        ensures
            r@ == ct_sum(ct_views(cts@)),
    {
        let mut out = Ciphertext::zero();
        let mut i: usize = 0;
        while i < cts.len()
            invariant
                i <= cts@.len(),
                out@ == ct_sum(ct_views(cts@.take(i as int))),
            decreases cts@.len() - i,
        {
            out = out.plus(&cts[i]);
            proof {
                let next = ct_views(cts@.take(i + 1));
                assert(next.drop_last() =~= ct_views(cts@.take(i as int)));
                assert(next.last() == cts@[i as int]@);
            }
            i += 1;
        }
        proof {
            assert(cts@.take(i as int) =~= cts@);
        }
        out
    }

    /// The sum in which the ciphertext at position `i`, counted from `skip`,
    /// counts `i + 1` times; the first `skip` ciphertexts do not count.
    pub fn ranked_sum(cts: &[Ciphertext], skip: usize) -> (r: Ciphertext)
        requires
            skip <= cts@.len(),
        ensures
            r@ == ct_ranked_sum(ct_views(cts@).skip(skip as int)),
    {
        let mut out = Ciphertext::zero();
        let mut i: usize = skip;
        let ghost all = ct_views(cts@);
        proof {
            assert(all.subrange(skip as int, skip as int) =~= Seq::<CtView>::empty());
        }
        while i < cts.len()
            invariant
                skip <= i <= cts@.len(),
                all == ct_views(cts@),
                out@ == ct_ranked_sum(all.subrange(skip as int, i as int)),
            decreases cts@.len() - i,
        {
            let weight = Scalar::from_u64((i - skip + 1) as u64);
            out = out.plus(&cts[i].times(&weight));
            proof {
                let next = all.subrange(skip as int, i + 1);
                assert(next.drop_last() =~= all.subrange(skip as int, i as int));
                assert(next.last() == cts@[i as int]@);
            }
            i += 1;
        }
        proof {
            assert(all.subrange(skip as int, i as int) =~= all.skip(skip as int));
        }
        out
    }

    /// The encoding: the three points, one after the other.
    pub fn to_bytes(&self) -> (r: Vec<u8>)
        ensures
            r@ == ct_encoding(self@),
            r@.len() == 96,
            r@ == self.random_point.encoding() + self.random_point2.encoding()
                + self.blinded_point.encoding(),
    {
        let r1 = self.random_point.to_bytes();
        let r2 = self.random_point2.to_bytes();
        let b = self.blinded_point.to_bytes();
        let mut out: Vec<u8> = Vec::new();
        out.extend_from_slice(r1.as_slice());
        out.extend_from_slice(r2.as_slice());
        out.extend_from_slice(b.as_slice());
        proof {
            assert(out@ =~= ct_encoding(self@));
        }
        out
    }
}

impl Ciphertext {
    /// Reads an encoding: 96 bytes that hold three points.
    pub fn from_bytes(bytes: &[u8]) -> (r: Option<Ciphertext>)
        ensures
            r.is_some() == (bytes@.len() == 96 && is_point_encoding(bytes@.subrange(0, 32))
                && is_point_encoding(bytes@.subrange(32, 64)) && is_point_encoding(
                bytes@.subrange(64, 96),
            )),
            r matches Some(ct) ==> ct.random_point.encoding() == bytes@.subrange(0, 32)
                && ct.random_point2.encoding() == bytes@.subrange(32, 64)
                && ct.blinded_point.encoding() == bytes@.subrange(64, 96),
    {
        if bytes.len() != 96 {
            return None;
        }
        let r1 = Point::from_bytes(vstd::slice::slice_subrange(bytes, 0, 32));
        let r2 = Point::from_bytes(vstd::slice::slice_subrange(bytes, 32, 64));
        let b = Point::from_bytes(vstd::slice::slice_subrange(bytes, 64, 96));
        match (r1, r2, b) {
            (Some(random_point), Some(random_point2), Some(blinded_point)) => Some(
                Ciphertext { random_point, random_point2, blinded_point },
            ),
            _ => None,
        }
    }
}

/// A ciphertext with the randomness that made it.
#[derive(Clone, Copy, Debug)]
pub struct ExtendedCiphertext {
    pub inner: Ciphertext,
    pub random_scalar: Scalar,
}

impl ExtendedCiphertext {
    /// Whether this encrypts `m` under `key` with the randomness it carries.
    pub open spec fn encrypts(self, key: CtView, m: int) -> bool {
        self.inner@ == ct_encrypt(key, m, self.random_scalar@)
    }

    /// Encrypts a point with fresh randomness.
    pub fn new(pk: &PublicKey, params: &ElGamalParams, value: &Point, rng: &mut StdRng) -> (r: Self)
        ensures
            r.encrypts(pk.key(*params), value.log()),
    {
        let r = Scalar::random(rng);
        pk.encrypt_with(params, value, &r)
    }

    /// Encrypts the neutral element with fresh randomness and adds `ct`.
    pub fn re_encrypt(ct: &Ciphertext, pk: &PublicKey, params: &ElGamalParams, rng: &mut StdRng) -> (r:
        Self)
        ensures
            r.inner@ == ct_add(ct_encrypt(pk.key(*params), 0, r.random_scalar@), ct@),
    {
        let zero = ExtendedCiphertext::new(pk, params, &Point::identity(), rng);
        ExtendedCiphertext { inner: zero.inner.plus(ct), random_scalar: zero.random_scalar }
    }
}

/// A lookup table of discrete logarithms.
#[verifier::external_body]
pub struct DlogTable {
    inner: DiscreteLogTable<RistrettoGroup>,
}

/// What a table holds: the logarithms that it was built for.
pub uninterp spec fn dlog_table_values(table: DlogTable) -> Set<u64>;

/// What a table for `values` answers for the point with logarithm `log`.
pub open spec fn table_lookup(values: Set<u64>, log: int) -> Option<u64> {
    if log == 0 {
        Some(0)
    } else if 0 < log <= u64::MAX && values.contains(log as u64) {
        Some(log as u64)
    } else {
        None
    }
}

impl DlogTable {
    /// Calls `DiscreteLogTable::new` of `dlog-sigma-primitives`: a table for
    /// the given logarithms.
    #[verifier::external_body]
    fn outside_new(values: Vec<u64>) -> (r: DlogTable)
        ensures
            dlog_table_values(r) == values@.to_set(),
    {
        DlogTable { inner: DiscreteLogTable::new(values) }
    }

    /// A table for the given logarithms.
    pub fn new(values: Vec<u64>) -> (r: DlogTable)
        ensures
            dlog_table_values(r) == values@.to_set(),
    {
        Self::outside_new(values)
    }

    /// Calls `DiscreteLogTable::get` of `dlog-sigma-primitives`: zero for the
    /// neutral element, else the logarithm where the table was built for it.
    #[verifier::external_body]
    fn outside_get(&self, point: &Point) -> (r: Option<u64>)
        ensures
            r == table_lookup(dlog_table_values(*self), point.log()),
    {
        self.inner.get(&RistrettoGroup::point_from_bytes(&point.to_bytes()).unwrap())
    }

    /// The logarithm of a point, where the table tells it.
    pub fn get(&self, point: &Point) -> (r: Option<u64>)
        ensures
            r == table_lookup(dlog_table_values(*self), point.log()),
    {
        self.outside_get(point)
    }
}

// Laws of the encryption.

/// Sums of encryptions encrypt the sum, with the sum of the randomness.
pub proof fn lemma_encrypt_add(key: CtView, m1: int, r1: int, m2: int, r2: int)
    ensures
        ct_add(ct_encrypt(key, m1, r1), ct_encrypt(key, m2, r2)) == ct_encrypt(
            key,
            m1 + m2,
            r1 + r2,
        ),
{
    lemma_red_add(key.r1 * r1, key.r1 * r2);
    lemma_red_add(key.r2 * r1, key.r2 * r2);
    lemma_red_add(key.b * r1 + m1, key.b * r2 + m2);
    assert(key.r1 * r1 + key.r1 * r2 == key.r1 * (r1 + r2)) by (nonlinear_arith);
    assert(key.r2 * r1 + key.r2 * r2 == key.r2 * (r1 + r2)) by (nonlinear_arith);
    assert(key.b * r1 + key.b * r2 == key.b * (r1 + r2)) by (nonlinear_arith);
}

/// Differences of encryptions encrypt the difference.
pub proof fn lemma_encrypt_sub(key: CtView, m1: int, r1: int, m2: int, r2: int)
    ensures
        ct_sub(ct_encrypt(key, m1, r1), ct_encrypt(key, m2, r2)) == ct_encrypt(
            key,
            m1 - m2,
            r1 - r2,
        ),
{
    lemma_red_sub(key.r1 * r1, key.r1 * r2);
    lemma_red_sub(key.r2 * r1, key.r2 * r2);
    lemma_red_sub(key.b * r1 + m1, key.b * r2 + m2);
    assert(key.r1 * r1 - key.r1 * r2 == key.r1 * (r1 - r2)) by (nonlinear_arith);
    assert(key.r2 * r1 - key.r2 * r2 == key.r2 * (r1 - r2)) by (nonlinear_arith);
    assert(key.b * r1 - key.b * r2 == key.b * (r1 - r2)) by (nonlinear_arith);
}

/// Multiples of an encryption encrypt the multiple.
pub proof fn lemma_encrypt_scale(key: CtView, m: int, r: int, k: int)
    ensures
        ct_scale(ct_encrypt(key, m, r), k) == ct_encrypt(key, m * k, r * k),
{
    lemma_red_mul(key.r1 * r, k);
    lemma_red_mul(key.r2 * r, k);
    lemma_red_mul(key.b * r + m, k);
    assert((key.r1 * r) * k == key.r1 * (r * k)) by (nonlinear_arith);
    assert((key.r2 * r) * k == key.r2 * (r * k)) by (nonlinear_arith);
    assert((key.b * r + m) * k == key.b * (r * k) + m * k) by (nonlinear_arith);
}

/// Taking a known plaintext out.
pub proof fn lemma_encrypt_strip(key: CtView, m: int, r: int, n: int)
    ensures
        ct_strip(ct_encrypt(key, m, r), n) == ct_encrypt(key, m - n, r),
{
    lemma_red_sub(key.b * r + m, n);
}

/// Plaintext and randomness count modulo the group order.
pub proof fn lemma_encrypt_red(key: CtView, m: int, r: int)
    ensures
        ct_encrypt(key, red(m), r) == ct_encrypt(key, m, r),
        ct_encrypt(key, m, red(r)) == ct_encrypt(key, m, r),
        ct_encrypt(key, red(m), red(r)) == ct_encrypt(key, m, r),
{
    lemma_red_mul(key.r1, r);
    lemma_red_mul(key.r2, r);
    lemma_red_mul(key.b, r);
    lemma_red_add(key.b * r, m);
    lemma_red_add(key.b * red(r), m);
}

/// Decryption gives back what was encrypted: under the public key of
/// `(x1, x2)`, whatever the randomness.
pub proof fn law_decrypt_encrypt(x1: int, x2: int, key: CtView, m: int, r: int)
    requires
        key.b == red(x1 * key.r1 + x2 * key.r2),
    ensures
        ct_decrypt(x1, x2, ct_encrypt(key, m, r)) == red(m),
{
    let p = x1 * key.r1 + x2 * key.r2;
    let ct = ct_encrypt(key, m, r);
    lemma_red_mul(x1, key.r1 * r);
    lemma_red_mul(x2, key.r2 * r);
    lemma_red_add(x1 * ct.r1, x2 * ct.r2);
    lemma_red_add(x1 * (key.r1 * r), x2 * (key.r2 * r));
    assert(x1 * (key.r1 * r) + x2 * (key.r2 * r) == p * r) by (nonlinear_arith)
        requires
            p == x1 * key.r1 + x2 * key.r2,
    ;
    assert(red(x1 * ct.r1 + x2 * ct.r2) == red(p * r));
    lemma_red_mul(p, r);
    lemma_red_add(key.b * r, m);
    lemma_red_add(p * r, m);
    assert(ct.b == red(p * r + m));
    lemma_red_sub(ct.b, x1 * ct.r1 + x2 * ct.r2);
    lemma_red_sub(p * r + m, p * r);
    lemma_red_sub(ct.b, p * r);
}

/// Decryption is a homomorphism.
pub proof fn law_decrypt_add(x1: int, x2: int, a: CtView, b: CtView)
    ensures
        ct_decrypt(x1, x2, ct_add(a, b)) == red(ct_decrypt(x1, x2, a) + ct_decrypt(x1, x2, b)),
{
    let s = ct_add(a, b);
    let pa = x1 * a.r1 + x2 * a.r2;
    let pb = x1 * b.r1 + x2 * b.r2;
    lemma_red_mul(x1, a.r1 + b.r1);
    lemma_red_mul(x2, a.r2 + b.r2);
    lemma_red_add(x1 * s.r1, x2 * s.r2);
    lemma_red_add(x1 * (a.r1 + b.r1), x2 * (a.r2 + b.r2));
    assert(x1 * (a.r1 + b.r1) + x2 * (a.r2 + b.r2) == pa + pb) by (nonlinear_arith)
        requires
            pa == x1 * a.r1 + x2 * a.r2,
            pb == x1 * b.r1 + x2 * b.r2,
    ;
    lemma_red_sub(s.b, x1 * s.r1 + x2 * s.r2);
    lemma_red_sub(a.b + b.b, pa + pb);
    lemma_red_sub(s.b, pa + pb);
    lemma_red_add(a.b - pa, b.b - pb);
}

/// Decryption respects differences.
pub proof fn law_decrypt_sub(x1: int, x2: int, a: CtView, b: CtView)
    ensures
        ct_decrypt(x1, x2, ct_sub(a, b)) == red(ct_decrypt(x1, x2, a) - ct_decrypt(x1, x2, b)),
{
    let s = ct_sub(a, b);
    let pa = x1 * a.r1 + x2 * a.r2;
    let pb = x1 * b.r1 + x2 * b.r2;
    lemma_red_mul(x1, a.r1 - b.r1);
    lemma_red_mul(x2, a.r2 - b.r2);
    lemma_red_add(x1 * s.r1, x2 * s.r2);
    lemma_red_add(x1 * (a.r1 - b.r1), x2 * (a.r2 - b.r2));
    assert(x1 * (a.r1 - b.r1) + x2 * (a.r2 - b.r2) == pa - pb) by (nonlinear_arith)
        requires
            pa == x1 * a.r1 + x2 * a.r2,
            pb == x1 * b.r1 + x2 * b.r2,
    ;
    lemma_red_sub(s.b, x1 * s.r1 + x2 * s.r2);
    lemma_red_sub(a.b - b.b, pa - pb);
    lemma_red_sub(s.b, pa - pb);
    lemma_red_sub(a.b - pa, b.b - pb);
}

/// Decryption respects multiples.
pub proof fn law_decrypt_scale(x1: int, x2: int, a: CtView, k: int)
    ensures
        ct_decrypt(x1, x2, ct_scale(a, k)) == red(ct_decrypt(x1, x2, a) * k),
{
    let s = ct_scale(a, k);
    let pa = x1 * a.r1 + x2 * a.r2;
    lemma_red_mul(x1, a.r1 * k);
    lemma_red_mul(x2, a.r2 * k);
    lemma_red_add(x1 * s.r1, x2 * s.r2);
    lemma_red_add(x1 * (a.r1 * k), x2 * (a.r2 * k));
    assert(x1 * (a.r1 * k) + x2 * (a.r2 * k) == pa * k) by (nonlinear_arith)
        requires
            pa == x1 * a.r1 + x2 * a.r2,
    ;
    lemma_red_sub(s.b, x1 * s.r1 + x2 * s.r2);
    lemma_red_sub(a.b * k, pa * k);
    lemma_red_sub(s.b, pa * k);
    lemma_red_mul(a.b - pa, k);
    assert((a.b - pa) * k == a.b * k - pa * k) by (nonlinear_arith);
}

/// Taking a known plaintext out changes what is decrypted by it.
pub proof fn law_decrypt_strip(x1: int, x2: int, a: CtView, m: int)
    ensures
        ct_decrypt(x1, x2, ct_strip(a, m)) == red(ct_decrypt(x1, x2, a) - m),
{
    let p = x1 * a.r1 + x2 * a.r2;
    lemma_red_sub(a.b - m, p);
    lemma_red_sub(a.b - p, m);
}

/// Re-encryption keeps the plaintext: adding an encryption of zero does not
/// change what a ciphertext decrypts to.
pub proof fn law_re_encrypt(x1: int, x2: int, key: CtView, ct: CtView, r: int)
    requires
        key.b == red(x1 * key.r1 + x2 * key.r2),
    ensures
        ct_decrypt(x1, x2, ct_add(ct_encrypt(key, 0, r), ct)) == ct_decrypt(x1, x2, ct),
{
    law_decrypt_add(x1, x2, ct_encrypt(key, 0, r), ct);
    law_decrypt_encrypt(x1, x2, key, 0, r);
    lemma_order();
    lemma_red_small(0);
    lemma_red_twice(ct.b - (x1 * ct.r1 + x2 * ct.r2));
}

} // verus!
