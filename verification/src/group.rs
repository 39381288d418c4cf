//! Points and scalars of the Ristretto group.
//!
//! The group is cyclic of prime order, so a point is known by its discrete
//! logarithm to the base of the standard generator.  Contracts speak of that
//! logarithm and of the integer value of a scalar; the values themselves are
//! the canonical 32-byte encodings.

use dlog_group::group::{GroupPoint, GroupScalar};
use dlog_group::ristretto::RistrettoGroup;
use rand::rngs::StdRng;
use vstd::prelude::*;

use crate::arith::{has_inverse, lemma_red_bounds, lemma_red_small, order, red};

verus! {

/// The random generator that every randomized operation draws from.
#[verifier::external_type_specification]
#[verifier::external_body]
pub struct ExStdRng(StdRng);

/// The encoding of the point `[k]G`: what `RistrettoGroup::point_to_bytes`
/// writes for it, with `G` the standard generator.
pub uninterp spec fn point_encoding(k: int) -> Seq<u8>;

/// Whether `bytes` is the encoding of some point.
pub open spec fn is_point_encoding(bytes: Seq<u8>) -> bool {
    exists|k: int| 0 <= k < order() && #[trigger] point_encoding(k) == bytes
}

/// The discrete logarithm of the point that `bytes` encodes.
pub open spec fn point_log(bytes: Seq<u8>) -> int {
    red(choose|k: int| 0 <= k < order() && #[trigger] point_encoding(k) == bytes)
}

/// The integer that `bytes` denotes, least significant byte first.
pub open spec fn le_value(bytes: Seq<u8>) -> int
    decreases bytes.len(),
{
    if bytes.len() == 0 {
        0
    } else {
        bytes[0] as int + 256 * le_value(bytes.skip(1))
    }
}

/// The 32 bytes that denote `v`, least significant byte first.
pub open spec fn scalar_encoding(v: int) -> Seq<u8> {
    choose|bytes: Seq<u8>| bytes.len() == 32 && #[trigger] le_value(bytes) == v
}

/// A point of the Ristretto group, in its canonical encoding.
#[derive(Clone, Copy, Debug, PartialEq, Eq, Hash)]
pub struct Point {
    bytes: [u8; 32],
}

impl Point {
    #[verifier::type_invariant]
    spec fn is_canonical(self) -> bool {
        is_point_encoding(self.bytes@)
    }

    /// The canonical encoding.
    pub closed spec fn encoding(self) -> Seq<u8> {
        self.bytes@
    }

    /// The discrete logarithm to the base of the standard generator.
    pub open spec fn log(self) -> int {
        point_log(self.encoding())
    }

    /// Calls `RistrettoGroup::generator`: the standard generator, whose
    /// logarithm is one.
    #[verifier::external_body]
    fn outside_generator() -> (r: Point)
        ensures
            r.log() == 1,
            r.encoding() == point_encoding(1),
    {
        let mut bytes = [0u8; 32];
        RistrettoGroup::point_to_bytes(&mut bytes, &RistrettoGroup::generator());
        Point { bytes }
    }

    /// The standard generator.
    pub fn generator() -> (r: Point)
        ensures
            r.log() == 1,
            r.encoding() == point_encoding(1),
    {
        Self::outside_generator()
    }

    /// Calls `RistrettoGroup::identity`: the neutral element, whose logarithm
    /// is zero.
    #[verifier::external_body]
    fn outside_identity() -> (r: Point)
        ensures
            r.log() == 0,
            r.encoding() == point_encoding(0),
    {
        let mut bytes = [0u8; 32];
        RistrettoGroup::point_to_bytes(&mut bytes, &RistrettoGroup::identity());
        Point { bytes }
    }

    /// The neutral element.
    pub fn identity() -> (r: Point)
        ensures
            r.log() == 0,
            r.encoding() == point_encoding(0),
    {
        Self::outside_identity()
    }

    /// Calls `RistrettoGroup::point_random`; nothing is claimed of the point
    /// but that it is one.
    #[verifier::external_body]
    fn outside_random(rng: &mut StdRng) -> (r: Point) {
        let mut bytes = [0u8; 32];
        RistrettoGroup::point_to_bytes(&mut bytes, &RistrettoGroup::point_random(rng));
        Point { bytes }
    }

    /// A random point.
    pub fn random(rng: &mut StdRng) -> (r: Point) {
        Self::outside_random(rng)
    }

    /// Calls `RistrettoGroup::point_from_bytes`, which accepts exactly the
    /// canonical encodings and decodes them.
    #[verifier::external_body]
    fn outside_from_bytes(bytes: &[u8]) -> (r: Option<Point>)
        ensures
            r.is_some() == is_point_encoding(bytes@),
            r matches Some(p) ==> p.encoding() == bytes@,
    {
        let point = RistrettoGroup::point_from_bytes(bytes)?;
        let mut bytes = [0u8; 32];
        RistrettoGroup::point_to_bytes(&mut bytes, &point);
        Some(Point { bytes })
    }

    /// Reads a canonical encoding.
    pub fn from_bytes(bytes: &[u8]) -> (r: Option<Point>)
        ensures
            r.is_some() == is_point_encoding(bytes@),
            r matches Some(p) ==> p.encoding() == bytes@,
    {
        Self::outside_from_bytes(bytes)
    }

    /// Calls the group addition of `RistrettoGroup`'s points: logarithms add.
    #[verifier::external_body]
    fn outside_plus(&self, other: &Point) -> (r: Point)
        ensures
            r.log() == red(self.log() + other.log()),
    {
        let a = RistrettoGroup::point_from_bytes(&self.bytes).unwrap();
        let b = RistrettoGroup::point_from_bytes(&other.bytes).unwrap();
        let mut bytes = [0u8; 32];
        RistrettoGroup::point_to_bytes(&mut bytes, &(a + &b));
        Point { bytes }
    }

    /// The sum of two points.
    pub fn plus(&self, other: &Point) -> (r: Point)
        ensures
            r.log() == red(self.log() + other.log()),
    {
        self.outside_plus(other)
    }

    /// Calls the group subtraction of `RistrettoGroup`'s points: logarithms
    /// subtract.
    #[verifier::external_body]
    fn outside_minus(&self, other: &Point) -> (r: Point)
        ensures
            r.log() == red(self.log() - other.log()),
    {
        let a = RistrettoGroup::point_from_bytes(&self.bytes).unwrap();
        let b = RistrettoGroup::point_from_bytes(&other.bytes).unwrap();
        let mut bytes = [0u8; 32];
        RistrettoGroup::point_to_bytes(&mut bytes, &(a - &b));
        Point { bytes }
    }

    /// The difference of two points.
    pub fn minus(&self, other: &Point) -> (r: Point)
        ensures
            r.log() == red(self.log() - other.log()),
    {
        self.outside_minus(other)
    }

    /// Calls the scalar multiplication of `RistrettoGroup`'s points: the
    /// logarithm is multiplied by the scalar.
    #[verifier::external_body]
    fn outside_times(&self, k: &Scalar) -> (r: Point)
        ensures
            r.log() == red(self.log() * k@),
    {
        let a = RistrettoGroup::point_from_bytes(&self.bytes).unwrap();
        let k = RistrettoGroup::scalar_from_bytes(&k.bytes).unwrap();
        let mut bytes = [0u8; 32];
        RistrettoGroup::point_to_bytes(&mut bytes, &(a * &k));
        Point { bytes }
    }

    /// The multiple of a point.
    pub fn times(&self, k: &Scalar) -> (r: Point)
        ensures
            r.log() == red(self.log() * k@),
    {
        self.outside_times(k)
    }

    /// The canonical encoding.
    pub fn to_bytes(&self) -> (r: [u8; 32])
        ensures
            r@ == self.encoding(),
            r@ == point_encoding(self.log()),
    {
        proof {
            use_type_invariant(self);
            self.lemma_encoding();
        }
        self.bytes
    }

    /// Whether the two points are equal.
    pub fn equals(&self, other: &Point) -> (r: bool)
        ensures
            r == (self.log() == other.log()),
            r == (self.encoding() == other.encoding()),
    {
        proof {
            use_type_invariant(self);
            use_type_invariant(other);
            self.lemma_encoding();
            other.lemma_encoding();
        }
        let r = same_bytes(&self.bytes, &other.bytes);
        proof {
            assert(r == (self.bytes@ == other.bytes@));
        }
        r
    }

    /// Whether this is the neutral element.
    pub fn is_identity(&self) -> (r: bool)
        ensures
            r == (self.log() == 0),
    {
        self.equals(&Point::identity())
    }

    /// A logarithm lies in `[0, order())`.
    pub proof fn lemma_bounds(self)
        ensures
            0 <= self.log() < order(),
    {
        lemma_red_bounds(choose|k: int| 0 <= k < order() && #[trigger] point_encoding(k)
            == self.encoding());
    }

    /// The encoding has 32 bytes; it is the one of the logarithm, and tells it.
    pub proof fn lemma_canonical(self)
        requires
            is_point_encoding(self.encoding()),
        ensures
            self.encoding().len() == 32,
            point_encoding(self.log()) == self.encoding(),
            point_log(point_encoding(self.log())) == self.log(),
    {
        self.lemma_encoding();
    }

    proof fn lemma_encoding(self)
        requires
            is_point_encoding(self.bytes@),
        ensures
            point_encoding(self.log()) == self.bytes@,
            0 <= self.log() < order(),
    {
        let k = choose|k: int| 0 <= k < order() && #[trigger] point_encoding(k) == self.bytes@;
        lemma_red_small(k);
    }
}

/// Whether two encodings hold the same bytes.
pub fn same_bytes(a: &[u8; 32], b: &[u8; 32]) -> (r: bool)
    ensures
        r == (a@ == b@),
{
    let mut i: usize = 0;
    while i < 32
        invariant
            i <= 32,
            forall|j: int| 0 <= j < i ==> a@[j] == b@[j],
        decreases 32 - i,
    {
        if a[i] != b[i] {
            return false;
        }
        i += 1;
    }
    proof {
        assert(a@ =~= b@);
    }
    true
}

/// A scalar modulo the group order, in its canonical little-endian encoding.
#[derive(Clone, Copy, Debug, PartialEq, Eq, Hash)]
pub struct Scalar {
    bytes: [u8; 32],
}

impl View for Scalar {
    type V = int;

    closed spec fn view(&self) -> int {
        red(le_value(self.bytes@))
    }
}

impl Scalar {
    #[verifier::type_invariant]
    spec fn is_canonical(self) -> bool {
        le_value(self.bytes@) < order()
    }

    /// Calls `RistrettoGroup::scalar_random`; nothing is claimed of the scalar
    /// but that it is one, and that it has an inverse unless it is zero, as every
    /// scalar of this group does.
    #[verifier::external_body]
    fn outside_random(rng: &mut StdRng) -> (r: Scalar)
        ensures
            r@ != 0 ==> has_inverse(r@),
    {
        let mut bytes = [0u8; 32];
        RistrettoGroup::scalar_to_bytes(&mut bytes, &RistrettoGroup::scalar_random(rng));
        Scalar { bytes }
    }

    /// A random scalar.
    pub fn random(rng: &mut StdRng) -> (r: Scalar)
        ensures
            r@ != 0 ==> has_inverse(r@),
    {
        Self::outside_random(rng)
    }

    /// Calls the conversion from `u64` of `RistrettoGroup`'s scalars.
    #[verifier::external_body]
    fn outside_from_u64(value: u64) -> (r: Scalar)
        ensures
            r@ == value,
    {
        let mut bytes = [0u8; 32];
        let value = <RistrettoGroup as GroupScalar>::Scalar::from(value);
        RistrettoGroup::scalar_to_bytes(&mut bytes, &value);
        Scalar { bytes }
    }

    /// The scalar of a number.
    pub fn from_u64(value: u64) -> (r: Scalar)
        ensures
            r@ == value,
    {
        Self::outside_from_u64(value)
    }

    /// Calls `RistrettoGroup::scalar_from_bytes`, which accepts exactly the
    /// 32-byte little-endian encodings of values below the group order, and
    /// panics on another length.
    #[verifier::external_body]
    fn outside_from_bytes(bytes: &[u8]) -> (r: Option<Scalar>)
        requires
            bytes@.len() == 32,
        ensures
            r.is_some() == (le_value(bytes@) < order()),
            r matches Some(s) ==> s@ == le_value(bytes@),
    {
        let scalar = RistrettoGroup::scalar_from_bytes(bytes)?;
        let mut bytes = [0u8; 32];
        RistrettoGroup::scalar_to_bytes(&mut bytes, &scalar);
        Some(Scalar { bytes })
    }

    /// Reads a canonical encoding of 32 bytes.
    pub fn from_bytes(bytes: &[u8]) -> (r: Option<Scalar>)
        requires
            bytes@.len() == 32,
        ensures
            r.is_some() == (le_value(bytes@) < order()),
            r matches Some(s) ==> s@ == le_value(bytes@),
    {
        Self::outside_from_bytes(bytes)
    }

    /// Calls the addition of `RistrettoGroup`'s scalars.
    #[verifier::external_body]
    fn outside_plus(&self, other: &Scalar) -> (r: Scalar)
        ensures
            r@ == red(self@ + other@),
    {
        let a = RistrettoGroup::scalar_from_bytes(&self.bytes).unwrap();
        let b = RistrettoGroup::scalar_from_bytes(&other.bytes).unwrap();
        let mut bytes = [0u8; 32];
        RistrettoGroup::scalar_to_bytes(&mut bytes, &(a + &b));
        Scalar { bytes }
    }

    /// The sum of two scalars.
    pub fn plus(&self, other: &Scalar) -> (r: Scalar)
        ensures
            r@ == red(self@ + other@),
    {
        self.outside_plus(other)
    }

    /// Calls the subtraction of `RistrettoGroup`'s scalars.
    #[verifier::external_body]
    fn outside_minus(&self, other: &Scalar) -> (r: Scalar)
        ensures
            r@ == red(self@ - other@),
    {
        let a = RistrettoGroup::scalar_from_bytes(&self.bytes).unwrap();
        let b = RistrettoGroup::scalar_from_bytes(&other.bytes).unwrap();
        let mut bytes = [0u8; 32];
        RistrettoGroup::scalar_to_bytes(&mut bytes, &(a - &b));
        Scalar { bytes }
    }

    /// The difference of two scalars.
    pub fn minus(&self, other: &Scalar) -> (r: Scalar)
        ensures
            r@ == red(self@ - other@),
    {
        self.outside_minus(other)
    }

    /// Calls the multiplication of `RistrettoGroup`'s scalars.
    #[verifier::external_body]
    fn outside_times(&self, other: &Scalar) -> (r: Scalar)
        ensures
            r@ == red(self@ * other@),
    {
        let a = RistrettoGroup::scalar_from_bytes(&self.bytes).unwrap();
        let b = RistrettoGroup::scalar_from_bytes(&other.bytes).unwrap();
        let mut bytes = [0u8; 32];
        RistrettoGroup::scalar_to_bytes(&mut bytes, &(a * &b));
        Scalar { bytes }
    }

    /// The product of two scalars.
    pub fn times(&self, other: &Scalar) -> (r: Scalar)
        ensures
            r@ == red(self@ * other@),
    {
        self.outside_times(other)
    }

    /// Calls `RistrettoGroup::scalar_inv`: the multiplicative inverse of a
    /// scalar that is not zero.
    #[verifier::external_body]
    fn outside_inverse(&self) -> (r: Scalar)
        ensures
            self@ != 0 ==> red(r@ * self@) == 1,
    {
        let a = RistrettoGroup::scalar_from_bytes(&self.bytes).unwrap();
        let mut bytes = [0u8; 32];
        RistrettoGroup::scalar_to_bytes(&mut bytes, &RistrettoGroup::scalar_inv(a));
        Scalar { bytes }
    }

    /// The multiplicative inverse of a scalar that is not zero.
    pub fn inverse(&self) -> (r: Scalar)
        ensures
            self@ != 0 ==> red(r@ * self@) == 1,
    {
        self.outside_inverse()
    }

    /// The canonical little-endian encoding.
    pub fn to_bytes(&self) -> (r: [u8; 32])
        ensures
            le_value(r@) == self@,
            r@ == scalar_encoding(self@),
    {
        proof {
            use_type_invariant(self);
            lemma_le_value(self.bytes@);
            lemma_red_small(le_value(self.bytes@));
            assert(self.bytes@.len() == 32 && le_value(self.bytes@) == self@);
            lemma_le_injective(self.bytes@, scalar_encoding(self@));
        }
        self.bytes
    }

    /// Whether the two scalars are equal.
    pub fn equals(&self, other: &Scalar) -> (r: bool)
        ensures
            r == (self@ == other@),
    {
        proof {
            use_type_invariant(self);
            use_type_invariant(other);
            lemma_le_value(self.bytes@);
            lemma_le_value(other.bytes@);
            lemma_red_small(le_value(self.bytes@));
            lemma_red_small(le_value(other.bytes@));
            if self@ == other@ {
                lemma_le_injective(self.bytes@, other.bytes@);
            }
        }
        same_bytes(&self.bytes, &other.bytes)
    }

    /// A scalar lies in `[0, order())`.
    pub proof fn lemma_bounds(self)
        ensures
            0 <= self@ < order(),
    {
        lemma_red_bounds(le_value(self.bytes@));
    }
}

/// Two little-endian encodings of one length and one value are equal.
pub proof fn lemma_le_injective(a: Seq<u8>, b: Seq<u8>)
    requires
        a.len() == b.len(),
        le_value(a) == le_value(b),
    ensures
        a == b,
    decreases a.len(),
{
    if a.len() > 0 {
        let a0 = a[0] as int;
        let b0 = b[0] as int;
        let va = le_value(a.skip(1));
        let vb = le_value(b.skip(1));
        assert(a0 + 256 * va == b0 + 256 * vb);
        assert(a0 == b0 && va == vb);
        lemma_le_injective(a.skip(1), b.skip(1));
        assert(a =~= seq![a[0]] + a.skip(1));
        assert(b =~= seq![b[0]] + b.skip(1));
    }
    assert(a =~= b);
}

/// A little-endian value is not negative.
pub proof fn lemma_le_value(bytes: Seq<u8>)
    ensures
        0 <= le_value(bytes),
    decreases bytes.len(),
{
    if bytes.len() > 0 {
        lemma_le_value(bytes.skip(1));
    }
}

} // verus!
