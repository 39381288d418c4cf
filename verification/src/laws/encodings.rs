//! What an encoding holds can be read off it.

use vstd::prelude::*;
use vstd::utf8::{encode_utf8, encode_utf8_decode_utf8};

use crate::api::server::context::{context_encoding, ManifestView};
use crate::elgamal::{Ciphertext, CtView, ElGamalParams, PublicKey};
use crate::encoding::{
    be_bytes, cbor_array, cbor_bytes, cbor_ciphertext, cbor_head, cbor_list, cbor_number, cbor_rows,
    cbor_sizes, cbor_text, field, joined,
};
use crate::group::{is_point_encoding, point_encoding, point_log};
use crate::protocol::keys::{ElectionParams, ElectionPublicKey};
use crate::protocol::vote::auth_proof::EncrAuthValues;
use crate::protocol::vote::ballot_encoding::{codes_encoding, credential_encoding};
use crate::protocol::vote::cai::EncrValuesCAI;
use crate::protocol::vote::choice::{ChoiceParameters, EncrChoiceView};
use crate::protocol::vote::vote::VoteView;

verus! {

/// The number that bytes denote, most significant byte first.
pub open spec fn be_value(bytes: Seq<u8>) -> int
    decreases bytes.len(),
{
    if bytes.len() == 0 {
        0
    } else {
        256 * be_value(bytes.drop_last()) + bytes.last()
    }
}

/// How many numbers have so many bytes.
pub open spec fn byte_limit(len: nat) -> int
    decreases len,
{
    if len == 0 {
        1
    } else {
        256 * byte_limit((len - 1) as nat)
    }
}

/// Written with enough bytes, a number can be read again.
pub proof fn law_bytes_tell_the_number(number: int, len: nat)
    requires
        0 <= number < byte_limit(len),
    ensures
        be_bytes(number, len).len() == len,
        be_value(be_bytes(number, len)) == number,
    decreases len,
{
    if len > 0 {
        law_bytes_tell_the_number(number / 256, (len - 1) as nat);
        let all = be_bytes(number, len);
        assert(all.drop_last() =~= be_bytes(number / 256, (len - 1) as nat));
    }
}

/// The head of an item tells its major type and its number: a number below 24 in
/// the first byte, a greater one in the 1, 2, 4 or 8 bytes after it, and never in
/// more than it needs.
pub proof fn law_head(major: int, number: int)
    requires
        0 <= major < 8,
        0 <= number <= u64::MAX,
    ensures
        ({
            let head = cbor_head(major, number);
            let low = head[0] % 32;
            &&& head[0] / 32 == major
            &&& number < 24 ==> head.len() == 1 && low == number
            &&& 24 <= number <= u8::MAX ==> head.len() == 2 && low == 24
            &&& u8::MAX < number <= u16::MAX ==> head.len() == 3 && low == 25
            &&& u16::MAX < number <= u32::MAX ==> head.len() == 5 && low == 26
            &&& u32::MAX < number ==> head.len() == 9 && low == 27
            &&& number >= 24 ==> be_value(head.skip(1)) == number
        }),
{
    reveal_with_fuel(byte_limit, 9);
    let head = cbor_head(major, number);
    if number < 24 {
    } else if number < 0x100 {
        law_bytes_tell_the_number(number, 1);
        assert(head.skip(1) =~= be_bytes(number, 1));
    } else if number < 0x1_0000 {
        law_bytes_tell_the_number(number, 2);
        assert(head.skip(1) =~= be_bytes(number, 2));
    } else if number < 0x1_0000_0000 {
        law_bytes_tell_the_number(number, 4);
        assert(head.skip(1) =~= be_bytes(number, 4));
    } else {
        law_bytes_tell_the_number(number, 8);
        assert(head.skip(1) =~= be_bytes(number, 8));
    }
}

/// Equal lists have equal parts.
proof fn lemma_cut(p: Seq<u8>, x: Seq<u8>, q: Seq<u8>, y: Seq<u8>)
    requires
        p + x == q + y,
        p.len() == q.len(),
    ensures
        p == q,
        x == y,
{
    assert(p =~= (p + x).take(p.len() as int));
    assert(q =~= (q + y).take(q.len() as int));
    assert(x =~= (p + x).skip(p.len() as int));
    assert(y =~= (q + y).skip(q.len() as int));
}

/// Parts, one after the other, taken from the front.
proof fn lemma_two(t: Seq<u8>, a: Seq<u8>, b: Seq<u8>, x: Seq<u8>)
    ensures
        t + a + b + x == t + (a + (b + x)),
{
    assert(t + a + b + x =~= t + (a + (b + x)));
}

proof fn lemma_three(t: Seq<u8>, a: Seq<u8>, b: Seq<u8>, c: Seq<u8>, x: Seq<u8>)
    ensures
        t + a + b + c + x == t + (a + (b + (c + x))),
{
    assert(t + a + b + c + x =~= t + (a + (b + (c + x))));
}

proof fn lemma_four(t: Seq<u8>, a: Seq<u8>, b: Seq<u8>, c: Seq<u8>, d: Seq<u8>, x: Seq<u8>)
    ensures
        t + a + b + c + d + x == t + (a + (b + (c + (d + x)))),
{
    lemma_three(t, a, b, c, d + x);
    assert(t + a + b + c + d + x =~= t + a + b + c + (d + x));
}

proof fn lemma_five(
    t: Seq<u8>,
    a: Seq<u8>,
    b: Seq<u8>,
    c: Seq<u8>,
    d: Seq<u8>,
    f: Seq<u8>,
    x: Seq<u8>,
)
    ensures
        t + a + b + c + d + f + x == t + (a + (b + (c + (d + (f + x))))),
{
    lemma_four(t, a, b, c, d, f + x);
    assert(t + a + b + c + d + f + x =~= t + a + b + c + d + (f + x));
}

proof fn lemma_nothing(a: Seq<u8>)
    ensures
        a + Seq::<u8>::empty() == a,
{
    assert(a + Seq::<u8>::empty() =~= a);
}

/// No head is the beginning of another.
proof fn lemma_head_ends(major: int, a: int, x: Seq<u8>, b: int, y: Seq<u8>)
    requires
        0 <= major < 8,
        0 <= a <= u64::MAX,
        0 <= b <= u64::MAX,
        cbor_head(major, a) + x == cbor_head(major, b) + y,
    ensures
        a == b,
        x == y,
{
    law_head(major, a);
    law_head(major, b);
    let (p, q) = (cbor_head(major, a), cbor_head(major, b));
    assert((p + x)[0] == p[0] && (q + y)[0] == q[0]);
    assert(p.len() == q.len());
    lemma_cut(p, x, q, y);
}

/// A field with the same name ends where its value ends.
proof fn lemma_field(name: Seq<char>, v: Seq<u8>, x: Seq<u8>, w: Seq<u8>, y: Seq<u8>)
    requires
        field(name, v) + x == field(name, w) + y,
    ensures
        v + x == w + y,
{
    let n = cbor_text(name);
    assert(field(name, v) + x =~= n + (v + x));
    assert(field(name, w) + y =~= n + (w + y));
    lemma_cut(n, v + x, n, w + y);
}

proof fn lemma_text(a: Seq<char>, x: Seq<u8>, b: Seq<char>, y: Seq<u8>)
    requires
        cbor_text(a) + x == cbor_text(b) + y,
        encode_utf8(a).len() <= u64::MAX,
        encode_utf8(b).len() <= u64::MAX,
    ensures
        a == b,
        x == y,
{
    let (u, v) = (encode_utf8(a), encode_utf8(b));
    assert(cbor_text(a) + x =~= cbor_head(3, u.len() as int) + (u + x));
    assert(cbor_text(b) + y =~= cbor_head(3, v.len() as int) + (v + y));
    lemma_head_ends(3, u.len() as int, u + x, v.len() as int, v + y);
    lemma_cut(u, x, v, y);
    encode_utf8_decode_utf8(a);
    encode_utf8_decode_utf8(b);
}

/// Whether a logarithm is that of a point: the point's encoding has 32 bytes and
/// tells it.
pub open spec fn of_point(k: int) -> bool {
    point_encoding(k).len() == 32 && point_log(point_encoding(k)) == k
}

/// Whether the components are logarithms of points.
pub open spec fn of_points(ct: CtView) -> bool {
    of_point(ct.r1) && of_point(ct.r2) && of_point(ct.b)
}

/// A ciphertext of points has logarithms of points.
pub proof fn law_ciphertext_of_points(ct: Ciphertext)
    requires
        is_point_encoding(ct.random_point.encoding()),
        is_point_encoding(ct.random_point2.encoding()),
        is_point_encoding(ct.blinded_point.encoding()),
    ensures
        of_points(ct@),
{
    ct.random_point.lemma_canonical();
    ct.random_point2.lemma_canonical();
    ct.blinded_point.lemma_canonical();
}

proof fn lemma_point(a: int, x: Seq<u8>, b: int, y: Seq<u8>)
    requires
        of_point(a),
        of_point(b),
        cbor_bytes(point_encoding(a)) + x == cbor_bytes(point_encoding(b)) + y,
    ensures
        a == b,
        x == y,
{
    lemma_cut(cbor_bytes(point_encoding(a)), x, cbor_bytes(point_encoding(b)), y);
    let h = cbor_head(2, 32);
    lemma_cut(h, point_encoding(a), h, point_encoding(b));
}

proof fn lemma_ciphertext(a: CtView, x: Seq<u8>, b: CtView, y: Seq<u8>)
    requires
        of_points(a),
        of_points(b),
        cbor_ciphertext(a) + x == cbor_ciphertext(b) + y,
    ensures
        a == b,
        x == y,
{
    let t = seq![0xa3u8];
    let (n1, n2, n3) = ("random_point"@, "random_point2"@, "blinded_point"@);
    let (a1, b1) = (cbor_bytes(point_encoding(a.r1)), cbor_bytes(point_encoding(b.r1)));
    let (a2, b2) = (cbor_bytes(point_encoding(a.r2)), cbor_bytes(point_encoding(b.r2)));
    let (a3, b3) = (cbor_bytes(point_encoding(a.b)), cbor_bytes(point_encoding(b.b)));
    let (x3, y3) = (field(n3, a3) + x, field(n3, b3) + y);
    let (x2, y2) = (field(n2, a2) + x3, field(n2, b2) + y3);
    let (x1, y1) = (field(n1, a1) + x2, field(n1, b1) + y2);
    assert(cbor_ciphertext(a) + x =~= t + x1);
    assert(cbor_ciphertext(b) + y =~= t + y1);
    lemma_cut(t, x1, t, y1);
    lemma_field(n1, a1, x2, b1, y2);
    lemma_point(a.r1, x2, b.r1, y2);
    lemma_field(n2, a2, x3, b2, y3);
    lemma_point(a.r2, x3, b.r2, y3);
    lemma_field(n3, a3, x, b3, y);
    lemma_point(a.b, x, b.b, y);
}

/// Whether an item of the one list, followed by anything, is never an item of the
/// other, followed by something else.
spec fn apart(a: Seq<Seq<u8>>, b: Seq<Seq<u8>>) -> bool {
    forall|i: int, p: Seq<u8>, q: Seq<u8>|
        0 <= i < a.len() && #[trigger] (a[i] + p) == #[trigger] (b[i] + q) ==> a[i] == b[i]
}

proof fn lemma_joined(a: Seq<Seq<u8>>, x: Seq<u8>, b: Seq<Seq<u8>>, y: Seq<u8>)
    requires
        a.len() == b.len(),
        apart(a, b),
        joined(a) + x == joined(b) + y,
    ensures
        a == b,
        x == y,
    decreases a.len(),
{
    if a.len() == 0 {
        assert(joined(a) + x =~= x);
        assert(joined(b) + y =~= y);
        assert(a =~= b);
    } else {
        let (c, d) = (a.drop_last(), b.drop_last());
        let (x1, y1) = (a.last() + x, b.last() + y);
        assert(joined(a) + x =~= joined(c) + x1);
        assert(joined(b) + y =~= joined(d) + y1);
        assert(apart(c, d)) by {
            assert forall|i: int, p: Seq<u8>, q: Seq<u8>|
                0 <= i < c.len() && #[trigger] (c[i] + p) == #[trigger] (d[i] + q) implies c[i]
                == d[i] by {
                assert(a[i] + p == b[i] + q);
            }
        }
        lemma_joined(c, x1, d, y1);
        let k = a.len() - 1;
        assert(a[k] + x == b[k] + y);
        lemma_cut(a.last(), x, b.last(), y);
        assert(a =~= c.push(a.last()));
        assert(b =~= d.push(b.last()));
    }
}

proof fn lemma_array(a: Seq<Seq<u8>>, x: Seq<u8>, b: Seq<Seq<u8>>, y: Seq<u8>)
    requires
        a.len() <= u64::MAX,
        b.len() <= u64::MAX,
        a.len() == b.len() ==> apart(a, b),
        cbor_array(a) + x == cbor_array(b) + y,
    ensures
        a == b,
        x == y,
{
    assert(cbor_array(a) + x =~= cbor_head(4, a.len() as int) + (joined(a) + x));
    assert(cbor_array(b) + y =~= cbor_head(4, b.len() as int) + (joined(b) + y));
    lemma_head_ends(4, a.len() as int, joined(a) + x, b.len() as int, joined(b) + y);
    lemma_joined(a, x, b, y);
}

proof fn lemma_sizes(a: Seq<usize>, x: Seq<u8>, b: Seq<usize>, y: Seq<u8>)
    requires
        a.len() <= u64::MAX,
        b.len() <= u64::MAX,
        cbor_sizes(a) + x == cbor_sizes(b) + y,
    ensures
        a == b,
        x == y,
{
    let s = a.map_values(|n: usize| cbor_number(n as int));
    let t = b.map_values(|n: usize| cbor_number(n as int));
    if a.len() == b.len() {
        assert forall|i: int, p: Seq<u8>, q: Seq<u8>|
            0 <= i < s.len() && #[trigger] (s[i] + p) == #[trigger] (t[i] + q) implies s[i] == t[i] by {
            lemma_head_ends(0, a[i] as int, p, b[i] as int, q);
        }
    }
    lemma_array(s, x, t, y);
    assert forall|i: int| 0 <= i < a.len() implies a[i] == b[i] by {
        assert(s[i] == t[i]);
        assert(s[i] + seq![] == t[i] + seq![]);
        lemma_head_ends(0, a[i] as int, seq![], b[i] as int, seq![]);
    }
    assert(a.len() == s.len() && b.len() == t.len());
    assert(a =~= b);
}

/// Whether there are few enough ciphertexts, and all are of points.
pub open spec fn all_of_points(cts: Seq<CtView>) -> bool {
    &&& cts.len() <= u64::MAX
    &&& forall|i: int| 0 <= i < cts.len() ==> of_points(#[trigger] cts[i])
}

proof fn lemma_list(a: Seq<CtView>, x: Seq<u8>, b: Seq<CtView>, y: Seq<u8>)
    requires
        all_of_points(a),
        all_of_points(b),
        cbor_list(a) + x == cbor_list(b) + y,
    ensures
        a == b,
        x == y,
{
    let s = a.map_values(|ct: CtView| cbor_ciphertext(ct));
    let t = b.map_values(|ct: CtView| cbor_ciphertext(ct));
    if a.len() == b.len() {
        assert forall|i: int, p: Seq<u8>, q: Seq<u8>|
            0 <= i < s.len() && #[trigger] (s[i] + p) == #[trigger] (t[i] + q) implies s[i] == t[i] by {
            assert(of_points(a[i]) && of_points(b[i]));
            lemma_ciphertext(a[i], p, b[i], q);
        }
    }
    lemma_array(s, x, t, y);
    assert(a.len() == s.len() && b.len() == t.len());
    assert forall|i: int| 0 <= i < a.len() implies a[i] == b[i] by {
        assert(of_points(a[i]) && of_points(b[i]));
        assert(s[i] == t[i]);
        lemma_ciphertext(a[i], seq![], b[i], seq![]);
    }
    assert(a =~= b);
}

proof fn lemma_rows(a: Seq<Seq<CtView>>, x: Seq<u8>, b: Seq<Seq<CtView>>, y: Seq<u8>)
    requires
        a.len() <= u64::MAX,
        b.len() <= u64::MAX,
        forall|i: int| 0 <= i < a.len() ==> all_of_points(#[trigger] a[i]),
        forall|i: int| 0 <= i < b.len() ==> all_of_points(#[trigger] b[i]),
        cbor_rows(a) + x == cbor_rows(b) + y,
    ensures
        a == b,
        x == y,
{
    let s = a.map_values(|row: Seq<CtView>| cbor_list(row));
    let t = b.map_values(|row: Seq<CtView>| cbor_list(row));
    if a.len() == b.len() {
        assert forall|i: int, p: Seq<u8>, q: Seq<u8>|
            0 <= i < s.len() && #[trigger] (s[i] + p) == #[trigger] (t[i] + q) implies s[i] == t[i] by {
            lemma_list(a[i], p, b[i], q);
        }
    }
    lemma_array(s, x, t, y);
    assert(a.len() == s.len() && b.len() == t.len());
    assert forall|i: int| 0 <= i < a.len() implies a[i] == b[i] by {
        assert(s[i] == t[i]);
        lemma_list(a[i], seq![], b[i], seq![]);
    }
    assert(a =~= b);
}

/// Whether the ciphertexts of an encrypted choice are all of points.
pub open spec fn choice_of_points(v: EncrChoiceView) -> bool {
    &&& all_of_points(v.l1)
    &&& v.l2.len() <= u64::MAX
    &&& forall|i: int| 0 <= i < v.l2.len() ==> all_of_points(#[trigger] v.l2[i])
}

proof fn lemma_choice(a: EncrChoiceView, x: Seq<u8>, b: EncrChoiceView, y: Seq<u8>)
    requires
        choice_of_points(a),
        choice_of_points(b),
        a.encoding() + x == b.encoding() + y,
    ensures
        a == b,
        x == y,
{
    let t = seq![0xa2u8];
    let (x2, y2) = (field("l2"@, cbor_rows(a.l2)) + x, field("l2"@, cbor_rows(b.l2)) + y);
    let (x1, y1) = (field("l1"@, cbor_list(a.l1)) + x2, field("l1"@, cbor_list(b.l1)) + y2);
    assert(a.encoding() + x =~= t + x1);
    assert(b.encoding() + y =~= t + y1);
    lemma_cut(t, x1, t, y1);
    lemma_field("l1"@, cbor_list(a.l1), x2, cbor_list(b.l1), y2);
    lemma_list(a.l1, x2, b.l1, y2);
    lemma_field("l2"@, cbor_rows(a.l2), x, cbor_rows(b.l2), y);
    lemma_rows(a.l2, x, b.l2, y);
}

/// Different encrypted choices have different encodings.
pub proof fn law_choice_encoding_binds(a: EncrChoiceView, b: EncrChoiceView)
    requires
        choice_of_points(a),
        choice_of_points(b),
        a.encoding() == b.encoding(),
    ensures
        a == b,
{
    lemma_choice(a, seq![], b, seq![]);
}

proof fn lemma_auth(a: VoteView, x: Seq<u8>, b: VoteView, y: Seq<u8>)
    requires
        of_points(a.a) && of_points(a.ar) && of_points(a.g3x),
        of_points(b.a) && of_points(b.ar) && of_points(b.g3x),
        a.auth_encoding() + x == b.auth_encoding() + y,
    ensures
        a.a == b.a,
        a.ar == b.ar,
        a.g3x == b.g3x,
{
    let t = seq![0xa3u8];
    let (a1, b1) = (cbor_ciphertext(a.a), cbor_ciphertext(b.a));
    let (a2, b2) = (cbor_ciphertext(a.ar), cbor_ciphertext(b.ar));
    let (a3, b3) = (cbor_ciphertext(a.g3x), cbor_ciphertext(b.g3x));
    let (x3, y3) = (field("g3x_enc"@, a3) + x, field("g3x_enc"@, b3) + y);
    let (x2, y2) = (field("Ar_enc"@, a2) + x3, field("Ar_enc"@, b2) + y3);
    let (x1, y1) = (field("A_enc"@, a1) + x2, field("A_enc"@, b1) + y2);
    lemma_three(t, field("A_enc"@, a1), field("Ar_enc"@, a2), field("g3x_enc"@, a3), x);
    lemma_three(t, field("A_enc"@, b1), field("Ar_enc"@, b2), field("g3x_enc"@, b3), y);
    lemma_cut(t, x1, t, y1);
    lemma_field("A_enc"@, a1, x2, b1, y2);
    lemma_ciphertext(a.a, x2, b.a, y2);
    lemma_field("Ar_enc"@, a2, x3, b2, y3);
    lemma_ciphertext(a.ar, x3, b.ar, y3);
    lemma_field("g3x_enc"@, a3, x, b3, y);
    lemma_ciphertext(a.g3x, x, b.g3x, y);
}

/// Different votes have different encodings: choice and credential are read off.
pub proof fn law_vote_encoding_binds(a: VoteView, b: VoteView)
    requires
        choice_of_points(a.choice),
        choice_of_points(b.choice),
        of_points(a.a) && of_points(a.ar) && of_points(a.g3x),
        of_points(b.a) && of_points(b.ar) && of_points(b.g3x),
        a.encoding() == b.encoding(),
    ensures
        a.choice == b.choice,
        a.a == b.a,
        a.ar == b.ar,
        a.g3x == b.g3x,
{
    let t = seq![0xa2u8];
    let e = Seq::<u8>::empty();
    let (a1, b1) = (a.choice.encoding(), b.choice.encoding());
    let (a2, b2) = (a.auth_encoding(), b.auth_encoding());
    let (x2, y2) = (field("auth"@, a2) + e, field("auth"@, b2) + e);
    let (x1, y1) = (field("choice"@, a1) + x2, field("choice"@, b1) + y2);
    lemma_nothing(a.encoding());
    lemma_nothing(b.encoding());
    lemma_two(t, field("choice"@, a1), field("auth"@, a2), e);
    lemma_two(t, field("choice"@, b1), field("auth"@, b2), e);
    lemma_cut(t, x1, t, y1);
    lemma_field("choice"@, a1, x2, b1, y2);
    lemma_choice(a.choice, x2, b.choice, y2);
    lemma_field("auth"@, a2, e, b2, e);
    lemma_auth(a, e, b, e);
}

/// Different encrypted codes have different encodings.
pub proof fn law_codes_encoding_binds(a: EncrValuesCAI, b: EncrValuesCAI)
    requires
        of_points(a.l1_code_enc@) && of_points(a.l1_sum_enc@),
        of_points(a.l2_code_enc@) && of_points(a.l2_sum_enc@),
        of_points(b.l1_code_enc@) && of_points(b.l1_sum_enc@),
        of_points(b.l2_code_enc@) && of_points(b.l2_sum_enc@),
        codes_encoding(a) == codes_encoding(b),
    ensures
        a.l1_code_enc@ == b.l1_code_enc@,
        a.l1_sum_enc@ == b.l1_sum_enc@,
        a.l2_code_enc@ == b.l2_code_enc@,
        a.l2_sum_enc@ == b.l2_sum_enc@,
{
    let t = seq![0xa4u8];
    let e = Seq::<u8>::empty();
    let (a1, b1) = (cbor_ciphertext(a.l1_code_enc@), cbor_ciphertext(b.l1_code_enc@));
    let (a2, b2) = (cbor_ciphertext(a.l1_sum_enc@), cbor_ciphertext(b.l1_sum_enc@));
    let (a3, b3) = (cbor_ciphertext(a.l2_code_enc@), cbor_ciphertext(b.l2_code_enc@));
    let (a4, b4) = (cbor_ciphertext(a.l2_sum_enc@), cbor_ciphertext(b.l2_sum_enc@));
    let (x4, y4) = (field("l2_sum_enc"@, a4) + e, field("l2_sum_enc"@, b4) + e);
    let (x3, y3) = (field("l2_code_enc"@, a3) + x4, field("l2_code_enc"@, b3) + y4);
    let (x2, y2) = (field("l1_sum_enc"@, a2) + x3, field("l1_sum_enc"@, b2) + y3);
    let (x1, y1) = (field("l1_code_enc"@, a1) + x2, field("l1_code_enc"@, b1) + y2);
    lemma_nothing(codes_encoding(a));
    lemma_nothing(codes_encoding(b));
    lemma_four(
        t,
        field("l1_code_enc"@, a1),
        field("l1_sum_enc"@, a2),
        field("l2_code_enc"@, a3),
        field("l2_sum_enc"@, a4),
        e,
    );
    lemma_four(
        t,
        field("l1_code_enc"@, b1),
        field("l1_sum_enc"@, b2),
        field("l2_code_enc"@, b3),
        field("l2_sum_enc"@, b4),
        e,
    );
    lemma_cut(t, x1, t, y1);
    lemma_field("l1_code_enc"@, a1, x2, b1, y2);
    lemma_ciphertext(a.l1_code_enc@, x2, b.l1_code_enc@, y2);
    lemma_field("l1_sum_enc"@, a2, x3, b2, y3);
    lemma_ciphertext(a.l1_sum_enc@, x3, b.l1_sum_enc@, y3);
    lemma_field("l2_code_enc"@, a3, x4, b3, y4);
    lemma_ciphertext(a.l2_code_enc@, x4, b.l2_code_enc@, y4);
    lemma_field("l2_sum_enc"@, a4, e, b4, e);
    lemma_ciphertext(a.l2_sum_enc@, e, b.l2_sum_enc@, e);
}

/// Different encrypted credentials have different encodings.
pub proof fn law_credential_encoding_binds(a: EncrAuthValues, b: EncrAuthValues)
    requires
        of_point(a.B.log()) && of_point(b.B.log()),
        of_points(a.A_enc@) && of_points(a.Ar_enc@) && of_points(a.g3x_enc@) && of_points(a.ox_enc@),
        of_points(b.A_enc@) && of_points(b.Ar_enc@) && of_points(b.g3x_enc@) && of_points(b.ox_enc@),
        credential_encoding(a) == credential_encoding(b),
    ensures
        a.B.log() == b.B.log(),
        a.A_enc@ == b.A_enc@,
        a.Ar_enc@ == b.Ar_enc@,
        a.g3x_enc@ == b.g3x_enc@,
        a.ox_enc@ == b.ox_enc@,
{
    let t = seq![0xa5u8];
    let e = Seq::<u8>::empty();
    let (a0, b0) = (cbor_bytes(point_encoding(a.B.log())), cbor_bytes(point_encoding(b.B.log())));
    let (a1, b1) = (cbor_ciphertext(a.A_enc@), cbor_ciphertext(b.A_enc@));
    let (a2, b2) = (cbor_ciphertext(a.Ar_enc@), cbor_ciphertext(b.Ar_enc@));
    let (a3, b3) = (cbor_ciphertext(a.g3x_enc@), cbor_ciphertext(b.g3x_enc@));
    let (a4, b4) = (cbor_ciphertext(a.ox_enc@), cbor_ciphertext(b.ox_enc@));
    let (x4, y4) = (field("ox_enc"@, a4) + e, field("ox_enc"@, b4) + e);
    let (x3, y3) = (field("g3x_enc"@, a3) + x4, field("g3x_enc"@, b3) + y4);
    let (x2, y2) = (field("Ar_enc"@, a2) + x3, field("Ar_enc"@, b2) + y3);
    let (x1, y1) = (field("A_enc"@, a1) + x2, field("A_enc"@, b1) + y2);
    let (x0, y0) = (field("B"@, a0) + x1, field("B"@, b0) + y1);
    lemma_nothing(credential_encoding(a));
    lemma_nothing(credential_encoding(b));
    lemma_five(
        t,
        field("B"@, a0),
        field("A_enc"@, a1),
        field("Ar_enc"@, a2),
        field("g3x_enc"@, a3),
        field("ox_enc"@, a4),
        e,
    );
    lemma_five(
        t,
        field("B"@, b0),
        field("A_enc"@, b1),
        field("Ar_enc"@, b2),
        field("g3x_enc"@, b3),
        field("ox_enc"@, b4),
        e,
    );
    lemma_cut(t, x0, t, y0);
    lemma_field("B"@, a0, x1, b0, y1);
    lemma_point(a.B.log(), x1, b.B.log(), y1);
    lemma_field("A_enc"@, a1, x2, b1, y2);
    lemma_ciphertext(a.A_enc@, x2, b.A_enc@, y2);
    lemma_field("Ar_enc"@, a2, x3, b2, y3);
    lemma_ciphertext(a.Ar_enc@, x3, b.Ar_enc@, y3);
    lemma_field("g3x_enc"@, a3, x4, b3, y4);
    lemma_ciphertext(a.g3x_enc@, x4, b.g3x_enc@, y4);
    lemma_field("ox_enc"@, a4, e, b4, e);
    lemma_ciphertext(a.ox_enc@, e, b.ox_enc@, e);
}

/// Whether the texts of a manifest are not too long for their encoding.
pub open spec fn short_texts(m: ManifestView) -> bool {
    &&& encode_utf8(m.election_id).len() <= u64::MAX
    &&& encode_utf8(m.title).len() <= u64::MAX
    &&& encode_utf8(m.authority).len() <= u64::MAX
}

proof fn lemma_manifest(a: ManifestView, x: Seq<u8>, b: ManifestView, y: Seq<u8>)
    requires
        short_texts(a),
        short_texts(b),
        a.encoding() + x == b.encoding() + y,
    ensures
        a == b,
        x == y,
{
    let t = seq![0xa4u8];
    let (a1, b1) = (cbor_text(a.election_id), cbor_text(b.election_id));
    let (a2, b2) = (cbor_text(a.title), cbor_text(b.title));
    let (a3, b3) = (cbor_text(a.authority), cbor_text(b.authority));
    let (a4, b4) = (cbor_number(a.version as int), cbor_number(b.version as int));
    let (x4, y4) = (field("version"@, a4) + x, field("version"@, b4) + y);
    let (x3, y3) = (field("authority"@, a3) + x4, field("authority"@, b3) + y4);
    let (x2, y2) = (field("title"@, a2) + x3, field("title"@, b2) + y3);
    let (x1, y1) = (field("election_id"@, a1) + x2, field("election_id"@, b1) + y2);
    lemma_four(
        t,
        field("election_id"@, a1),
        field("title"@, a2),
        field("authority"@, a3),
        field("version"@, a4),
        x,
    );
    lemma_four(
        t,
        field("election_id"@, b1),
        field("title"@, b2),
        field("authority"@, b3),
        field("version"@, b4),
        y,
    );
    lemma_cut(t, x1, t, y1);
    lemma_field("election_id"@, a1, x2, b1, y2);
    lemma_text(a.election_id, x2, b.election_id, y2);
    lemma_field("title"@, a2, x3, b2, y3);
    lemma_text(a.title, x3, b.title, y3);
    lemma_field("authority"@, a3, x4, b3, y4);
    lemma_text(a.authority, x4, b.authority, y4);
    lemma_field("version"@, a4, x, b4, y);
    lemma_head_ends(0, a.version as int, x, b.version as int, y);
}

/// Whether the points of a key have encodings that tell them.
pub open spec fn key_of_points(pk: ElectionPublicKey) -> bool {
    &&& of_point(pk.registration_pk.log())
    &&& of_point(pk.params.elgamal.g1.log())
    &&& of_point(pk.params.elgamal.g2.log())
    &&& of_point(pk.params.g3.log())
    &&& of_point(pk.params.o.log())
    &&& of_point(pk.params.tally.h.log())
}

/// Whether two keys have the same points.
pub open spec fn same_key(a: ElectionPublicKey, b: ElectionPublicKey) -> bool {
    &&& a.registration_pk.log() == b.registration_pk.log()
    &&& a.params.elgamal.g1.log() == b.params.elgamal.g1.log()
    &&& a.params.elgamal.g2.log() == b.params.elgamal.g2.log()
    &&& a.params.g3.log() == b.params.g3.log()
    &&& a.params.o.log() == b.params.o.log()
    &&& a.params.tally.h.log() == b.params.tally.h.log()
}

/// The encoding of a point in a record.
spec fn cbor_point(k: int) -> Seq<u8> {
    cbor_bytes(point_encoding(k))
}

proof fn lemma_bases(a: ElGamalParams, x: Seq<u8>, b: ElGamalParams, y: Seq<u8>)
    requires
        of_point(a.g1.log()) && of_point(a.g2.log()),
        of_point(b.g1.log()) && of_point(b.g2.log()),
        a.encoding() + x == b.encoding() + y,
    ensures
        a.g1.log() == b.g1.log(),
        a.g2.log() == b.g2.log(),
        x == y,
{
    let t = seq![0xa2u8];
    let (a1, b1) = (cbor_point(a.g1.log()), cbor_point(b.g1.log()));
    let (a2, b2) = (cbor_point(a.g2.log()), cbor_point(b.g2.log()));
    let (x2, y2) = (field("g2"@, a2) + x, field("g2"@, b2) + y);
    let (x1, y1) = (field("g1"@, a1) + x2, field("g1"@, b1) + y2);
    lemma_two(t, field("g1"@, a1), field("g2"@, a2), x);
    lemma_two(t, field("g1"@, b1), field("g2"@, b2), y);
    lemma_cut(t, x1, t, y1);
    lemma_field("g1"@, a1, x2, b1, y2);
    lemma_point(a.g1.log(), x2, b.g1.log(), y2);
    lemma_field("g2"@, a2, x, b2, y);
    lemma_point(a.g2.log(), x, b.g2.log(), y);
}

proof fn lemma_tally_key(a: PublicKey, x: Seq<u8>, b: PublicKey, y: Seq<u8>)
    requires
        of_point(a.h.log()) && of_point(b.h.log()),
        seq![0xa1u8] + field("h"@, cbor_point(a.h.log())) + x == seq![0xa1u8] + field(
            "h"@,
            cbor_point(b.h.log()),
        ) + y,
    ensures
        a.h.log() == b.h.log(),
        x == y,
{
    let t = seq![0xa1u8];
    let (a1, b1) = (cbor_point(a.h.log()), cbor_point(b.h.log()));
    let (x1, y1) = (field("h"@, a1) + x, field("h"@, b1) + y);
    assert(t + field("h"@, a1) + x =~= t + x1);
    assert(t + field("h"@, b1) + y =~= t + y1);
    lemma_cut(t, x1, t, y1);
    lemma_field("h"@, a1, x, b1, y);
    lemma_point(a.h.log(), x, b.h.log(), y);
}

proof fn lemma_key(a: ElectionPublicKey, x: Seq<u8>, b: ElectionPublicKey, y: Seq<u8>)
    requires
        key_of_points(a),
        key_of_points(b),
        a.encoding() + x == b.encoding() + y,
    ensures
        same_key(a, b),
        x == y,
{
    let t = seq![0xa2u8];
    let (p, q) = (a.params, b.params);
    let (a1, b1) = (cbor_point(a.registration_pk.log()), cbor_point(b.registration_pk.log()));
    let (x2, y2) = (field("params"@, p.encoding()) + x, field("params"@, q.encoding()) + y);
    let (x1, y1) = (field("registration_pk"@, a1) + x2, field("registration_pk"@, b1) + y2);
    lemma_two(t, field("registration_pk"@, a1), field("params"@, p.encoding()), x);
    lemma_two(t, field("registration_pk"@, b1), field("params"@, q.encoding()), y);
    lemma_cut(t, x1, t, y1);
    lemma_field("registration_pk"@, a1, x2, b1, y2);
    lemma_point(a.registration_pk.log(), x2, b.registration_pk.log(), y2);
    lemma_field("params"@, p.encoding(), x, q.encoding(), y);
    lemma_election_params(p, x, q, y);
}

proof fn lemma_election_params(p: ElectionParams, x: Seq<u8>, q: ElectionParams, y: Seq<u8>)
    requires
        of_point(p.elgamal.g1.log()) && of_point(p.elgamal.g2.log()),
        of_point(p.g3.log()) && of_point(p.o.log()) && of_point(p.tally.h.log()),
        of_point(q.elgamal.g1.log()) && of_point(q.elgamal.g2.log()),
        of_point(q.g3.log()) && of_point(q.o.log()) && of_point(q.tally.h.log()),
        p.encoding() + x == q.encoding() + y,
    ensures
        p.elgamal.g1.log() == q.elgamal.g1.log(),
        p.elgamal.g2.log() == q.elgamal.g2.log(),
        p.g3.log() == q.g3.log(),
        p.o.log() == q.o.log(),
        p.tally.h.log() == q.tally.h.log(),
        x == y,
{
    let t = seq![0xa4u8];
    let (p1, q1) = (p.elgamal.encoding(), q.elgamal.encoding());
    let (p2, q2) = (cbor_point(p.g3.log()), cbor_point(q.g3.log()));
    let (p3, q3) = (cbor_point(p.o.log()), cbor_point(q.o.log()));
    let p4 = seq![0xa1u8] + field("h"@, cbor_point(p.tally.h.log()));
    let q4 = seq![0xa1u8] + field("h"@, cbor_point(q.tally.h.log()));
    let (x4, y4) = (field("tally"@, p4) + x, field("tally"@, q4) + y);
    let (x3, y3) = (field("o"@, p3) + x4, field("o"@, q3) + y4);
    let (x2, y2) = (field("g3"@, p2) + x3, field("g3"@, q2) + y3);
    let (x1, y1) = (field("elgamal"@, p1) + x2, field("elgamal"@, q1) + y2);
    lemma_four(
        t,
        field("elgamal"@, p1),
        field("g3"@, p2),
        field("o"@, p3),
        field("tally"@, p4),
        x,
    );
    lemma_four(
        t,
        field("elgamal"@, q1),
        field("g3"@, q2),
        field("o"@, q3),
        field("tally"@, q4),
        y,
    );
    lemma_cut(t, x1, t, y1);
    lemma_field("elgamal"@, p1, x2, q1, y2);
    lemma_bases(p.elgamal, x2, q.elgamal, y2);
    lemma_field("g3"@, p2, x3, q2, y3);
    lemma_point(p.g3.log(), x3, q.g3.log(), y3);
    lemma_field("o"@, p3, x4, q3, y4);
    lemma_point(p.o.log(), x4, q.o.log(), y4);
    lemma_field("tally"@, p4, x, q4, y);
    lemma_tally_key(p.tally, x, q.tally, y);
}

proof fn lemma_parameters(a: ChoiceParameters, x: Seq<u8>, b: ChoiceParameters, y: Seq<u8>)
    requires
        a.ln2@.len() <= u64::MAX,
        b.ln2@.len() <= u64::MAX,
        a.encoding() + x == b.encoding() + y,
    ensures
        a.n1 == b.n1,
        a.ln2@ == b.ln2@,
        x == y,
{
    let t = seq![0xa2u8];
    let (a1, b1) = (cbor_number(a.n1 as int), cbor_number(b.n1 as int));
    let (x2, y2) = (field("ln2"@, cbor_sizes(a.ln2@)) + x, field("ln2"@, cbor_sizes(b.ln2@)) + y);
    let (x1, y1) = (field("n1"@, a1) + x2, field("n1"@, b1) + y2);
    assert(a.encoding() + x =~= t + x1);
    assert(b.encoding() + y =~= t + y1);
    lemma_cut(t, x1, t, y1);
    lemma_field("n1"@, a1, x2, b1, y2);
    lemma_head_ends(0, a.n1 as int, x2, b.n1 as int, y2);
    lemma_field("ln2"@, cbor_sizes(a.ln2@), x, cbor_sizes(b.ln2@), y);
    lemma_sizes(a.ln2@, x, b.ln2@, y);
}

/// Different parameters have different encodings.
pub proof fn law_parameters_encoding_binds(a: ChoiceParameters, b: ChoiceParameters)
    requires
        a.ln2@.len() <= u64::MAX,
        b.ln2@.len() <= u64::MAX,
        a.encoding() == b.encoding(),
    ensures
        a.n1 == b.n1,
        a.ln2@ == b.ln2@,
{
    lemma_parameters(a, seq![], b, seq![]);
}

/// What the digest of an election is made of binds all its public data: manifest,
/// keys and parameters are read off it.
pub proof fn law_context_encoding_binds(
    a: ManifestView,
    b: ManifestView,
    pk: ElectionPublicKey,
    other_pk: ElectionPublicKey,
    choice: ChoiceParameters,
    other_choice: ChoiceParameters,
)
    requires
        short_texts(a),
        short_texts(b),
        key_of_points(pk),
        key_of_points(other_pk),
        choice.ln2@.len() <= u64::MAX,
        other_choice.ln2@.len() <= u64::MAX,
        context_encoding(a, pk, choice) == context_encoding(b, other_pk, other_choice),
    ensures
        a == b,
        same_key(pk, other_pk),
        choice.n1 == other_choice.n1,
        choice.ln2@ == other_choice.ln2@,
{
    let t = seq![0x83u8];
    let e = Seq::<u8>::empty();
    let (x3, y3) = (choice.encoding() + e, other_choice.encoding() + e);
    let (x2, y2) = (pk.encoding() + x3, other_pk.encoding() + y3);
    let (x1, y1) = (a.encoding() + x2, b.encoding() + y2);
    lemma_nothing(context_encoding(a, pk, choice));
    lemma_nothing(context_encoding(b, other_pk, other_choice));
    lemma_three(t, a.encoding(), pk.encoding(), choice.encoding(), e);
    lemma_three(t, b.encoding(), other_pk.encoding(), other_choice.encoding(), e);
    lemma_cut(t, x1, t, y1);
    lemma_manifest(a, x2, b, y2);
    lemma_key(pk, x3, other_pk, y3);
    lemma_parameters(choice, e, other_choice, e);
}

} // verus!
