use dlog_group::group::GroupScalar;
use dlog_group::ristretto::RistrettoGroup;
use dlog_sigma_primitives::elgamal::ciphertext::Ciphertext as OutsideCiphertext;
use dlog_sigma_primitives::proofs::disjunctive::Or;
use dlog_sigma_primitives::proofs::log_equality::LogEq;
use dlog_sigma_primitives::proofs::zero::Zero;
use evoting::api::prelude::{ChoiceParameters, RegistrationTeller, TTSecretKey};
use evoting::api::server::context::ElectionManifest;
use evoting::elgamal::{Ciphertext, ElGamalParams};
use evoting::group::{Point, Scalar};
use evoting::proofs::relation::SubProof;
use evoting::protocol::keys::{ElectionParams, ElectionPublicKey, VoterKeyPair};
use evoting::protocol::vote::auth_proof::ShortEncrAuthValues;
use evoting::protocol::vote::choice::{Choice, EncrChoice, ExtendedEncrChoice};
use evoting::protocol::vote::vote::{VerVote, Vote};
use rand::rngs::StdRng;
use rand::SeedableRng;
use serde::ser::{Serialize, SerializeSeq, SerializeStruct, SerializeTuple, Serializer};
use sha3::{Digest, Sha3_256};

/// A value that serde encodes.
enum Tree {
    Text(String),
    Number(u64),
    Bytes(Vec<u8>),
    List(Vec<Tree>),
    Triple([Box<Tree>; 3]),
    Record(Vec<(&'static str, Tree)>),
}

impl Serialize for Tree {
    fn serialize<S: Serializer>(&self, serializer: S) -> Result<S::Ok, S::Error> {
        match self {
            Tree::Text(text) => serializer.serialize_str(text),
            Tree::Number(number) => serializer.serialize_u64(*number),
            Tree::Bytes(bytes) => serializer.serialize_bytes(bytes),
            Tree::List(list) => {
                let mut out = serializer.serialize_seq(Some(list.len()))?;
                for item in list {
                    out.serialize_element(item)?;
                }
                out.end()
            }
            Tree::Triple(items) => {
                let mut out = serializer.serialize_tuple(3)?;
                for item in items {
                    out.serialize_element(item)?;
                }
                out.end()
            }
            Tree::Record(fields) => {
                let mut out = serializer.serialize_struct("Record", fields.len())?;
                for (name, value) in fields {
                    out.serialize_field(name, value)?;
                }
                out.end()
            }
        }
    }
}

fn encode(tree: &Tree) -> Vec<u8> {
    serde_cbor::to_vec(tree).unwrap()
}

fn text(text: &str) -> Tree {
    Tree::Text(text.to_string())
}

fn point(point: &Point) -> Tree {
    Tree::Bytes(point.to_bytes().to_vec())
}

fn ciphertext(ct: &Ciphertext) -> Tree {
    Tree::Record(vec![
        ("random_point", point(&ct.random_point)),
        ("random_point2", point(&ct.random_point2)),
        ("blinded_point", point(&ct.blinded_point)),
    ])
}

fn list(cts: &[Ciphertext]) -> Tree {
    Tree::List(cts.iter().map(ciphertext).collect())
}

fn key(pk: &ElectionPublicKey) -> Tree {
    let params = &pk.params;
    let bases = vec![("g1", point(&params.elgamal.g1)), ("g2", point(&params.elgamal.g2))];
    let params = vec![
        ("elgamal", Tree::Record(bases)),
        ("g3", point(&params.g3)),
        ("o", point(&params.o)),
        ("tally", Tree::Record(vec![("h", point(&params.tally.h))])),
    ];
    Tree::Record(vec![
        ("registration_pk", point(&pk.registration_pk)),
        ("params", Tree::Record(params)),
    ])
}

fn shape(params: &ChoiceParameters) -> Tree {
    let sizes = params.ln2.iter().map(|n| Tree::Number(*n as u64)).collect();
    Tree::Record(vec![("n1", Tree::Number(params.n1 as u64)), ("ln2", Tree::List(sizes))])
}

fn choice(choice: &EncrChoice) -> Tree {
    let rows = choice.l2.iter().map(|row| list(row)).collect();
    Tree::Record(vec![("l1", list(&choice.l1)), ("l2", Tree::List(rows))])
}

fn manifest(title: &str) -> ElectionManifest {
    ElectionManifest {
        election_id: "board".to_string(),
        title: title.to_string(),
        authority: "authority".to_string(),
        version: 70_000,
    }
}

fn teller(rng: &mut StdRng) -> RegistrationTeller {
    let tt = TTSecretKey::new(rng);
    let elgamal = ElGamalParams::new(rng);
    let params = ElectionParams::new(&elgamal, &tt.meg_sk.to_public(&elgamal), rng);
    RegistrationTeller::new(params, rng)
}

#[test]
fn digest_of_an_election() {
    let mut rng = StdRng::seed_from_u64(51);
    let rt = teller(&mut rng);
    let params = ChoiceParameters::new(2, vec![3, 300], false).unwrap();
    let ctx = rt.election_context(manifest("title"), params.clone());
    let record = Tree::Record(vec![
        ("election_id", text("board")),
        ("title", text("title")),
        ("authority", text("authority")),
        ("version", Tree::Number(70_000)),
    ]);
    assert_eq!(ctx.manifest.to_bytes(), encode(&record));
    assert_eq!(ctx.pk.to_bytes(), encode(&key(&ctx.pk)));
    assert_eq!(params.to_bytes(), encode(&shape(&params)));
    let parts = [record, key(&ctx.pk), shape(&params)].map(Box::new);
    let expected: [u8; 32] = Sha3_256::digest(encode(&Tree::Triple(parts))).into();
    assert_eq!(ctx.context_hash, expected);
    let other = rt.election_context(manifest("another"), params);
    assert_ne!(ctx.context_hash, other.context_hash);
}

#[test]
fn encodings_of_different_votes_differ() {
    let mut rng = StdRng::seed_from_u64(23);
    let rt = teller(&mut rng);
    let pk = rt.election_pk();
    let params = ChoiceParameters::new(2, vec![2, 1], false).unwrap();
    let marks = Choice::new(1, vec![0], &params).unwrap();
    let auth = [1, 2, 3].map(|_| pk.encrypt(&Point::generator(), &mut rng).inner);
    let vote = Vote {
        choice: ExtendedEncrChoice::new(&marks, &pk, &mut rng).to_encryption(),
        auth: ShortEncrAuthValues { A_enc: auth[0], Ar_enc: auth[1], g3x_enc: auth[2] },
    };
    let credential = Tree::Record(vec![
        ("A_enc", ciphertext(&auth[0])),
        ("Ar_enc", ciphertext(&auth[1])),
        ("g3x_enc", ciphertext(&auth[2])),
    ]);
    let record = Tree::Record(vec![("choice", choice(&vote.choice)), ("auth", credential)]);
    assert_eq!(vote.choice.to_bytes(), encode(&choice(&vote.choice)));
    assert_eq!(vote.to_bytes(), encode(&record));
    assert!(vote.is_encodable() && vote.choice.is_encodable() && params.is_encodable());
    let other = vote.re_encrypt(&pk, &mut rng).to_vote();
    assert_ne!(vote.to_bytes(), other.to_bytes());
    assert_eq!(vote.to_bytes(), vote.clone().to_bytes());
}

fn scalar(x: &Scalar) -> Tree {
    Tree::Bytes(x.to_bytes().to_vec())
}

fn scalars(list: &[Scalar]) -> Tree {
    Tree::List(list.iter().map(scalar).collect())
}

fn string(ct: &Ciphertext) -> Tree {
    Tree::Bytes(ct.to_bytes())
}

fn strings(list: &[Ciphertext]) -> Tree {
    Tree::List(list.iter().map(string).collect())
}

fn sub_proof(p: &SubProof) -> Tree {
    Tree::Record(match p {
        SubProof::Zero { commitment, response } => {
            vec![("commitment", string(commitment)), ("response", scalar(response))]
        }
        SubProof::Or { commitments, responses, challenges } => vec![
            ("commitments", strings(commitments)),
            ("responses", scalars(responses)),
            ("challenges", scalars(challenges)),
        ],
        SubProof::Exp { commitment, z_r, z_x } => {
            vec![("commitment", string(commitment)), ("z_r", scalar(z_r)), ("z_x", scalar(z_x))]
        }
        SubProof::NotId { commitments_pk, commitments_ct, z } => vec![
            ("commitments_pk", strings(commitments_pk)),
            ("commitments_ct", strings(commitments_ct)),
            ("responses", scalars(z)),
        ],
        SubProof::LogEq { commitment, response_delta, response_m } => vec![
            ("commitment", string(commitment)),
            ("response_delta", scalar(response_delta)),
            ("response_m", scalar(response_m)),
        ],
    })
}

#[test]
fn commitment_to_a_ballot() {
    let mut rng = StdRng::seed_from_u64(22);
    let rt = teller(&mut rng);
    let pk = rt.election_pk();
    let params = ChoiceParameters::new(2, vec![1, 2], false).unwrap();
    let marks = Choice::new(1, vec![0], &params).unwrap();
    let (builder, pin, _) = rt.gen_builder(&mut rng);
    let (_, voter_pk) = VoterKeyPair::new(&pk, "some words", &mut rng).into_tuple();
    let credential = rt.gen_credential(&voter_pk, &builder, &mut rng).unwrap();
    let vote = VerVote::new(&pk, &marks, &params, &credential, pin, &mut rng);

    let p = &vote.proof.choice_proof.proofs;
    assert_eq!(p.len(), 8);
    let rows = vec![Tree::List(vec![sub_proof(&p[1])]), Tree::List(vec![sub_proof(&p[4]), sub_proof(&p[5])])];
    let choice_proof = Tree::Record(vec![
        ("one_l1_nizkp", sub_proof(&p[0])),
        ("l2_01_nizkp", Tree::List(rows)),
        ("l1_01_nizkp", Tree::List(vec![sub_proof(&p[2]), sub_proof(&p[6])])),
        ("l1_eq_sum_l2_nizkp", Tree::List(vec![sub_proof(&p[3]), sub_proof(&p[7])])),
    ]);
    let p = &vote.proof.cai_proof.proofs;
    let cai_proof =
        Tree::Record(vec![("l1_codesum_nizkp", sub_proof(&p[0])), ("l2_codesum_nizkp", sub_proof(&p[1]))]);
    let p = &vote.proof.auth_proof.proofs;
    let auth_proof = Tree::Record(vec![
        ("A_pt_nizkp", sub_proof(&p[0])),
        ("Ar_pt_nizkp", sub_proof(&p[1])),
        ("A_notid_nizkp", sub_proof(&p[2])),
        ("g3x_ox_ptdlogeq_nizkp", sub_proof(&p[3])),
    ]);
    let cai = Tree::Record(vec![
        ("l1_code_enc", ciphertext(&vote.cai.l1_code_enc)),
        ("l1_sum_enc", ciphertext(&vote.cai.l1_sum_enc)),
        ("l2_code_enc", ciphertext(&vote.cai.l2_code_enc)),
        ("l2_sum_enc", ciphertext(&vote.cai.l2_sum_enc)),
    ]);
    let auth = Tree::Record(vec![
        ("B", point(&vote.auth.B)),
        ("A_enc", ciphertext(&vote.auth.A_enc)),
        ("Ar_enc", ciphertext(&vote.auth.Ar_enc)),
        ("g3x_enc", ciphertext(&vote.auth.g3x_enc)),
        ("ox_enc", ciphertext(&vote.auth.ox_enc)),
    ]);
    let record = Tree::Record(vec![
        ("choice", choice(&vote.choice)),
        ("cai", cai),
        ("auth", auth),
        (
            "proof",
            Tree::Record(vec![
                ("choice_proof", choice_proof),
                ("cai_proof", cai_proof),
                ("auth_proof", auth_proof),
            ]),
        ),
    ]);
    let bytes = encode(&record);
    assert_eq!(vote.to_bytes(&params), bytes);
    let (kept, digest, random) = vote.commit(&params, &mut rng);
    assert_eq!(kept, bytes);
    let mut hasher = Sha3_256::new();
    hasher.update(&bytes);
    hasher.update(random);
    let expected: [u8; 32] = hasher.finalize().into();
    assert_eq!(digest, expected);
}

#[test]
fn proofs_are_encoded_like_those_of_the_primitives() {
    let mut rng = StdRng::seed_from_u64(24);
    let ct = Ciphertext {
        random_point: Point::random(&mut rng),
        random_point2: Point::random(&mut rng),
        blinded_point: Point::random(&mut rng),
    };
    let x = Scalar::random(&mut rng);
    let out_ct = OutsideCiphertext::<RistrettoGroup>::from_bytes(&ct.to_bytes()).unwrap();
    let out_x = RistrettoGroup::scalar_from_bytes(&x.to_bytes()).unwrap();
    let zero = Zero { commitment: out_ct, response: out_x };
    let ours = SubProof::Zero { commitment: ct, response: x };
    assert_eq!(ours.to_bytes(), serde_cbor::to_vec(&zero).unwrap());
    let or = Or::<RistrettoGroup> {
        commitments: vec![out_ct, out_ct],
        responses: vec![out_x, out_x],
        challenges: vec![out_x, out_x],
    };
    let ours = SubProof::Or {
        commitments: vec![ct, ct],
        responses: vec![x, x],
        challenges: vec![x, x],
    };
    assert_eq!(ours.to_bytes(), serde_cbor::to_vec(&or).unwrap());
    let log_eq = LogEq { commitment: out_ct, response_delta: out_x, response_m: out_x };
    let ours = SubProof::LogEq { commitment: ct, response_delta: x, response_m: x };
    assert_eq!(ours.to_bytes(), serde_cbor::to_vec(&log_eq).unwrap());
}

#[test]
fn heads_of_every_length() {
    for n in [0, 23, 24, 255, 256, 65_535, 65_536, u32::MAX as usize, usize::MAX] {
        let params = ChoiceParameters { n1: n, ln2: vec![n] };
        assert_eq!(params.to_bytes(), encode(&shape(&params)));
    }
    for len in [23, 24, 300] {
        let params = ChoiceParameters { n1: 1, ln2: vec![7; len] };
        assert_eq!(params.to_bytes(), encode(&shape(&params)));
        let manifest = manifest(&"x".repeat(len));
        let record = Tree::Record(vec![
            ("election_id", text("board")),
            ("title", text(&manifest.title)),
            ("authority", text("authority")),
            ("version", Tree::Number(70_000)),
        ]);
        assert_eq!(manifest.to_bytes(), encode(&record));
    }
}
