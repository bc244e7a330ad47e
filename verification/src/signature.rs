//! Signing, verification and aggregation.
//!
//! A signature is a pair `(sigma_1, sigma_2)`.  Its exact shape — which
//! group operations produce it from the node secret, the hashed message and
//! the nonce — is pinned down by `spec_gen_sig`, so the deterministic mode
//! is provably a function of the message, period and node secret alone.
//! Verification checks the pairing equation
//! `e(sigma_1, g2) == e(h, y) * e(pf(t) + mu * h_last, sigma_2)` through a
//! single multi-pairing, after rejecting identity points and points outside
//! the prime-order subgroup.

use vstd::prelude::*;
use vstd::arithmetic::power2::*;

use amcl_wrapper::field_elem::FieldElement;
use amcl_wrapper::group_elem_g1::G1;
use amcl_wrapper::group_elem_g2::G2;

use crate::errors::ForwardSecureSignatureError;
use crate::keys::{
    calculate_path_factor_using_t_l, spec_aggregate_verkeys, spec_path_factor, GeneratorSet,
    Sigkey, Verkey,
};
use crate::pairing::{
    fe_of_hash, g1_add, g1_bytes, g1_clone, g1_identity, g1_identity_check, g1_is_ident, g1_mul,
    g1_order_check, g1_order_ok, g1_scale, g1_sum, g1_to_bytes, g2_add, g2_bytes, g2_clone,
    g2_identity, g2_identity_check, g2_is_ident, g2_mul, g2_neg, g2_negation, g2_order_check,
    g2_order_ok, g2_scale, g2_sum, g2_to_bytes, gt_is_one, gt_is_one_check, hash_to_field,
    multi_pairing, random_field_element, triple_pairing,
};
use crate::tree::{lemma_path_of_props, spec_path_of};

verus! {

/// A signature: one point of the signature group and one of the
/// verification group.
#[derive(Debug, PartialEq)]
pub struct Signature {
    pub sigma_1: G1,
    pub sigma_2: G2,
}

/// The little-endian bytes of a value, `n` bytes long.
pub open spec fn spec_le_bytes(v: nat, n: nat) -> Seq<u8>
    decreases n,
{
    if n == 0 {
        Seq::empty()
    } else {
        seq![(v % 256) as u8] + spec_le_bytes(v / 256, (n - 1) as nat)
    }
}

/// The concatenated serializations of a list of signature-group points.
pub open spec fn spec_concat_g1_bytes(list: Seq<G1>) -> Seq<u8>
    decreases list.len(),
{
    if list.len() == 0 {
        Seq::empty()
    } else {
        spec_concat_g1_bytes(list.drop_last()) + g1_bytes(list.last())
    }
}

/// The bytes hashed to derive the deterministic nonce: the message, the
/// serialized node secret, and the period.
pub open spec fn spec_det_nonce_input(msg: Seq<u8>, t: u128, sk: Sigkey) -> Seq<u8> {
    msg + g2_bytes(sk.0) + spec_concat_g1_bytes(sk.1@) + spec_le_bytes(t as nat, 16)
}

/// The signature produced from a node secret with nonce `r`:
/// `sigma_2 = c + r * g2` and
/// `sigma_1 = d + mu * e_last + r * (pf(t) + mu * h_last)`,
/// where `mu` is the hashed message.
pub open spec fn spec_gen_sig(
    msg: Seq<u8>,
    t: u128,
    l: u8,
    gens: &GeneratorSet,
    sk: &Sigkey,
    r: FieldElement,
) -> Signature {
    let mu = fe_of_hash(msg);
    let accum = g1_sum(
        spec_path_factor(spec_path_of(t as nat, l as nat), gens.1@),
        g1_scale(gens.1@[l as int + 1], mu),
    );
    Signature {
        sigma_1: g1_sum(g1_sum(sk.1@[0], g1_scale(sk.1@.last(), mu)), g1_scale(accum, r)),
        sigma_2: g2_sum(sk.0, g2_scale(gens.0, r)),
    }
}

/// Whether verification rejects the points themselves: either signature
/// point is the identity, the verification key is the identity, or either
/// signature point lies outside the prime-order subgroup.
pub open spec fn spec_rejects_point(sig: Signature, vk: G2) -> bool {
    ||| g1_is_ident(sig.sigma_1)
    ||| g2_is_ident(sig.sigma_2)
    ||| g2_is_ident(vk)
    ||| !g1_order_ok(sig.sigma_1)
    ||| !g2_order_ok(sig.sigma_2)
}

/// The pairing equation, as one multi-pairing:
/// `e(sigma_1, -g2) * e(h, y) * e(pf(t) + mu * h_last, sigma_2) == 1`.
pub open spec fn spec_verify_equation(
    s1: G1,
    s2: G2,
    vk: G2,
    msg: Seq<u8>,
    t: u128,
    l: u8,
    gens: &GeneratorSet,
) -> bool {
    let mu = fe_of_hash(msg);
    let accum = g1_sum(
        spec_path_factor(spec_path_of(t as nat, l as nat), gens.1@),
        g1_scale(gens.1@[l as int + 1], mu),
    );
    gt_is_one(multi_pairing(seq![(s1, g2_neg(gens.0)), (gens.1@[0], vk), (accum, s2)]))
}

/// The exact outcome of verification for the given inputs.
pub open spec fn spec_verify_outcome(
    sig: Signature,
    msg: Seq<u8>,
    t: u128,
    l: u8,
    gens: &GeneratorSet,
    vk: G2,
) -> Result<bool, ForwardSecureSignatureError> {
    if gens.1@.len() < l as nat + 2 {
        Err(ForwardSecureSignatureError::NotEnoughGenerators { n: (l + 2) as usize })
    } else if spec_rejects_point(sig, vk) {
        Ok(false)
    } else if !(1 <= t <= pow2(l as nat) - 1) {
        Err(ForwardSecureSignatureError::InvalidNodeNum { t, l })
    } else {
        Ok(spec_verify_equation(sig.sigma_1, sig.sigma_2, vk, msg, t, l, gens))
    }
}

/// The aggregated first components of a non-empty list of signatures.
pub open spec fn spec_agg_sig1(sigs: Seq<&Signature>) -> G1
    decreases sigs.len(),
{
    if sigs.len() <= 1 {
        sigs[0].sigma_1
    } else {
        g1_sum(spec_agg_sig1(sigs.drop_last()), sigs.last().sigma_1)
    }
}

/// The aggregated second components of a non-empty list of signatures.
pub open spec fn spec_agg_sig2(sigs: Seq<&Signature>) -> G2
    decreases sigs.len(),
{
    if sigs.len() <= 1 {
        sigs[0].sigma_2
    } else {
        g2_sum(spec_agg_sig2(sigs.drop_last()), sigs.last().sigma_2)
    }
}

/// The little-endian bytes of the period.
fn u128_le_bytes(t: u128) -> (r: Vec<u8>)
    ensures
        r@ == spec_le_bytes(t as nat, 16),
{
    let mut v: Vec<u8> = Vec::new();
    let mut x: u128 = t;
    let mut i: usize = 0;
    while i < 16
        invariant
            i <= 16,
            spec_le_bytes(t as nat, 16) == v@ + spec_le_bytes(x as nat, (16 - i) as nat),
        decreases 16 - i,
    {
        let b = (x % 256) as u8;
        v.push(b);
        x = x / 256;
        proof {
            assert((v@ + seq![b]).len() == v@.len() + 1);
            assert(v@ + spec_le_bytes(x as nat, (16 - i - 1) as nat) =~= (v@.drop_last() + seq![b])
                + spec_le_bytes(x as nat, (16 - i - 1) as nat));
            assert(v@.drop_last() + (seq![b] + spec_le_bytes(x as nat, (16 - i - 1) as nat)) =~= (
            v@.drop_last() + seq![b]) + spec_le_bytes(x as nat, (16 - i - 1) as nat));
        }
        i = i + 1;
    }
    proof {
        assert(spec_le_bytes(x as nat, 0) =~= Seq::<u8>::empty());
        assert(v@ + Seq::<u8>::empty() =~= v@);
    }
    v
}

impl Signature {
    /// Creates a new signature with a fresh random nonce.  Distinct calls
    /// use independent nonces, so two signatures on the same inputs differ
    /// except with negligible probability.
    pub fn new(msg: &[u8], t: u128, l: u8, gens: &GeneratorSet, sig_key: &Sigkey) -> (res: Result<
        Signature,
        ForwardSecureSignatureError,
    >)
        requires
            l <= 127,
            sig_key.1@.len() >= 1,
        ensures
            (gens.1@.len() < l as nat + 2) <==> res == Err::<Signature, _>(
                ForwardSecureSignatureError::NotEnoughGenerators { n: (l + 2) as usize },
            ),
            gens.1@.len() >= l as nat + 2 ==> ((1 <= t <= pow2(l as nat) - 1) <==> res is Ok),
            (gens.1@.len() >= l as nat + 2 && !(1 <= t <= pow2(l as nat) - 1)) ==> res
                == Err::<Signature, _>(ForwardSecureSignatureError::InvalidNodeNum { t, l }),
            res matches Ok(s) ==> exists|r: FieldElement|
                s == #[trigger] spec_gen_sig(msg@, t, l, gens, sig_key, r),
    {
        if gens.1.len() < l as usize + 2 {
            return Err(ForwardSecureSignatureError::NotEnoughGenerators { n: l as usize + 2 });
        }
        let r = random_field_element();
        let ghost rr = r;
        let res = Self::gen_sig(msg, t, l, gens, sig_key, r);
        proof {
            if res is Ok {
                assert(res->Ok_0 == spec_gen_sig(msg@, t, l, gens, sig_key, rr));
            }
        }
        res
    }

    /// Creates a new deterministic signature: the nonce is the hash of the
    /// message, the serialized node secret and the period, so the result is
    /// a function of those inputs alone — equal inputs give a bit-identical
    /// signature.
    pub fn new_deterministic(
        msg: &[u8],
        t: u128,
        l: u8,
        gens: &GeneratorSet,
        sig_key: &Sigkey,
    ) -> (res: Result<Signature, ForwardSecureSignatureError>)
        requires
            l <= 127,
            sig_key.1@.len() >= 1,
        ensures
            (gens.1@.len() < l as nat + 2) <==> res == Err::<Signature, _>(
                ForwardSecureSignatureError::NotEnoughGenerators { n: (l + 2) as usize },
            ),
            gens.1@.len() >= l as nat + 2 ==> ((1 <= t <= pow2(l as nat) - 1) <==> res is Ok),
            (gens.1@.len() >= l as nat + 2 && !(1 <= t <= pow2(l as nat) - 1)) ==> res
                == Err::<Signature, _>(ForwardSecureSignatureError::InvalidNodeNum { t, l }),
            res matches Ok(s) ==> s == spec_gen_sig(
                msg@,
                t,
                l,
                gens,
                sig_key,
                fe_of_hash(spec_det_nonce_input(msg@, t, *sig_key)),
            ),
    {
        if gens.1.len() < l as usize + 2 {
            return Err(ForwardSecureSignatureError::NotEnoughGenerators { n: l as usize + 2 });
        }
        let r = Self::gen_sig_rand(msg, t, sig_key);
        Self::gen_sig(msg, t, l, gens, sig_key, r)
    }

    /// The aggregate of the given signatures: the component-wise sum.  On a
    /// common message and period it verifies against the aggregate of the
    /// signers' verification keys exactly when the individual signatures
    /// verify.
    pub fn aggregate(sigs: Vec<&Signature>) -> (r: Signature)
        ensures
            sigs@.len() >= 1 ==> r.sigma_1 == spec_agg_sig1(sigs@) && r.sigma_2 == spec_agg_sig2(
                sigs@,
            ),
    {
        if sigs.len() == 0 {
            return Signature { sigma_1: g1_identity(), sigma_2: g2_identity() };
        }
        let mut asig_1 = g1_clone(&sigs[0].sigma_1);
        let mut asig_2 = g2_clone(&sigs[0].sigma_2);
        let mut i: usize = 1;
        proof {
            assert(sigs@.take(1).len() == 1);
            assert(sigs@.take(1)[0] == sigs@[0]);
        }
        while i < sigs.len()
            invariant
                1 <= i <= sigs@.len(),
                asig_1 == spec_agg_sig1(sigs@.take(i as int)),
                asig_2 == spec_agg_sig2(sigs@.take(i as int)),
            decreases sigs@.len() - i,
        {
            asig_1 = g1_add(&asig_1, &sigs[i].sigma_1);
            asig_2 = g2_add(&asig_2, &sigs[i].sigma_2);
            proof {
                let pre = sigs@.take(i + 1);
                assert(pre.drop_last() =~= sigs@.take(i as int));
                assert(pre.last() == sigs@[i as int]);
            }
            i = i + 1;
        }
        proof {
            assert(sigs@.take(sigs@.len() as int) =~= sigs@);
        }
        Signature { sigma_1: asig_1, sigma_2: asig_2 }
    }

    /// Verify the signature on a message for period `t` under one
    /// verification key.  Identity points and points outside the
    /// prime-order subgroup are rejected with a `false` verdict, never
    /// accepted.
    pub fn verify(&self, msg: &[u8], t: u128, l: u8, gens: &GeneratorSet, verkey: &Verkey) -> (res:
        Result<bool, ForwardSecureSignatureError>)
        requires
            l <= 127,
        ensures
            res == spec_verify_outcome(*self, msg@, t, l, gens, verkey.value),
            (gens.1@.len() >= l as nat + 2 && (g1_is_ident(self.sigma_1) || g2_is_ident(
                self.sigma_2,
            ) || !g1_order_ok(self.sigma_1) || !g2_order_ok(self.sigma_2))) ==> res
                == Ok::<_, ForwardSecureSignatureError>(false),
    {
        if gens.1.len() < l as usize + 2 {
            return Err(ForwardSecureSignatureError::NotEnoughGenerators { n: l as usize + 2 });
        }
        if self.is_identity() || verkey.is_identity() || !self.has_correct_order() {
            return Ok(false);
        }
        Self::verify_naked(&self.sigma_1, &self.sigma_2, &verkey.value, msg, t, l, gens)
    }

    /// Verify an aggregate signature on one message and period against the
    /// aggregate of the given verification keys.
    pub fn verify_aggregated(
        &self,
        msg: &[u8],
        t: u128,
        l: u8,
        ver_keys: Vec<&Verkey>,
        gens: &GeneratorSet,
    ) -> (res: Result<bool, ForwardSecureSignatureError>)
        requires
            l <= 127,
        ensures
            ver_keys@.len() >= 1 ==> res == spec_verify_outcome(
                *self,
                msg@,
                t,
                l,
                gens,
                spec_aggregate_verkeys(ver_keys@),
            ),
    {
        let avk = Verkey::aggregate(ver_keys);
        self.verify(msg, t, l, gens, &avk)
    }

    /// Hash the message into the scalar field, identically on the signing
    /// and the verifying side.
    fn hash_message(message: &[u8]) -> (r: FieldElement)
        ensures
            r == fe_of_hash(message@),
    {
        hash_to_field(message)
    }

    /// The deterministic nonce: the hash of the message, the serialized
    /// node secret, and the period.
    fn gen_sig_rand(message: &[u8], t: u128, sig_key: &Sigkey) -> (r: FieldElement)
        ensures
            r == fe_of_hash(spec_det_nonce_input(message@, t, *sig_key)),
    {
        let mut bytes: Vec<u8> = Vec::new();
        let mut i: usize = 0;
        while i < message.len()
            invariant
                i <= message@.len(),
                bytes@ =~= message@.take(i as int),
            decreases message@.len() - i,
        {
            bytes.push(message[i]);
            proof {
                assert(bytes@ =~= message@.take(i + 1));
            }
            i = i + 1;
        }
        proof {
            assert(message@.take(message@.len() as int) =~= message@);
        }
        let mut cb = g2_to_bytes(&sig_key.0);
        bytes.append(&mut cb);
        let ghost head = message@ + g2_bytes(sig_key.0);
        proof {
            assert(spec_concat_g1_bytes(sig_key.1@.take(0)) =~= Seq::<u8>::empty());
            assert(bytes@ =~= head + spec_concat_g1_bytes(sig_key.1@.take(0)));
        }
        let mut j: usize = 0;
        while j < sig_key.1.len()
            invariant
                j <= sig_key.1@.len(),
                bytes@ == head + spec_concat_g1_bytes(sig_key.1@.take(j as int)),
            decreases sig_key.1@.len() - j,
        {
            let mut eb = g1_to_bytes(&sig_key.1[j]);
            bytes.append(&mut eb);
            proof {
                let pre = sig_key.1@.take(j + 1);
                assert(pre.drop_last() =~= sig_key.1@.take(j as int));
                assert(pre.last() == sig_key.1@[j as int]);
                assert((head + spec_concat_g1_bytes(sig_key.1@.take(j as int))) + g1_bytes(
                    sig_key.1@[j as int],
                ) =~= head + spec_concat_g1_bytes(pre));
            }
            j = j + 1;
        }
        proof {
            assert(sig_key.1@.take(sig_key.1@.len() as int) =~= sig_key.1@);
        }
        let mut tb = u128_le_bytes(t);
        bytes.append(&mut tb);
        proof {
            assert((head + spec_concat_g1_bytes(sig_key.1@)) + spec_le_bytes(t as nat, 16)
                =~= spec_det_nonce_input(message@, t, *sig_key));
        }
        hash_to_field(bytes.as_slice())
    }

    /// Produce the signature for nonce `r`: `sigma_2 = c + r * g2` and
    /// `sigma_1 = d + mu * e_last + r * (pf(t) + mu * h_last)`.
    fn gen_sig(
        msg: &[u8],
        t: u128,
        l: u8,
        gens: &GeneratorSet,
        sig_key: &Sigkey,
        r: FieldElement,
    ) -> (res: Result<Signature, ForwardSecureSignatureError>)
        requires
            l <= 127,
            sig_key.1@.len() >= 1,
            gens.1@.len() >= l as nat + 2,
        ensures
            (1 <= t <= pow2(l as nat) - 1) <==> res is Ok,
            res matches Ok(s) ==> s == spec_gen_sig(msg@, t, l, gens, sig_key, r),
            res matches Err(e) ==> e == (ForwardSecureSignatureError::InvalidNodeNum { t, l }),
    {
        let mu = Self::hash_message(msg);
        let sigma_2 = g2_add(&sig_key.0, &g2_mul(&gens.0, &r));
        let pf = match calculate_path_factor_using_t_l(t, l, gens) {
            Ok(pf) => pf,
            Err(e) => {
                proof {
                    if 1 <= t <= pow2(l as nat) - 1 {
                        lemma_path_of_props(t as nat, l as nat);
                        assert(false);
                    }
                }
                return Err(e);
            },
        };
        proof {
            lemma2_to64();
            lemma_path_of_props(t as nat, l as nat);
        }
        let e_l = &sig_key.1[sig_key.1.len() - 1];
        let accum = g1_add(&pf, &g1_mul(&gens.1[l as usize + 1], &mu));
        let sigma_1 = g1_add(&g1_add(&sig_key.1[0], &g1_mul(e_l, &mu)), &g1_mul(&accum, &r));
        Ok(Signature { sigma_1, sigma_2 })
    }

    /// Check the pairing equation itself.
    fn verify_naked(
        sigma_1: &G1,
        sigma_2: &G2,
        verkey: &G2,
        msg: &[u8],
        t: u128,
        l: u8,
        gens: &GeneratorSet,
    ) -> (res: Result<bool, ForwardSecureSignatureError>)
        requires
            l <= 127,
            gens.1@.len() >= l as nat + 2,
        ensures
            (1 <= t <= pow2(l as nat) - 1) <==> res is Ok,
            res matches Ok(b) ==> b == spec_verify_equation(
                *sigma_1,
                *sigma_2,
                *verkey,
                msg@,
                t,
                l,
                gens,
            ),
            res matches Err(e) ==> e == (ForwardSecureSignatureError::InvalidNodeNum { t, l }),
    {
        let mu = Self::hash_message(msg);
        let pf = match calculate_path_factor_using_t_l(t, l, gens) {
            Ok(pf) => pf,
            Err(e) => {
                proof {
                    if 1 <= t <= pow2(l as nat) - 1 {
                        lemma_path_of_props(t as nat, l as nat);
                        assert(false);
                    }
                }
                return Err(e);
            },
        };
        proof {
            lemma2_to64();
            lemma_path_of_props(t as nat, l as nat);
        }
        let accum = g1_add(&pf, &g1_mul(&gens.1[l as usize + 1], &mu));
        let neg_g2 = g2_negation(&gens.0);
        let e = triple_pairing(sigma_1, &neg_g2, &gens.1[0], verkey, &accum, sigma_2);
        Ok(gt_is_one_check(&e))
    }

    /// Whether either signature point is the group identity.
    fn is_identity(&self) -> (r: bool)
        ensures
            r == (g1_is_ident(self.sigma_1) || g2_is_ident(self.sigma_2)),
    {
        if g1_identity_check(&self.sigma_1) {
            return true;
        }
        if g2_identity_check(&self.sigma_2) {
            return true;
        }
        false
    }

    /// Whether both signature points lie in the prime-order subgroup.
    fn has_correct_order(&self) -> (r: bool)
        ensures
            r == (g1_order_ok(self.sigma_1) && g2_order_ok(self.sigma_2)),
    {
        if !g1_order_check(&self.sigma_1) {
            return false;
        }
        if !g2_order_check(&self.sigma_2) {
            return false;
        }
        true
    }

    /// An owned copy of the signature.
    pub fn duplicate(&self) -> (r: Signature)
        ensures
            r == *self,
    {
        Signature { sigma_1: g1_clone(&self.sigma_1), sigma_2: g2_clone(&self.sigma_2) }
    }
}

/// Determinism: the deterministic signature is pinned by its contract to a
/// function of the message, period, parameters and node secret alone, so
/// two deterministic signing calls on equal inputs return equal signatures.
pub proof fn lemma_deterministic_signatures_equal(
    msg: Seq<u8>,
    t: u128,
    l: u8,
    gens: &GeneratorSet,
    sk: &Sigkey,
    s1: Signature,
    s2: Signature,
)
    requires
        s1 == spec_gen_sig(msg, t, l, gens, sk, fe_of_hash(spec_det_nonce_input(msg, t, *sk))),
        s2 == spec_gen_sig(msg, t, l, gens, sk, fe_of_hash(spec_det_nonce_input(msg, t, *sk))),
    ensures
        s1 == s2,
{
}

} // verus!
