//! Keys and the key-evolution engine.
//!
//! A signer owns a `SigManager` (the current period and tree parameter) and
//! an `InMemorySigKeyDatabase` mapping node paths to node secrets.  The
//! well-formedness predicate `SigManager::wf` is the Frontier Invariant: the
//! store holds node secrets for exactly the frontier of the current period's
//! node — the minimal set of subtree roots covering every period from the
//! current one to the horizon.  Both update operations are proved to
//! re-establish it, which is what makes the forward-security and
//! accessibility properties at the end of this module theorems rather than
//! intentions.  They also guarantee provenance: every stored secret either
//! survives an update unchanged or descends by `derive_child` steps from a
//! secret that was stored before it (`spec_keys_descend`), and key
//! generation binds the verification key and the root node secret to one
//! master scalar (`spec_keygen_binding`).

use vstd::prelude::*;
use vstd::arithmetic::power2::*;

use amcl_wrapper::field_elem::FieldElement;
use amcl_wrapper::group_elem_g1::G1;
use amcl_wrapper::group_elem_g2::G2;

use crate::errors::ForwardSecureSignatureError;
use crate::pairing::{
    fe_wipe, g1_add, g1_clone, g1_hash, g1_mul, g1_of_hash, g1_scale, g1_sum, g1_wipe, g2_add,
    g2_clone, g2_hash, g2_identity, g2_identity_check, g2_is_ident, g2_mul, g2_of_hash, g2_scale,
    g2_sum, g2_wipe, random_field_element,
};
use crate::tree::{
    frontier, is_frontier_member, is_power_of_two, lemma_frontier_all_twos,
    lemma_frontier_at_or_after, lemma_frontier_covers, lemma_frontier_shared_siblings,
    lemma_last_node_path, lemma_path_of_props, node_num_to_path,
    from_node_num_to_path, pow2_u128, prefix_matches, spec_path_of, valid_path,
};

verus! {

/// A node secret: the blinded commitment `c` in the verification group and
/// the list `[d, e ..]` in the signature group, where `d` is the signing
/// capability for the node's subtree and the `e` entries re-randomise the
/// remaining levels.  A node at depth `delta` carries `l + 1 - delta`
/// entries; the deepest nodes still carry one trailing `e`, used by signing.
#[derive(Debug)]
pub struct Sigkey(pub G2, pub Vec<G1>);

impl Sigkey {
    /// An owned copy of the node secret, entry for entry.
    pub fn duplicate(&self) -> (r: Sigkey)
        ensures
            r.0 == self.0,
            r.1@ == self.1@,
    {
        let c = g2_clone(&self.0);
        let mut list: Vec<G1> = Vec::new();
        let mut i: usize = 0;
        while i < self.1.len()
            invariant
                i <= self.1@.len(),
                list@.len() == i,
                forall|j: int| 0 <= j < i ==> list@[j] == self.1@[j],
            decreases self.1@.len() - i,
        {
            list.push(g1_clone(&self.1[i]));
            i = i + 1;
        }
        proof {
            assert(list@ =~= self.1@);
        }
        Sigkey(c, list)
    }
}

/// Overwrite a node secret's group elements before dropping it, so that the
/// punctured key material does not linger in memory.
fn wipe_sigkey(k: Sigkey) {
    let Sigkey(mut c, mut list) = k;
    g2_wipe(&mut c);
    while list.len() > 0
        decreases list@.len(),
    {
        match list.pop() {
            Some(mut e) => {
                g1_wipe(&mut e);
            },
            None => {},
        }
    }
}

/// An owned copy of a path.
pub(crate) fn copy_path(v: &Vec<u8>) -> (r: Vec<u8>)
    ensures
        r@ == v@,
{
    let mut r: Vec<u8> = Vec::new();
    let mut i: usize = 0;
    while i < v.len()
        invariant
            i <= v@.len(),
            r@ =~= v@.take(i as int),
        decreases v@.len() - i,
    {
        r.push(v[i]);
        proof {
            assert(r@ =~= v@.take(i + 1));
        }
        i = i + 1;
    }
    proof {
        assert(v@.take(v@.len() as int) =~= v@);
    }
    r
}

/// Whether two paths are the same.
fn paths_equal(a: &Vec<u8>, b: &Vec<u8>) -> (r: bool)
    ensures
        r == (a@ == b@),
{
    if a.len() != b.len() {
        proof {
            assert(a@ != b@);
        }
        return false;
    }
    let r = prefix_matches(a, b, a.len());
    proof {
        if r {
            assert(a@ =~= b@);
        } else {
            assert(a@ != b@);
        }
    }
    r
}

/// The in-memory key store: a finite mapping from node paths to node
/// secrets, with each path held at most once.
#[derive(Debug)]
pub struct InMemorySigKeyDatabase {
    entries: Vec<(Vec<u8>, Sigkey)>,
}

impl InMemorySigKeyDatabase {
    /// Whether a node secret is stored under path `p`.
    pub closed spec fn contains_path(&self, p: Seq<u8>) -> bool {
        exists|i: int| 0 <= i < self.entries@.len() && self.entries@[i].0@ == p
    }

    /// The node secret stored under path `p`.
    pub closed spec fn key_for(&self, p: Seq<u8>) -> Sigkey {
        let i = choose|i: int| 0 <= i < self.entries@.len() && self.entries@[i].0@ == p;
        self.entries@[i].1
    }

    /// The set of paths under which a node secret is stored.
    pub open spec fn paths(&self) -> Set<Seq<u8>> {
        Set::new(|p: Seq<u8>| self.contains_path(p))
    }

    /// Each path is held at most once.
    pub closed spec fn wf(&self) -> bool {
        forall|i: int, j: int|
            #![trigger self.entries@[i].0, self.entries@[j].0]
            0 <= i < j < self.entries@.len() ==> self.entries@[i].0@ != self.entries@[j].0@
    }

    /// An empty store.
    pub fn new() -> (r: Self)
        ensures
            r.wf(),
            r.paths() == Set::<Seq<u8>>::empty(),
    {
        let r = InMemorySigKeyDatabase { entries: Vec::new() };
        proof {
            assert(r.paths() =~= Set::<Seq<u8>>::empty());
        }
        r
    }

    /// The position of a path's entry, if any.
    fn position_of(&self, path: &Vec<u8>) -> (r: Option<usize>)
        ensures
            r matches Some(i) ==> i < self.entries@.len() && self.entries@[i as int].0@ == path@,
            r is None ==> !self.contains_path(path@),
    {
        let mut i: usize = 0;
        while i < self.entries.len()
            invariant
                i <= self.entries@.len(),
                forall|j: int| 0 <= j < i ==> self.entries@[j].0@ != path@,
            decreases self.entries@.len() - i,
        {
            if paths_equal(&self.entries[i].0, path) {
                return Some(i);
            }
            i = i + 1;
        }
        None
    }

    /// Whether a node secret is stored under the given path.
    pub fn contains_key(&self, path: &Vec<u8>) -> (r: bool)
        ensures
            r == self.contains_path(path@),
    {
        let pos = self.position_of(path);
        proof {
            if pos is Some {
                let i = pos->Some_0;
                assert(self.contains_path(path@));
            }
        }
        pos.is_some()
    }

    /// A borrow of the node secret stored under a path known to be present.
    pub fn get_existing(&self, path: &Vec<u8>) -> (r: &Sigkey)
        requires
            self.wf(),
            self.contains_path(path@),
        ensures
            *r == self.key_for(path@),
    {
        match self.position_of(path) {
            Some(i) => {
                proof {
                    let j = choose|j: int|
                        0 <= j < self.entries@.len() && self.entries@[j].0@ == path@;
                    assert(j == i);
                }
                &self.entries[i].1
            },
            None => vstd::pervasive::unreached(),
        }
    }

    /// The node secret stored under a path, if any.
    pub fn get(&self, path: &Vec<u8>) -> (r: Option<&Sigkey>)
        requires
            self.wf(),
        ensures
            self.contains_path(path@) <==> r is Some,
            r matches Some(k) ==> *k == self.key_for(path@),
    {
        match self.position_of(path) {
            Some(i) => {
                proof {
                    assert(self.contains_path(path@));
                    let j = choose|j: int|
                        0 <= j < self.entries@.len() && self.entries@[j].0@ == path@;
                    assert(j == i);
                }
                Some(&self.entries[i].1)
            },
            None => None,
        }
    }

    /// Remove (and wipe) the node secret stored under a path, if any.
    pub fn erase(&mut self, path: &Vec<u8>)
        requires
            old(self).wf(),
        ensures
            final(self).wf(),
            !final(self).contains_path(path@),
            forall|p: Seq<u8>|
                p != path@ ==> #[trigger] final(self).contains_path(p) == old(self).contains_path(
                    p,
                ),
            forall|p: Seq<u8>|
                p != path@ && final(self).contains_path(p) ==> #[trigger] final(self).key_for(p)
                    == old(self).key_for(p),
            final(self).paths() == old(self).paths().remove(path@),
    {
        let pos = self.position_of(path);
        match pos {
            None => {
                proof {
                    assert(self.paths() =~= old(self).paths().remove(path@));
                }
            },
            Some(i) => {
                let entry = self.entries.remove(i);
                wipe_sigkey(entry.1);
                proof {
                    let oldv = old(self).entries@;
                    let newv = self.entries@;
                    assert(forall|j: int| 0 <= j < i ==> newv[j] == oldv[j]);
                    assert(forall|j: int| i <= j < newv.len() ==> newv[j] == oldv[j + 1]);
                    assert(forall|j: int|
                        0 <= j < oldv.len() && j != i ==> oldv[j].0@ != path@);
                    assert forall|p: Seq<u8>| p != path@ implies #[trigger] self.contains_path(p)
                        == old(self).contains_path(p) by {
                        if old(self).contains_path(p) {
                            let j = choose|j: int| 0 <= j < oldv.len() && oldv[j].0@ == p;
                            if j < i {
                                assert(newv[j].0@ == p);
                            } else {
                                assert(newv[j - 1].0@ == p);
                            }
                            assert(self.contains_path(p));
                        }
                        if self.contains_path(p) {
                            let j = choose|j: int| 0 <= j < newv.len() && newv[j].0@ == p;
                            if j < i {
                                assert(oldv[j].0@ == p);
                            } else {
                                assert(oldv[j + 1].0@ == p);
                            }
                            assert(old(self).contains_path(p));
                        }
                    }
                    assert forall|j: int| 0 <= j < newv.len() implies newv[j].0@ != path@ by {
                        if j < i {
                        } else {
                        }
                    }
                    assert(!self.contains_path(path@));
                    assert forall|a: int, b: int|
                        0 <= a < b < newv.len() implies #[trigger] newv[a].0@ != #[trigger] newv[b].0@ by {
                        if b < i {
                        } else if a < i {
                            assert(newv[a] == oldv[a]);
                            assert(newv[b] == oldv[b + 1]);
                        } else {
                            assert(newv[a] == oldv[a + 1]);
                            assert(newv[b] == oldv[b + 1]);
                        }
                    }
                    assert forall|p: Seq<u8>| p != path@ && self.contains_path(p) implies #[trigger] self.key_for(
                        p,
                    ) == old(self).key_for(p) by {
                        let j = choose|j: int| 0 <= j < newv.len() && newv[j].0@ == p;
                        assert(self.key_for(p) == newv[j].1);
                        let jo: int = if j < i {
                            j
                        } else {
                            j + 1
                        };
                        assert(oldv[jo].0@ == p);
                        let jc = choose|k: int| 0 <= k < oldv.len() && oldv[k].0@ == p;
                        assert(oldv[jc].0@ == p);
                        assert(jc == jo);
                        assert(old(self).key_for(p) == newv[j].1);
                    }
                    assert(self.paths() =~= old(self).paths().remove(path@));
                }
            },
        }
    }

    /// Store a node secret under a path, replacing any previous secret for
    /// that path.
    pub fn insert(&mut self, path: Vec<u8>, key: Sigkey)
        requires
            old(self).wf(),
        ensures
            final(self).wf(),
            final(self).contains_path(path@),
            final(self).key_for(path@) == key,
            forall|p: Seq<u8>|
                p != path@ ==> #[trigger] final(self).contains_path(p) == old(self).contains_path(
                    p,
                ),
            forall|p: Seq<u8>|
                p != path@ && final(self).contains_path(p) ==> #[trigger] final(self).key_for(p)
                    == old(self).key_for(p),
            final(self).paths() == old(self).paths().insert(path@),
    {
        self.erase(&path);
        let ghost mid = *self;
        self.entries.push((path, key));
        proof {
            let newv = self.entries@;
            let n = newv.len() - 1;
            assert(newv[n].0@ == path@);
            assert(self.contains_path(path@));
            assert(forall|j: int| 0 <= j < n ==> newv[j] == mid.entries@[j]);
            assert forall|a: int, b: int|
                0 <= a < b < newv.len() implies #[trigger] newv[a].0@ != #[trigger] newv[b].0@ by {
                if b == n {
                    if newv[a].0@ == path@ {
                        assert(mid.contains_path(path@));
                        assert(false);
                    }
                } else {
                }
            }
            assert forall|p: Seq<u8>| p != path@ implies #[trigger] self.contains_path(p)
                == mid.contains_path(p) by {
                if mid.contains_path(p) {
                    let j = choose|j: int| 0 <= j < mid.entries@.len() && mid.entries@[j].0@ == p;
                    assert(newv[j].0@ == p);
                }
                if self.contains_path(p) {
                    let j = choose|j: int| 0 <= j < newv.len() && newv[j].0@ == p;
                    assert(j != n);
                    assert(mid.entries@[j].0@ == p);
                    assert(mid.contains_path(p));
                }
            }
            let jk = choose|j: int| 0 <= j < newv.len() && newv[j].0@ == path@;
            assert(jk == n);
            assert(self.key_for(path@) == key);
            assert forall|p: Seq<u8>| p != path@ && self.contains_path(p) implies #[trigger] self.key_for(
                p,
            ) == mid.key_for(p) by {
                let j = choose|j: int| 0 <= j < newv.len() && newv[j].0@ == p;
                assert(j != n);
                let jc = choose|k: int| 0 <= k < mid.entries@.len() && mid.entries@[k].0@ == p;
                assert(jc == j);
            }
            assert(self.paths() =~= old(self).paths().insert(path@));
        }
    }

    /// The stored paths, as a list.
    pub fn paths_list(&self) -> (r: Vec<Vec<u8>>)
        ensures
            forall|j: int| 0 <= j < r@.len() ==> self.contains_path(#[trigger] r@[j]@),
            forall|p: Seq<u8>|
                #[trigger] self.contains_path(p) ==> exists|j: int| 0 <= j < r@.len() && r@[j]@ == p,
    {
        let mut r: Vec<Vec<u8>> = Vec::new();
        let mut i: usize = 0;
        while i < self.entries.len()
            invariant
                i <= self.entries@.len(),
                r@.len() == i,
                forall|j: int| 0 <= j < i ==> r@[j]@ == self.entries@[j].0@,
            decreases self.entries@.len() - i,
        {
            r.push(copy_path(&self.entries[i].0));
            i = i + 1;
        }
        proof {
            assert forall|p: Seq<u8>| #[trigger] self.contains_path(p) implies exists|j: int|
                0 <= j < r@.len() && r@[j]@ == p by {
                let j = choose|j: int| 0 <= j < self.entries@.len() && self.entries@[j].0@ == p;
                assert(r@[j]@ == p);
            }
        }
        r
    }
}

/// The public parameters: the verification-group generator and the
/// `l + 2` signature-group generators `h, h_0, .., h_l`.
#[derive(Debug)]
pub struct GeneratorSet(pub G2, pub Vec<G1>);

/// The bytes hashed to derive one generator: the domain-separation label
/// followed by the generator's kind and index.
pub open spec fn spec_gen_input(label: Seq<u8>, kind: u8, idx: u8) -> Seq<u8> {
    label + seq![kind, idx]
}

/// Build the hash input for one generator.
fn gen_input_bytes(label: &[u8], kind: u8, idx: u8) -> (r: Vec<u8>)
    ensures
        r@ == spec_gen_input(label@, kind, idx),
{
    let mut v: Vec<u8> = Vec::new();
    let mut i: usize = 0;
    while i < label.len()
        invariant
            i <= label@.len(),
            v@ =~= label@.take(i as int),
        decreases label@.len() - i,
    {
        v.push(label[i]);
        proof {
            assert(v@ =~= label@.take(i + 1));
        }
        i = i + 1;
    }
    v.push(kind);
    v.push(idx);
    proof {
        assert(label@.take(label@.len() as int) =~= label@);
        assert(v@ =~= label@ + seq![kind, idx]);
    }
    v
}

/// Powers of two are distinct.
proof fn lemma_pow2_injective(a: nat, b: nat)
    requires
        pow2(a) == pow2(b),
    ensures
        a == b,
{
    if a < b {
        lemma_pow2_strictly_increases(a, b);
    }
    if b < a {
        lemma_pow2_strictly_increases(b, a);
    }
}

impl GeneratorSet {
    /// Derive the public parameters for horizon `t_max` from a
    /// domain-separation label: every generator is an independent
    /// hash-to-curve of the label, its kind and its index.
    pub fn new(t_max: u128, label: &[u8]) -> (r: Result<
        GeneratorSet,
        ForwardSecureSignatureError,
    >)
        ensures
            r is Ok <==> (3 <= t_max < u128::MAX && is_power_of_two((t_max + 1) as nat)),
            (t_max < 3 || t_max == u128::MAX) <==> r == Err::<GeneratorSet, _>(
                ForwardSecureSignatureError::InvalidMaxTimePeriod { t_max },
            ),
            (3 <= t_max < u128::MAX && !is_power_of_two((t_max + 1) as nat)) <==> r
                == Err::<GeneratorSet, _>(ForwardSecureSignatureError::NonPowerOfTwo { t_max }),
            r matches Ok(g) ==> forall|l: nat|
                pow2(l) == t_max + 1 ==> {
                    &&& g.1@.len() == l + 2
                    &&& g.0 == g2_of_hash(spec_gen_input(label@, 0, 0))
                    &&& forall|i: int|
                        0 <= i < l + 2 ==> g.1@[i] == g1_of_hash(
                            spec_gen_input(label@, 1, i as u8),
                        )
                },
    {
        let l = match crate::tree::calculate_l(t_max) {
            Ok(l) => l,
            Err(e) => {
                return Err(e);
            },
        };
        let g2_input = gen_input_bytes(label, 0, 0);
        let g2 = g2_hash(g2_input.as_slice());
        let count: usize = l as usize + 2;
        let mut hh: Vec<G1> = Vec::new();
        let mut i: usize = 0;
        while i < count
            invariant
                i <= count,
                count <= 129,
                hh@.len() == i,
                forall|j: int|
                    0 <= j < i ==> hh@[j] == g1_of_hash(spec_gen_input(label@, 1, j as u8)),
        decreases count - i,
        {
            let input = gen_input_bytes(label, 1, i as u8);
            hh.push(g1_hash(input.as_slice()));
            i = i + 1;
        }
        let g = GeneratorSet(g2, hh);
        proof {
            assert forall|lx: nat| pow2(lx) == t_max + 1 implies {
                &&& g.1@.len() == lx + 2
                &&& g.0 == g2_of_hash(spec_gen_input(label@, 0, 0))
                &&& forall|ix: int|
                    0 <= ix < lx + 2 ==> g.1@[ix] == g1_of_hash(spec_gen_input(label@, 1, ix as u8))
            } by {
                lemma_pow2_injective(lx, l as nat);
            }
        }
        Ok(g)
    }
}

/// The contribution of one path step to the path factor: the step's
/// generator once for a left step, twice for a right step.
pub open spec fn spec_bit_term(b: u8, h: G1) -> G1 {
    if b == 1 {
        h
    } else {
        g1_sum(h, h)
    }
}

/// The path factor of a path over the signature-group generators: `h_0`
/// plus, for each step `i` (0-based), the step value times `h_{i+1}`.
/// Signing and verification must compute this identically.
pub open spec fn spec_path_factor(path: Seq<u8>, hh: Seq<G1>) -> G1
    decreases path.len(),
{
    if path.len() == 0 {
        hh[1]
    } else {
        g1_sum(
            spec_path_factor(path.drop_last(), hh),
            spec_bit_term(path.last(), hh[path.len() as int + 1]),
        )
    }
}

/// The path factor, computed step by step.
pub(crate) fn path_factor_total(path: &Vec<u8>, gens: &GeneratorSet) -> (r: G1)
    requires
        gens.1@.len() >= path@.len() + 2,
    ensures
        r == spec_path_factor(path@, gens.1@),
{
    let mut acc = g1_clone(&gens.1[1]);
    let glen = gens.1.len();
    let mut i: usize = 0;
    proof {
        assert(path@.take(0) =~= Seq::<u8>::empty());
    }
    while i < path.len()
        invariant
            i <= path@.len(),
            gens.1@.len() >= path@.len() + 2,
            glen == gens.1@.len(),
            acc == spec_path_factor(path@.take(i as int), gens.1@),
        decreases path@.len() - i,
    {
        let h = &gens.1[i + 2];
        let term = if path[i] == 1 {
            g1_clone(h)
        } else {
            g1_add(h, h)
        };
        acc = g1_add(&acc, &term);
        proof {
            let pre = path@.take(i + 1);
            assert(pre.drop_last() =~= path@.take(i as int));
            assert(pre.last() == path@[i as int]);
        }
        i = i + 1;
    }
    proof {
        assert(path@.take(path@.len() as int) =~= path@);
    }
    acc
}

/// The path factor of the node assigned to period `t`, used by signing and
/// by verification.  Rejects a period out of range with `InvalidNodeNum`,
/// and a generator set too small for the node's depth with
/// `NotEnoughGenerators`.
pub fn calculate_path_factor_using_t_l(t: u128, l: u8, gens: &GeneratorSet) -> (r: Result<
    G1,
    ForwardSecureSignatureError,
>)
    requires
        l <= 127,
    ensures
        !(1 <= t <= pow2(l as nat) - 1) <==> r == Err::<G1, _>(
            ForwardSecureSignatureError::InvalidNodeNum { t, l },
        ),
        (1 <= t <= pow2(l as nat) - 1 && gens.1@.len() < spec_path_of(t as nat, l as nat).len()
            + 2) ==> r == Err::<G1, _>(
            ForwardSecureSignatureError::NotEnoughGenerators {
                n: (spec_path_of(t as nat, l as nat).len() + 2) as usize,
            },
        ),
        (1 <= t <= pow2(l as nat) - 1 && gens.1@.len() >= spec_path_of(t as nat, l as nat).len()
            + 2) ==> r == Ok::<_, ForwardSecureSignatureError>(
            spec_path_factor(spec_path_of(t as nat, l as nat), gens.1@),
        ),
{
    let path = match from_node_num_to_path(t, l) {
        Ok(p) => p,
        Err(e) => {
            return Err(e);
        },
    };
    if gens.1.len() < path.len() + 2 {
        return Err(ForwardSecureSignatureError::NotEnoughGenerators { n: path.len() + 2 });
    }
    Ok(path_factor_total(&path, gens))
}

/// A verification key: one point of the verification group.
#[derive(Debug)]
pub struct Verkey {
    pub value: G2,
}

/// The sum of a non-empty list of verification keys.
pub open spec fn spec_aggregate_verkeys(vks: Seq<&Verkey>) -> G2
    decreases vks.len(),
{
    if vks.len() <= 1 {
        vks[0].value
    } else {
        g2_sum(spec_aggregate_verkeys(vks.drop_last()), vks.last().value)
    }
}

impl Verkey {
    /// Whether the key is the identity point (such a key is never accepted
    /// by verification).
    pub fn is_identity(&self) -> (r: bool)
        ensures
            r == g2_is_ident(self.value),
    {
        g2_identity_check(&self.value)
    }

    /// The aggregate of the given verification keys: their sum.  An
    /// aggregate signature on a common message and period verifies against
    /// the aggregate of the signers' keys.
    pub fn aggregate(ver_keys: Vec<&Verkey>) -> (r: Verkey)
        ensures
            ver_keys@.len() >= 1 ==> r.value == spec_aggregate_verkeys(ver_keys@),
    {
        if ver_keys.len() == 0 {
            return Verkey { value: g2_identity() };
        }
        let mut acc = g2_clone(&ver_keys[0].value);
        let mut i: usize = 1;
        proof {
            assert(ver_keys@.take(1).len() == 1);
            assert(ver_keys@.take(1)[0] == ver_keys@[0]);
        }
        while i < ver_keys.len()
            invariant
                1 <= i <= ver_keys@.len(),
                acc == spec_aggregate_verkeys(ver_keys@.take(i as int)),
            decreases ver_keys@.len() - i,
        {
            acc = g2_add(&acc, &ver_keys[i].value);
            proof {
                let pre = ver_keys@.take(i + 1);
                assert(pre.drop_last() =~= ver_keys@.take(i as int));
                assert(pre.last() == ver_keys@[i as int]);
            }
            i = i + 1;
        }
        proof {
            assert(ver_keys@.take(ver_keys@.len() as int) =~= ver_keys@);
        }
        Verkey { value: acc }
    }
}

/// One derivation step: `child` is the image of `parent` (stored at `path`)
/// in direction `bit` under scalar `r` — the commitment and the capability
/// absorb the new step, and each remaining `e` entry is re-randomised with
/// the same scalar.
pub open spec fn spec_child_of(
    parent: Sigkey,
    path: Seq<u8>,
    bit: u8,
    r: FieldElement,
    gens: GeneratorSet,
    child: Sigkey,
) -> bool {
    &&& child.0 == g2_sum(parent.0, g2_scale(gens.0, r))
    &&& child.1@.len() == parent.1@.len() - 1
    &&& child.1@[0] == g1_sum(
        g1_sum(parent.1@[0], spec_bit_term(bit, parent.1@[1])),
        g1_scale(spec_path_factor(path.push(bit), gens.1@), r),
    )
    &&& forall|j: int|
        1 <= j < parent.1@.len() - 1 ==> child.1@[j] == g1_sum(
            parent.1@[j + 1],
            g1_scale(gens.1@[path.len() + 2 + j], r),
        )
}

/// Two node secrets with the same commitment and the same entry list.
pub open spec fn key_eq(a: Sigkey, b: Sigkey) -> bool {
    a.0 == b.0 && a.1@ == b.1@
}

/// `key` descends from `anc` (the secret stored at `anc_path`): a chain of
/// single derivation steps, each under some scalar, leads from `anc` down
/// to `key` at `path`.
pub open spec fn spec_derived_from(
    anc: Sigkey,
    anc_path: Seq<u8>,
    key: Sigkey,
    path: Seq<u8>,
    gens: GeneratorSet,
) -> bool
    decreases path.len(),
{
    if path.len() <= anc_path.len() {
        path == anc_path && key_eq(key, anc)
    } else {
        exists|mid: Sigkey, r: FieldElement|
            spec_derived_from(anc, anc_path, mid, path.drop_last(), gens) && #[trigger] spec_child_of(
                mid,
                path.drop_last(),
                path.last(),
                r,
                gens,
                key,
            )
    }
}

/// No node secret appears from nowhere: every secret stored after an update
/// either was already stored under the same path, unchanged, or descends by
/// derivation steps from a secret that was stored before the update.
pub open spec fn spec_keys_descend(
    old_db: InMemorySigKeyDatabase,
    new_db: InMemorySigKeyDatabase,
    gens: GeneratorSet,
) -> bool {
    forall|p: Seq<u8>|
        #[trigger] new_db.contains_path(p) ==> (old_db.contains_path(p) && new_db.key_for(p)
            == old_db.key_for(p)) || (exists|ap: Seq<u8>|
            old_db.contains_path(ap) && #[trigger] spec_derived_from(
                old_db.key_for(ap),
                ap,
                new_db.key_for(p),
                p,
                gens,
            ))
}

/// Derive the child of a node secret in direction `bit` with fresh scalar
/// `r`, so that the child is distributed as a freshly set-up secret for its
/// subtree.
pub fn derive_child(
    parent: &Sigkey,
    path: &Vec<u8>,
    bit: u8,
    r: &FieldElement,
    gens: &GeneratorSet,
) -> (child: Sigkey)
    requires
        parent.1@.len() >= 3,
        gens.1@.len() > path@.len() + parent.1@.len(),
    ensures
        spec_child_of(*parent, path@, bit, *r, *gens, child),
{
    let c = g2_add(&parent.0, &g2_mul(&gens.0, r));
    let mut child_path = copy_path(path);
    child_path.push(bit);
    proof {
        assert(child_path@ =~= path@.push(bit));
    }
    let pf = path_factor_total(&child_path, gens);
    let bterm = if bit == 1 {
        g1_clone(&parent.1[1])
    } else {
        g1_add(&parent.1[1], &parent.1[1])
    };
    let d = g1_add(&g1_add(&parent.1[0], &bterm), &g1_mul(&pf, r));
    let mut list: Vec<G1> = Vec::new();
    list.push(d);
    let glen = gens.1.len();
    let mut j: usize = 1;
    while j < parent.1.len() - 1
        invariant
            1 <= j <= parent.1@.len() - 1,
            gens.1@.len() > path@.len() + parent.1@.len(),
            glen == gens.1@.len(),
            list@.len() == j,
            list@[0] == d,
            forall|k: int|
                1 <= k < j ==> list@[k] == g1_sum(
                    parent.1@[k + 1],
                    g1_scale(gens.1@[path@.len() + 2 + k], *r),
                ),
        decreases parent.1@.len() - 1 - j,
    {
        let e = g1_add(&parent.1[j + 1], &g1_mul(&gens.1[path.len() + 2 + j], r));
        list.push(e);
        j = j + 1;
    }
    Sigkey(c, list)
}

/// The store invariant that does not depend on the current period: paths
/// are well-formed and each node secret has one entry per remaining level,
/// plus the trailing one — `l + 1 - depth` entries in all.
pub open spec fn store_wf(db: &InMemorySigKeyDatabase, l: nat) -> bool {
    &&& db.wf()
    &&& forall|p: Seq<u8>|
        #[trigger] db.contains_path(p) ==> valid_path(p, l) && db.key_for(p).1@.len() == l + 1
            - p.len()
}

/// The right siblings of `q` at positions `m <= x < k`: the frontier
/// entries materialised while descending from depth `m` towards `q`.
pub open spec fn mid_sibs(q: Seq<u8>, m: int, k: int) -> Set<Seq<u8>> {
    Set::new(
        |s: Seq<u8>|
            exists|x: int| m <= x < k && q[x] == 1 && s == #[trigger] q.take(x).push(2u8),
    )
}

/// The key-evolution state machine: the tree parameter and the current
/// period.  The node secrets live in the key store, which together with a
/// manager satisfies `wf` — the Frontier Invariant.
#[derive(Debug)]
pub struct SigManager {
    pub l: u8,
    pub t: u128,
}

impl SigManager {
    /// The last signable period, `2^l - 1`.
    pub open spec fn horizon(&self) -> nat {
        (pow2(self.l as nat) - 1) as nat
    }

    /// The Frontier Invariant: while periods remain, the store holds node
    /// secrets for exactly the frontier of the current period's node; once
    /// the horizon is passed, it holds nothing.
    pub open spec fn wf(&self, db: &InMemorySigKeyDatabase) -> bool {
        &&& 2 <= self.l <= 127
        &&& 1 <= self.t <= pow2(self.l as nat)
        &&& store_wf(db, self.l as nat)
        &&& if self.t <= self.horizon() {
            db.paths() == frontier(spec_path_of(self.t as nat, self.l as nat))
        } else {
            db.paths() == Set::<Seq<u8>>::empty()
        }
    }

    /// The node secret for period `t`, copied out of the store.  Fails with
    /// `InvalidNodeNum` for a period out of range and `SigkeyNotFound` for a
    /// period whose node secret is not stored — punctured, or not yet
    /// materialised.
    pub fn get_key(t: u128, l: u8, db: &InMemorySigKeyDatabase) -> (r: Result<
        Sigkey,
        ForwardSecureSignatureError,
    >)
        requires
            l <= 127,
            store_wf(db, l as nat),
        ensures
            !(1 <= t <= pow2(l as nat) - 1) <==> r == Err::<Sigkey, _>(
                ForwardSecureSignatureError::InvalidNodeNum { t, l },
            ),
            (1 <= t <= pow2(l as nat) - 1 && !db.contains_path(
                spec_path_of(t as nat, l as nat),
            )) <==> r == Err::<Sigkey, _>(ForwardSecureSignatureError::SigkeyNotFound { t }),
            (1 <= t <= pow2(l as nat) - 1 && db.contains_path(
                spec_path_of(t as nat, l as nat),
            )) <==> r is Ok,
            r matches Ok(k) ==> {
                &&& k.0 == db.key_for(spec_path_of(t as nat, l as nat)).0
                &&& k.1@ == db.key_for(spec_path_of(t as nat, l as nat)).1@
                &&& k.1@.len() >= 2
            },
    {
        let path = match from_node_num_to_path(t, l) {
            Ok(p) => p,
            Err(e) => {
                return Err(e);
            },
        };
        match db.get(&path) {
            Some(k) => {
                proof {
                    assert(valid_path(path@, l as nat));
                }
                Ok(k.duplicate())
            },
            None => Err(ForwardSecureSignatureError::SigkeyNotFound { t }),
        }
    }

    /// Advance the state to `target`, a strictly later period within the
    /// horizon: split the stored ancestor of the target's node downwards,
    /// keeping each right sibling passed on the way, then drop every stored
    /// entry whose subtree lies before the target.
    #[verifier::loop_isolation(false)]
    fn advance_to(&mut self, target: u128, gens: &GeneratorSet, db: &mut InMemorySigKeyDatabase)
        requires
            old(self).wf(old(db)),
            old(self).t < target,
            target <= old(self).horizon(),
            gens.1@.len() == old(self).l as nat + 2,
        ensures
            final(self).l == old(self).l,
            final(self).t == target,
            final(self).wf(final(db)),
            spec_keys_descend(*old(db), *final(db), *gens),
    {
        let l = self.l;
        let ghost lx = l as nat;
        let ghost p_old = spec_path_of(old(self).t as nat, lx);
        let ghost old_paths = db.paths();
        proof {
            lemma_path_of_props(old(self).t as nat, lx);
            lemma_path_of_props(target as nat, lx);
            lemma_frontier_covers(old(self).t as nat, target as nat, lx);
        }
        let q = node_num_to_path(target, l);
        // Find the stored ancestor of the target's node: the frontier of the
        // current node covers every later period, so one exists.
        let mut a: Vec<u8> = Vec::new();
        let mut found = db.contains_key(&a);
        proof {
            assert(a@ =~= q@.take(0));
        }
        while !found
            invariant
                a@ == q@.take(a@.len() as int),
                a@.len() <= q@.len(),
                found == db.contains_path(a@),
                forall|j: int| 0 <= j < a@.len() ==> !db.contains_path(#[trigger] q@.take(j)),
            decreases q@.len() - a@.len(),
        {
            proof {
                if a@.len() == q@.len() {
                    let i = choose|i: int|
                        0 <= i <= q@.len() && frontier(p_old).contains(#[trigger] q@.take(i));
                    assert(db.contains_path(q@.take(i)));
                    assert(false);
                }
            }
            let bit = q[a.len()];
            a.push(bit);
            found = db.contains_key(&a);
            proof {
                assert(a@ =~= q@.take(a@.len() as int));
            }
        }
        let ghost m = a@.len() as int;
        let ghost anc_key = old(db).key_for(q@.take(m));
        proof {
            assert(frontier(p_old).contains(a@));
            assert(old(db).contains_path(q@.take(m)));
        }
        if a.len() < q.len() {
            // Descend from the ancestor to the target, materialising the
            // right sibling of every left step with fresh randomness.
            let mut key = db.get_existing(&a).duplicate();
            db.erase(&a);
            let mut cur = a;
            proof {
                assert(mid_sibs(q@, m, m) =~= Set::<Seq<u8>>::empty());
                assert(db.paths() =~= old_paths.remove(q@.take(m)).union(mid_sibs(q@, m, m)));
                assert(key_eq(key, anc_key));
                assert(spec_derived_from(anc_key, q@.take(m), key, cur@, *gens));
            }
            while cur.len() < q.len()
                invariant
                    cur@ == q@.take(cur@.len() as int),
                    m <= cur@.len() <= q@.len(),
                    db.wf(),
                    key.1@.len() == lx + 1 - cur@.len(),
                    db.paths() == old_paths.remove(q@.take(m)).union(
                        mid_sibs(q@, m, cur@.len() as int),
                    ),
                    forall|p: Seq<u8>|
                        #[trigger] db.contains_path(p) ==> valid_path(p, lx) && db.key_for(
                            p,
                        ).1@.len() == lx + 1 - p.len(),
                    spec_derived_from(anc_key, q@.take(m), key, cur@, *gens),
                    forall|p: Seq<u8>|
                        #[trigger] db.contains_path(p) ==> (old(db).contains_path(p) && p
                            != q@.take(m) && db.key_for(p) == old(db).key_for(p))
                            || spec_derived_from(anc_key, q@.take(m), db.key_for(p), p, *gens),
                decreases q@.len() - cur@.len(),
            {
                let i = cur.len();
                let bit = q[i];
                proof {
                    assert(q@[i as int] == 1 || q@[i as int] == 2);
                }
                if bit == 1 {
                    let r_sib = random_field_element();
                    let sib_key = derive_child(&key, &cur, 2, &r_sib, gens);
                    let mut sib = copy_path(&cur);
                    sib.push(2u8);
                    proof {
                        assert(sib@ =~= q@.take(i as int).push(2u8));
                        assert(valid_path(sib@, lx));
                        let sp = q@.take(i as int).push(2u8);
                        assert(sp.drop_last() =~= q@.take(i as int));
                        assert(sp.last() == 2u8);
                        assert(sp.len() == i + 1);
                        assert(spec_child_of(key, sp.drop_last(), sp.last(), r_sib, *gens,
                        sib_key));
                        assert(spec_derived_from(anc_key, q@.take(m), sib_key, sp, *gens));
                    }
                    db.insert(sib, sib_key);
                    proof {
                        assert(mid_sibs(q@, m, i + 1) =~= mid_sibs(q@, m, i as int).insert(
                            q@.take(i as int).push(2u8),
                        ));
                        assert(db.paths() =~= old_paths.remove(q@.take(m)).union(
                            mid_sibs(q@, m, i + 1),
                        ));
                    }
                } else {
                    proof {
                        assert(mid_sibs(q@, m, i + 1) =~= mid_sibs(q@, m, i as int));
                        assert(db.paths() =~= old_paths.remove(q@.take(m)).union(
                            mid_sibs(q@, m, i + 1),
                        ));
                    }
                }
                let ghost key_prev = key;
                let ghost cur_prev = cur@;
                let r_ch = random_field_element();
                let child = derive_child(&key, &cur, bit, &r_ch, gens);
                wipe_sigkey(key);
                key = child;
                cur.push(bit);
                proof {
                    assert(cur@ =~= q@.take(cur@.len() as int));
                    assert(cur@.drop_last() =~= cur_prev);
                    assert(cur@.last() == bit);
                    assert(spec_child_of(key_prev, cur@.drop_last(), cur@.last(), r_ch, *gens,
                    key));
                    assert(spec_derived_from(anc_key, q@.take(m), key, cur@, *gens));
                }
            }
            proof {
                assert(cur@ =~= q@);
                assert(valid_path(q@, lx));
            }
            let ghost key_final = key;
            db.insert(cur, key);
            proof {
                assert(db.contains_path(q@));
                assert forall|p: Seq<u8>| #[trigger] db.contains_path(p) implies valid_path(
                    p,
                    lx,
                ) && db.key_for(p).1@.len() == lx + 1 - p.len() by {
                    if p == q@ {
                    } else {
                    }
                }
                assert forall|p: Seq<u8>| #[trigger] db.contains_path(p) implies (old(
                    db,
                ).contains_path(p) && db.key_for(p) == old(db).key_for(p)) || spec_derived_from(
                    anc_key,
                    q@.take(m),
                    db.key_for(p),
                    p,
                    *gens,
                ) by {
                    if p == q@ {
                        assert(db.key_for(p) == key_final);
                    } else {
                    }
                }
            }
        } else {
            proof {
                assert(a@ =~= q@);
                assert(db.contains_path(q@));
                assert(forall|p: Seq<u8>|
                    #[trigger] db.contains_path(p) ==> valid_path(p, lx) && db.key_for(
                        p,
                    ).1@.len() == lx + 1 - p.len());
            }
        }
        // Every member of the target's frontier is now stored.
        proof {
            assert forall|s: Seq<u8>| frontier(q@).contains(s) implies db.contains_path(s) by {
                if s == q@ {
                    assert(db.contains_path(s));
                } else {
                    let i = choose|i: int|
                        0 <= i < q@.len() && q@[i] == 1 && s == #[trigger] q@.take(i).push(2u8);
                    assert(s.len() == i + 1);
                    assert(s[i] == 2);
                    if s == q@ {
                        assert(false);
                    }
                    if i >= m {
                        assert(m < q@.len());
                        assert(mid_sibs(q@, m, q@.len() as int).contains(s));
                        assert(old_paths.remove(q@.take(m)).union(
                            mid_sibs(q@, m, q@.len() as int),
                        ).contains(s));
                        assert(db.contains_path(s));
                    } else {
                        lemma_frontier_shared_siblings(p_old, q@, m, i);
                        assert(old_paths.contains(s));
                        assert(q@.take(m).len() == m);
                        if s == q@.take(m) {
                            assert(q@.take(m)[i] == 2);
                            assert(q@.take(m)[i] == q@[i]);
                            assert(false);
                        }
                        if m < q@.len() {
                            assert(old_paths.remove(q@.take(m)).contains(s));
                            assert(old_paths.remove(q@.take(m)).union(
                                mid_sibs(q@, m, q@.len() as int),
                            ).contains(s));
                            assert(db.contains_path(s));
                        } else {
                            assert(db.contains_path(s));
                        }
                    }
                }
            }
        }
        // Drop every stored entry that is not on the target's frontier: its
        // subtree lies entirely before the target.
        let plist = db.paths_list();
        let ghost pre = *db;
        let mut idx: usize = 0;
        while idx < plist.len()
            invariant
                idx <= plist@.len(),
                db.wf(),
                forall|p: Seq<u8>|
                    #[trigger] db.contains_path(p) ==> pre.contains_path(p) && db.key_for(p)
                        == pre.key_for(p),
                forall|p: Seq<u8>|
                    pre.contains_path(p) && frontier(q@).contains(p) ==> db.contains_path(p),
                forall|j: int|
                    0 <= j < idx && !frontier(q@).contains(#[trigger] plist@[j]@)
                        ==> !db.contains_path(plist@[j]@),
            decreases plist@.len() - idx,
        {
            if !is_frontier_member(&plist[idx], &q) {
                db.erase(&plist[idx]);
            }
            idx = idx + 1;
        }
        self.t = target;
        proof {
            assert forall|p: Seq<u8>| #[trigger] db.contains_path(p) implies frontier(
                q@,
            ).contains(p) by {
                if !frontier(q@).contains(p) {
                    assert(pre.contains_path(p));
                    let j = choose|j: int| 0 <= j < plist@.len() && plist@[j]@ == p;
                    assert(!db.contains_path(plist@[j]@));
                    assert(false);
                }
            }
            assert forall|p: Seq<u8>| frontier(q@).contains(p) implies db.contains_path(p) by {
                assert(pre.contains_path(p));
            }
            assert(db.paths() =~= frontier(q@));
            assert forall|p: Seq<u8>| #[trigger] db.contains_path(p) implies valid_path(p, lx)
                && db.key_for(p).1@.len() == lx + 1 - p.len() by {
                assert(pre.contains_path(p));
                assert(db.key_for(p) == pre.key_for(p));
            }
            assert(store_wf(db, lx));
            assert(self.wf(db));
            assert forall|p: Seq<u8>| #[trigger] db.contains_path(p) implies (old(
                db,
            ).contains_path(p) && db.key_for(p) == old(db).key_for(p)) || (exists|ap: Seq<u8>|
                old(db).contains_path(ap) && #[trigger] spec_derived_from(
                    old(db).key_for(ap),
                    ap,
                    db.key_for(p),
                    p,
                    *gens,
                )) by {
                assert(pre.contains_path(p));
                assert(db.key_for(p) == pre.key_for(p));
                if m < q@.len() {
                    if !(old(db).contains_path(p) && pre.key_for(p) == old(db).key_for(p)) {
                        assert(spec_derived_from(anc_key, q@.take(m), pre.key_for(p), p, *gens));
                        assert(spec_derived_from(
                            old(db).key_for(q@.take(m)),
                            q@.take(m),
                            db.key_for(p),
                            p,
                            *gens,
                        ));
                    }
                }
            }
            assert(spec_keys_descend(*old(db), *db, *gens));
        }
    }

    /// Advance the current period by one, materialising the next node's
    /// secret and erasing the current one.  At the last period the state
    /// becomes exhausted; past it, the update is rejected.
    pub fn simple_update(&mut self, gens: &GeneratorSet, db: &mut InMemorySigKeyDatabase) -> (r:
        Result<(), ForwardSecureSignatureError>)
        requires
            old(self).wf(old(db)),
            gens.1@.len() == old(self).l as nat + 2,
        ensures
            final(self).l == old(self).l,
            old(self).t > old(self).horizon() ==> r == Err::<(), _>(
                ForwardSecureSignatureError::InvalidNodeNum {
                    t: old(self).t,
                    l: old(self).l,
                },
            ) && *final(self) == *old(self) && *final(db) == *old(db),
            old(self).t <= old(self).horizon() ==> r is Ok && final(self).t == old(self).t + 1
                && final(self).wf(final(db)) && spec_keys_descend(*old(db), *final(db), *gens),
    {
        let l = self.l;
        let max = pow2_u128(l) - 1;
        if self.t > max {
            return Err(ForwardSecureSignatureError::InvalidNodeNum { t: self.t, l });
        }
        if self.t == max {
            // The last period: erase the final node secret; the engine is
            // exhausted.
            let p = node_num_to_path(self.t, l);
            proof {
                lemma_last_node_path(l as nat);
                assert(forall|i: int|
                    0 <= i < p@.len() ==> p@[i] == 2);
                lemma_frontier_all_twos(p@);
            }
            db.erase(&p);
            self.t = self.t + 1;
            proof {
                assert forall|s: Seq<u8>| !db.contains_path(s) by {
                    if db.contains_path(s) {
                        assert(old(db).paths().contains(s));
                        assert(frontier(p@).contains(s));
                        assert(s == p@);
                        assert(false);
                    }
                }
                assert(db.paths() =~= Set::<Seq<u8>>::empty());
                assert(spec_keys_descend(*old(db), *db, *gens));
            }
            Ok(())
        } else {
            self.advance_to(self.t + 1, gens, db);
            Ok(())
        }
    }

    /// Advance directly to period `t`.  Rejects a target in the past with
    /// `SigkeyUpdateBackward`, the current period with
    /// `SigkeyAlreadyUpdated`, and a target beyond the horizon with
    /// `InvalidNodeNum`; in each case the state is left untouched.
    pub fn fast_forward_update(
        &mut self,
        t: u128,
        gens: &GeneratorSet,
        db: &mut InMemorySigKeyDatabase,
    ) -> (r: Result<(), ForwardSecureSignatureError>)
        requires
            old(self).wf(old(db)),
            gens.1@.len() == old(self).l as nat + 2,
        ensures
            final(self).l == old(self).l,
            t < old(self).t ==> r == Err::<(), _>(
                ForwardSecureSignatureError::SigkeyUpdateBackward {
                    old_t: t,
                    current_t: old(self).t,
                },
            ) && *final(self) == *old(self) && *final(db) == *old(db),
            t == old(self).t ==> r == Err::<(), _>(
                ForwardSecureSignatureError::SigkeyAlreadyUpdated { t },
            ) && *final(self) == *old(self) && *final(db) == *old(db),
            t > old(self).t && t > old(self).horizon() ==> r == Err::<(), _>(
                ForwardSecureSignatureError::InvalidNodeNum { t, l: old(self).l },
            ) && *final(self) == *old(self) && *final(db) == *old(db),
            t > old(self).t && t <= old(self).horizon() ==> r is Ok && final(self).t == t
                && final(self).wf(final(db)) && spec_keys_descend(*old(db), *final(db), *gens),
    {
        if t < self.t {
            return Err(ForwardSecureSignatureError::SigkeyUpdateBackward {
                old_t: t,
                current_t: self.t,
            });
        }
        if t == self.t {
            return Err(ForwardSecureSignatureError::SigkeyAlreadyUpdated { t });
        }
        let l = self.l;
        let max = pow2_u128(l) - 1;
        if t > max {
            return Err(ForwardSecureSignatureError::InvalidNodeNum { t, l });
        }
        self.advance_to(t, gens, db);
        Ok(())
    }
}

/// A key pair: the verification key; the signing capability itself lives in
/// the key store as the root node secret.
#[derive(Debug)]
pub struct Keypair {
    pub ver_key: Verkey,
}

/// What binds a fresh key pair together: the verification key is the master
/// scalar `x` times the verification-group generator, and the root node
/// secret is the scheme's root form for that same `x` under the blinding
/// scalar `rho` — commitment `rho * g2`, capability `x * h + rho * h_0`, and
/// one re-randomiser `rho * h_j` per remaining level.
pub open spec fn spec_keygen_binding(
    gens: GeneratorSet,
    vk: Verkey,
    root: Sigkey,
    l: u8,
    x: FieldElement,
    rho: FieldElement,
) -> bool {
    &&& vk.value == g2_scale(gens.0, x)
    &&& root.0 == g2_scale(gens.0, rho)
    &&& root.1@.len() == l as int + 1
    &&& root.1@[0] == g1_sum(g1_scale(gens.1@[0], x), g1_scale(gens.1@[1], rho))
    &&& forall|j: int| 1 <= j <= l ==> root.1@[j] == g1_scale(gens.1@[j + 1], rho)
}

/// A freshly generated pair is bound together: some master scalar and some
/// blinding scalar relate the verification key and the stored root node
/// secret as `spec_keygen_binding` states.
pub open spec fn spec_fresh_keypair(gens: GeneratorSet, vk: Verkey, root: Sigkey, l: u8) -> bool {
    exists|x: FieldElement, rho: FieldElement|
        #[trigger] spec_keygen_binding(gens, vk, root, l, x, rho)
}

impl Keypair {
    /// Generate a fresh key pair for horizon `t_max` over the given public
    /// parameters, writing the root node secret into the (empty) store.
    /// The master scalar is overwritten once the root secret is formed.
    pub fn new(
        t_max: u128,
        gens: &GeneratorSet,
        db: &mut InMemorySigKeyDatabase,
    ) -> (r: Result<(Keypair, SigManager), ForwardSecureSignatureError>)
        requires
            old(db).wf(),
            old(db).paths() == Set::<Seq<u8>>::empty(),
        ensures
            r matches Ok(pair) ==> pair.1.wf(final(db)) && pair.1.t == 1 && pow2(pair.1.l as nat)
                == t_max + 1,
            r matches Ok(pair) ==> spec_fresh_keypair(
                *gens,
                pair.0.ver_key,
                final(db).key_for(Seq::<u8>::empty()),
                pair.1.l,
            ),
            (t_max < 3 || t_max == u128::MAX) ==> r == Err::<(Keypair, SigManager), _>(
                ForwardSecureSignatureError::InvalidMaxTimePeriod { t_max },
            ) && *final(db) == *old(db),
            (3 <= t_max < u128::MAX && !is_power_of_two((t_max + 1) as nat)) ==> r == Err::<
                (Keypair, SigManager),
                _,
            >(ForwardSecureSignatureError::NonPowerOfTwo { t_max }) && *final(db) == *old(db),
            (3 <= t_max < u128::MAX && is_power_of_two((t_max + 1) as nat)) ==> ((r is Ok)
                <==> forall|l: nat| pow2(l) == t_max + 1 ==> gens.1@.len() >= l + 2),
    {
        let l = match crate::tree::calculate_l(t_max) {
            Ok(l) => l,
            Err(e) => {
                return Err(e);
            },
        };
        if gens.1.len() < l as usize + 2 {
            proof {
                lemma_pow2_injective(l as nat, choose|k: nat| pow2(k) == t_max + 1);
                assert forall|k: nat| pow2(k) == t_max + 1 implies k == l as nat by {
                    lemma_pow2_injective(k, l as nat);
                }
            }
            return Err(ForwardSecureSignatureError::NotEnoughGenerators { n: l as usize + 2 });
        }
        let mut x = random_field_element();
        let mut rho = random_field_element();
        let ghost master = x;
        let ghost blind = rho;
        let vk = Verkey { value: g2_mul(&gens.0, &x) };
        let c = g2_mul(&gens.0, &rho);
        let d = g1_add(&g1_mul(&gens.1[0], &x), &g1_mul(&gens.1[1], &rho));
        fe_wipe(&mut x);
        let mut list: Vec<G1> = Vec::new();
        list.push(d);
        let mut k: usize = 2;
        while k < l as usize + 2
            invariant
                2 <= k <= l as usize + 2,
                gens.1@.len() >= l as nat + 2,
                rho == blind,
                list@.len() == k - 1,
                list@[0] == d,
                forall|j: int| 1 <= j < k - 1 ==> list@[j] == g1_scale(gens.1@[j + 1], blind),
            decreases l as int + 2 - k,
        {
            list.push(g1_mul(&gens.1[k], &rho));
            k = k + 1;
        }
        fe_wipe(&mut rho);
        let root = Sigkey(c, list);
        let ghost root_snapshot = root;
        let empty_path: Vec<u8> = Vec::new();
        proof {
            assert(empty_path@ =~= Seq::<u8>::empty());
        }
        db.insert(empty_path, root);
        let mgr = SigManager { l, t: 1 };
        proof {
            lemma2_to64();
            assert forall|kx: nat| pow2(kx) == t_max + 1 implies gens.1@.len() >= kx + 2 by {
                lemma_pow2_injective(kx, l as nat);
            }
            let rootp = spec_path_of(1, l as nat);
            assert(rootp =~= Seq::<u8>::empty());
            assert(Seq::<u8>::empty().len() == 0);
            assert(valid_path(rootp, l as nat));
            assert forall|s: Seq<u8>| frontier(rootp).contains(s) <==> s == rootp by {
                lemma_frontier_all_twos(rootp);
            }
            assert forall|p: Seq<u8>| #[trigger] db.contains_path(p) implies p == rootp by {
                assert(db.paths().contains(p));
            }
            assert(db.paths() =~= frontier(rootp));
            assert(mgr.horizon() >= 1) by {
                lemma_pow2_strictly_increases(1, l as nat);
            }
            assert(mgr.wf(db));
            assert(db.key_for(Seq::<u8>::empty()) == root_snapshot);
        }
        let kp = Keypair { ver_key: vk };
        proof {
            assert(spec_keygen_binding(
                *gens,
                kp.ver_key,
                db.key_for(Seq::<u8>::empty()),
                mgr.l,
                master,
                blind,
            ));
            assert(spec_fresh_keypair(*gens, kp.ver_key, db.key_for(Seq::<u8>::empty()), mgr.l));
        }
        Ok((kp, mgr))
    }
}

/// Generate the public parameters and a fresh key pair for horizon `t_max`
/// under a domain-separation label, writing the root node secret into the
/// (empty) store.
pub fn setup(t_max: u128, label: &[u8], db: &mut InMemorySigKeyDatabase) -> (r: Result<
    (GeneratorSet, Verkey, SigManager),
    ForwardSecureSignatureError,
>)
    requires
        old(db).wf(),
        old(db).paths() == Set::<Seq<u8>>::empty(),
    ensures
        r is Ok <==> (3 <= t_max < u128::MAX && is_power_of_two((t_max + 1) as nat)),
        (t_max < 3 || t_max == u128::MAX) <==> r == Err::<(GeneratorSet, Verkey, SigManager), _>(
            ForwardSecureSignatureError::InvalidMaxTimePeriod { t_max },
        ),
        (3 <= t_max < u128::MAX && !is_power_of_two((t_max + 1) as nat)) <==> r == Err::<
            (GeneratorSet, Verkey, SigManager),
            _,
        >(ForwardSecureSignatureError::NonPowerOfTwo { t_max }),
        r matches Ok(tr) ==> {
            &&& tr.2.wf(final(db))
            &&& tr.2.t == 1
            &&& pow2(tr.2.l as nat) == t_max + 1
            &&& tr.0.1@.len() == tr.2.l as nat + 2
            &&& tr.0.0 == g2_of_hash(spec_gen_input(label@, 0, 0))
            &&& forall|i: int|
                0 <= i < tr.0.1@.len() ==> tr.0.1@[i] == g1_of_hash(
                    spec_gen_input(label@, 1, i as u8),
                )
            &&& spec_fresh_keypair(tr.0, tr.1, final(db).key_for(Seq::<u8>::empty()), tr.2.l)
        },
{
    let gens = match GeneratorSet::new(t_max, label) {
        Ok(g) => g,
        Err(e) => {
            return Err(e);
        },
    };
    let (kp, mgr) = match Keypair::new(t_max, &gens, db) {
        Ok(p) => p,
        Err(e) => {
            proof {
                assert(false);
            }
            return Err(e);
        },
    };
    Ok((gens, kp.ver_key, mgr))
}

/// Forward security, as a theorem of the Frontier Invariant: a well-formed
/// signer holds no node secret for any period before the current one, so
/// `get_key` for a past period fails with `SigkeyNotFound`.
pub proof fn lemma_forward_security(m: SigManager, db: &InMemorySigKeyDatabase, u: nat)
    requires
        m.wf(db),
        1 <= u < m.t,
    ensures
        !db.contains_path(spec_path_of(u, m.l as nat)),
{
    let lx = m.l as nat;
    if db.contains_path(spec_path_of(u, lx)) {
        assert(m.t <= m.horizon() || db.paths() == Set::<Seq<u8>>::empty());
        if m.t <= m.horizon() {
            let p = spec_path_of(m.t as nat, lx);
            lemma_path_of_props(m.t as nat, lx);
            lemma_path_of_props(u, lx);
            assert(db.paths().contains(spec_path_of(u, lx)));
            assert(frontier(p).contains(spec_path_of(u, lx)));
            lemma_frontier_at_or_after(p, spec_path_of(u, lx), lx);
            assert(false);
        } else {
            assert(db.paths().contains(spec_path_of(u, lx)));
            assert(false);
        }
    }
}

/// Accessibility, as a theorem of the Frontier Invariant: a well-formed
/// signer that has not passed the horizon holds the node secret for its
/// current period, so `get_key` for it succeeds.
pub proof fn lemma_current_key_available(m: SigManager, db: &InMemorySigKeyDatabase)
    requires
        m.wf(db),
        m.t <= m.horizon(),
    ensures
        db.contains_path(spec_path_of(m.t as nat, m.l as nat)),
{
    let p = spec_path_of(m.t as nat, m.l as nat);
    assert(frontier(p).contains(p));
    assert(db.paths().contains(p));
}

/// One step at a time or one fast-forward jump: two well-formed signers at
/// the same period and horizon hold node secrets for exactly the same
/// paths, so the same periods are signable, whichever update sequence
/// brought each of them there.
pub proof fn lemma_update_paths_agree(
    m1: SigManager,
    db1: &InMemorySigKeyDatabase,
    m2: SigManager,
    db2: &InMemorySigKeyDatabase,
)
    requires
        m1.wf(db1),
        m2.wf(db2),
        m1.t == m2.t,
        m1.l == m2.l,
    ensures
        db1.paths() == db2.paths(),
{
}

} // verus!

