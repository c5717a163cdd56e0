//! The decisions of the Tardigrade state-machine-replication protocol.
//!
//! An epoch collects a batch of transactions, agrees on it with Byzantine
//! lattice agreement (BLA), which runs up to `kappa` rounds of graded
//! consensus (GC), each of which starts with a propose step. Every step
//! waits for fixed multiples of the network delay `delta` and then decides
//! on what it has received; the functions here are those decisions, from
//! what was received to what to send and what to output.

use std::collections::HashMap;
use std::collections::HashSet;
use vstd::prelude::*;
use vstd::std_specs::iter::IteratorSpec;

use crate::messages::Certificate;
use crate::messages::Message;
use crate::messages::Status;
use crate::messages::Transaction;

verus! {

broadcast use vstd::std_specs::hash::group_hash_axioms;

/// Whether every element of `a` is in `b`.
fn is_subset<K: std::hash::Hash + Eq>(a: &HashSet<K>, b: &HashSet<K>) -> (res: bool)
    requires
        vstd::std_specs::hash::obeys_key_model::<K>(),
    ensures
        res == a@.subset_of(b@),
{
    let ghost ks = vstd::std_specs::hash::spec_hash_keys_iter(a).remaining();
    let ghost mut count: int = 0;
    for x in iter: a.iter()
        invariant
            vstd::std_specs::hash::obeys_key_model::<K>(),
            iter.seq() == ks,
            count == iter.index(),
            forall|j: int| 0 <= j < iter.index() ==> b@.contains(*ks[j]),
    {
        if !b.contains(x) {
            assert(ks.unref().to_set().contains(*x));
            return false;
        }
        proof {
            count = count + 1;
        }
    }
    assert(count == ks.len());
    assert forall|y: K| a@.contains(y) implies b@.contains(y) by {
        assert(ks.unref().to_set().contains(y));
        let j = choose|j: int| 0 <= j < ks.len() && ks.unref()[j] == y;
        assert(*ks[j] == y);
    }
    true
}

/// Whether `a` and `b` hold the same elements.
fn same_set<K: std::hash::Hash + Eq>(a: &HashSet<K>, b: &HashSet<K>) -> (res: bool)
    requires
        vstd::std_specs::hash::obeys_key_model::<K>(),
    ensures
        res == (a@ == b@),
{
    let r = is_subset(a, b) && is_subset(b, a);
    proof {
        if r {
            assert(a@ =~= b@);
        }
    }
    r
}

/// Whether `a` and `b` hold the same transactions.
pub fn same_transactions(a: &HashSet<Transaction>, b: &HashSet<Transaction>) -> (res: bool)
    ensures
        res == (a@ == b@),
{
    same_set(a, b)
}

/// A copy of a set.
pub fn copy_set<K: std::hash::Hash + Eq + Copy>(a: &HashSet<K>) -> (res: HashSet<K>)
    requires
        vstd::std_specs::hash::obeys_key_model::<K>(),
    ensures
        res@ == a@,
{
    let ghost ks = vstd::std_specs::hash::spec_hash_keys_iter(a).remaining();
    let ghost mut count: int = 0;
    let mut res: HashSet<K> = HashSet::new();
    for x in iter: a.iter()
        invariant
            vstd::std_specs::hash::obeys_key_model::<K>(),
            iter.seq() == ks,
            count == iter.index(),
            forall|y: K|
                res@.contains(y) <==> exists|j: int| 0 <= j < count && *ks[j] == y,
    {
        assert(*x == *ks[count]);
        res.insert(*x);
        proof {
            assert forall|y: K| res@.contains(y) implies exists|j: int|
                0 <= j < count + 1 && *ks[j] == y by {
                if y == *x {
                    assert(*ks[count] == y);
                }
            }
            count = count + 1;
        }
    }
    assert forall|y: K| res@.contains(y) == a@.contains(y) by {
        if a@.contains(y) {
            assert(ks.unref().to_set().contains(y));
            let j = choose|j: int| 0 <= j < ks.len() && ks.unref()[j] == y;
            assert(*ks[j] == y);
        }
        if res@.contains(y) {
            let j = choose|j: int| 0 <= j < count && *ks[j] == y;
            assert(ks.unref()[j] == y);
            assert(ks.unref().to_set().contains(y));
        }
    }
    assert(res@ =~= a@);
    res
}

/// Adds every element of `src` to `dst`.
pub fn add_all<K: std::hash::Hash + Eq + Copy>(dst: &mut HashSet<K>, src: &HashSet<K>)
    requires
        vstd::std_specs::hash::obeys_key_model::<K>(),
    ensures
        final(dst)@ == old(dst)@.union(src@),
{
    let ghost ks = vstd::std_specs::hash::spec_hash_keys_iter(src).remaining();
    let ghost mut count: int = 0;
    let ghost start = dst@;
    for x in iter: src.iter()
        invariant
            vstd::std_specs::hash::obeys_key_model::<K>(),
            iter.seq() == ks,
            ks.unref().to_set() == src@,
            count == iter.index(),
            start.subset_of(dst@),
            forall|j: int| 0 <= j < count ==> dst@.contains(*ks[j]),
            forall|y: K| dst@.contains(y) ==> start.contains(y) || src@.contains(y),
    {
        assert(*x == *ks[count]);
        assert(ks.unref()[count] == *x);
        assert(src@.contains(*x));
        dst.insert(*x);
        proof {
            count = count + 1;
        }
    }
    assert(count == ks.len());
    assert forall|y: K| src@.contains(y) implies dst@.contains(y) by {
        assert(ks.unref().to_set().contains(y));
        let j = choose|j: int| 0 <= j < ks.len() && ks.unref()[j] == y;
        assert(*ks[j] == y);
    }
    assert(dst@ =~= start.union(src@));
}

/// How many transactions each of `num_parties` parties contributes to a
/// batch of `batch_size`: its share `batch_size / num_parties` (none when
/// there are no parties).
pub open spec fn batch_share(batch_size: u32, num_parties: u32) -> nat {
    if num_parties == 0 {
        0
    } else {
        (batch_size / num_parties) as nat
    }
}

/// The shares of all `num_parties` parties fill the batch as far as equal
/// shares can: together at most `batch_size`, and one more each would be
/// more than `batch_size`.
pub proof fn lemma_batch_share_fills_the_batch(batch_size: u32, num_parties: u32)
    requires
        num_parties > 0,
    ensures
        batch_share(batch_size, num_parties) * num_parties <= batch_size,
        (batch_share(batch_size, num_parties) + 1) * num_parties > batch_size,
{
    let q = batch_size / num_parties;
    let r = batch_size % num_parties;
    assert(batch_size == q * num_parties + r && 0 <= r < num_parties) by (nonlinear_arith)
        requires
            num_parties > 0,
            q == batch_size / num_parties,
            r == batch_size % num_parties,
    ;
    assert((q + 1) * num_parties == q * num_parties + num_parties) by (nonlinear_arith);
}

/// The transactions a party contributes to an epoch: its share of a batch
/// of `batch_size` among `num_parties` parties, numbered from 0.
pub fn generate_transactions(payload_size: u32, batch_size: u32, num_parties: u32) -> (res:
    HashSet<Transaction>)
    ensures
        forall|x: Transaction| res@.contains(x) <==> x < batch_share(batch_size, num_parties),
        res@.finite(),
        res@.len() == batch_share(batch_size, num_parties),
{
    let share: u32 = if num_parties == 0 {
        0
    } else {
        batch_size / num_parties
    };
    let mut res: HashSet<Transaction> = HashSet::new();
    let mut i: u32 = 0;
    while i < share
        invariant
            i <= share,
            share == batch_share(batch_size, num_parties),
            res@.finite(),
            res@.len() == i,
            forall|x: Transaction| res@.contains(x) <==> x < i,
        decreases share - i,
    {
        let id: Transaction = i as u64;
        assert(!res@.contains(id));
        res.insert(id);
        i = i + 1;
    }
    res
}

/// A certificate as plain values: its round and its committers.
pub open spec fn cert_view(c: Certificate) -> (u32, Set<u32>) {
    (c.k, c.committers@)
}

/// The certificate that certifies nothing yet: round 0, no committers.
pub open spec fn no_certificate() -> (u32, Set<u32>) {
    (0, Set::empty())
}

fn empty_certificate() -> (c: Certificate)
    ensures
        cert_view(c) == no_certificate(),
{
    Certificate { k: 0, committers: HashSet::new() }
}

fn copy_certificate(c: &Certificate) -> (res: Certificate)
    ensures
        cert_view(res) == cert_view(*c),
{
    Certificate { k: c.k, committers: copy_set(&c.committers) }
}

/// What a run of graded consensus outputs: a proposal, its certificate and
/// a grade. Grade 0 stands for "no output"; 1 for an output that some party
/// may have certified; 2 for an output this party certified.
pub struct GcOutput {
    pub b: HashSet<Transaction>,
    pub sig: HashSet<Transaction>,
    pub cert: Certificate,
    pub grade: u32,
}

/// A graded-consensus output as plain values.
pub struct GcOutputModel {
    pub b: Set<Transaction>,
    pub sig: Set<Transaction>,
    pub cert: (u32, Set<u32>),
    pub grade: u32,
}

pub open spec fn gc_output_view(o: GcOutput) -> GcOutputModel {
    GcOutputModel { b: o.b@, sig: o.sig@, cert: cert_view(o.cert), grade: o.grade }
}

/// The graded-consensus output "no output" (grade 0).
pub open spec fn gc_bottom() -> GcOutputModel {
    GcOutputModel {
        b: Set::empty(),
        sig: Set::empty(),
        cert: no_certificate(),
        grade: 0,
    }
}

/// A run of Byzantine lattice agreement between two rounds of graded
/// consensus: the next round `k` (from 1 to `kappa`), and the best graded
/// output so far, from round `k_star` (0 while there is none).
pub struct Bla {
    k: u32,
    kappa: u32,
    k_star: u32,
    b_star: HashSet<Transaction>,
    s_star: HashSet<Transaction>,
    c_star: Certificate,
}

/// The state of lattice agreement as plain values.
pub struct BlaModel {
    pub k: u32,
    pub kappa: u32,
    pub k_star: u32,
    pub b_star: Set<Transaction>,
    pub s_star: Set<Transaction>,
    pub c_star: (u32, Set<u32>),
}

impl View for Bla {
    type V = BlaModel;

    closed spec fn view(&self) -> BlaModel {
        BlaModel {
            k: self.k,
            kappa: self.kappa,
            k_star: self.k_star,
            b_star: self.b_star@,
            s_star: self.s_star@,
            c_star: cert_view(self.c_star),
        }
    }
}

/// What lattice agreement does next: run round `k` of graded consensus
/// from the carried state, or output a batch and its signatures.
pub enum BlaStep {
    Next(Bla),
    Done(HashSet<Transaction>, HashSet<Transaction>),
}

/// A step of lattice agreement as plain values.
pub enum BlaOutcome {
    Next(BlaModel),
    Done(Set<Transaction>, Set<Transaction>),
}

pub open spec fn bla_step_view(s: BlaStep) -> BlaOutcome {
    match s {
        BlaStep::Next(b) => BlaOutcome::Next(b@),
        BlaStep::Done(b, sig) => BlaOutcome::Done(b@, sig@),
    }
}

/// How lattice agreement starts: with no rounds at all it outputs two
/// empty sets; otherwise it runs round 1 from `(beta, sigma)` with no
/// certificate.
pub open spec fn bla_begin(beta: Set<Transaction>, sigma: Set<Transaction>, kappa: u32) -> BlaOutcome {
    if kappa == 0 {
        BlaOutcome::Done(Set::empty(), Set::empty())
    } else {
        BlaOutcome::Next(
            BlaModel {
                k: 1,
                kappa,
                k_star: 0,
                b_star: beta,
                s_star: sigma,
                c_star: no_certificate(),
            },
        )
    }
}

/// One round of lattice agreement: an output with a grade above 0 replaces
/// the carried state (with its round as `k_star`); grade 2 ends agreement
/// with that output; after round `kappa` agreement ends with two empty
/// sets.
pub open spec fn bla_next(m: BlaModel, out: GcOutputModel) -> BlaOutcome {
    let m1 = if out.grade > 0 {
        BlaModel { k_star: m.k, b_star: out.b, s_star: out.sig, c_star: out.cert, ..m }
    } else {
        m
    };
    if out.grade == 2 {
        BlaOutcome::Done(m1.b_star, m1.s_star)
    } else if m.k >= m.kappa {
        BlaOutcome::Done(Set::empty(), Set::empty())
    } else {
        BlaOutcome::Next(BlaModel { k: (m.k + 1) as u32, ..m1 })
    }
}

impl Bla {
    #[verifier::type_invariant]
    spec fn rounds_left(self) -> bool {
        1 <= self.k <= self.kappa
    }

    /// The round of graded consensus to run next.
    pub fn round(&self) -> (k: u32)
        ensures
            k == self@.k,
    {
        self.k
    }

    /// When the next round starts, as a multiple of `delta` after lattice
    /// agreement began: each round of graded consensus takes `5 * delta`,
    /// so round `k` starts at `5 * (k - 1)`.
    pub fn round_due(&self) -> (res: u64)
        ensures
            res == 5 * (self@.k - 1),
    {
        proof {
            use_type_invariant(self);
        }
        5 * (self.k as u64 - 1)
    }

    /// The round of the best graded output so far.
    pub fn k_star(&self) -> (k: u32)
        ensures
            k == self@.k_star,
    {
        self.k_star
    }

    /// The batch that the next round starts from.
    pub fn b_star(&self) -> (b: &HashSet<Transaction>)
        ensures
            b@ == self@.b_star,
    {
        &self.b_star
    }

    /// The signatures that the next round starts from.
    pub fn s_star(&self) -> (s: &HashSet<Transaction>)
        ensures
            s@ == self@.s_star,
    {
        &self.s_star
    }

    /// The certificate that the next round starts from.
    pub fn c_star(&self) -> (c: &Certificate)
        ensures
            cert_view(*c) == self@.c_star,
    {
        &self.c_star
    }
}

/// What lattice agreement is told: to begin on `(beta, sigma)` with
/// `kappa` rounds, or what the current round of graded consensus output.
pub enum BlaInput {
    Begin { beta: HashSet<Transaction>, sigma: HashSet<Transaction>, kappa: u32 },
    Round(Bla, GcOutput),
}

/// What lattice agreement does on `input`.
pub open spec fn bla_react(input: BlaInput) -> BlaOutcome {
    match input {
        BlaInput::Begin { beta, sigma, kappa } => bla_begin(beta@, sigma@, kappa),
        BlaInput::Round(state, out) => bla_next(state@, gc_output_view(out)),
    }
}

/// Lattice agreement, one decision at a time: on `Begin` it starts (or,
/// with no rounds at all, outputs two empty sets at once); on the output of
/// a round of graded consensus it says whether to run the next round or
/// what to output.
pub fn bla(input: BlaInput) -> (res: BlaStep)
    ensures
        bla_step_view(res) == bla_react(input),
{
    match input {
        BlaInput::Begin { beta, sigma, kappa } => {
            if kappa == 0 {
                return BlaStep::Done(HashSet::new(), HashSet::new());
            }
            BlaStep::Next(
                Bla {
                    k: 1,
                    kappa,
                    k_star: 0,
                    b_star: beta,
                    s_star: sigma,
                    c_star: empty_certificate(),
                },
            )
        },
        BlaInput::Round(state, gc_output) => {
            proof {
                use_type_invariant(&state);
            }
            let Bla { k, kappa, k_star, b_star, s_star, c_star } = state;
            let GcOutput { b, sig, cert, grade } = gc_output;
            let (k_star, b_star, s_star, c_star) = if grade > 0 {
                (k, b, sig, cert)
            } else {
                (k_star, b_star, s_star, c_star)
            };
            if grade == 2 {
                return BlaStep::Done(b_star, s_star);
            }
            if k >= kappa {
                return BlaStep::Done(HashSet::new(), HashSet::new());
            }
            BlaStep::Next(Bla { k: k + 1, kappa, k_star, b_star, s_star, c_star })
        },
    }
}

/// Feeding the outputs of successive rounds of graded consensus to lattice
/// agreement, from `o`, until it is done or the outputs run out.
pub open spec fn bla_feed(o: BlaOutcome, outs: Seq<GcOutputModel>) -> BlaOutcome
    decreases outs.len(),
{
    match o {
        BlaOutcome::Done(_, _) => o,
        BlaOutcome::Next(m) => if outs.len() == 0 {
            o
        } else {
            bla_feed(bla_next(m, outs[0]), outs.drop_first())
        },
    }
}

proof fn lemma_bla_feed_rounds(m: BlaModel, outs: Seq<GcOutputModel>)
    requires
        1 <= m.k <= m.kappa,
        outs.len() >= m.kappa - m.k + 1,
    ensures
        bla_feed(BlaOutcome::Next(m), outs) is Done,
    decreases outs.len(),
{
    assert(bla_feed(BlaOutcome::Next(m), outs) == bla_feed(bla_next(m, outs[0]), outs.drop_first()));
    match bla_next(m, outs[0]) {
        BlaOutcome::Done(_, _) => {},
        BlaOutcome::Next(m2) => {
            lemma_bla_feed_rounds(m2, outs.drop_first());
        },
    }
}

/// Lattice agreement with `kappa` rounds is done after at most `kappa`
/// rounds of graded consensus, whatever they output.
pub proof fn lemma_bla_ends_within_kappa(
    beta: Set<Transaction>,
    sigma: Set<Transaction>,
    kappa: u32,
    outs: Seq<GcOutputModel>,
)
    requires
        outs.len() >= kappa,
    ensures
        bla_feed(bla_begin(beta, sigma, kappa), outs) is Done,
{
    if kappa > 0 {
        let m = BlaModel {
            k: 1,
            kappa,
            k_star: 0,
            b_star: beta,
            s_star: sigma,
            c_star: no_certificate(),
        };
        lemma_bla_feed_rounds(m, outs);
    }
}

/// What lattice agreement can output: two empty sets, or the batch and
/// signatures of a round of graded consensus that output them with grade 2.
pub open spec fn bla_output_ok(b: Set<Transaction>, s: Set<Transaction>, outs: Seq<GcOutputModel>) -> bool {
    ||| b == Set::<Transaction>::empty() && s == Set::<Transaction>::empty()
    ||| exists|i: int| 0 <= i < outs.len() && outs[i].grade == 2 && outs[i].b == b && outs[i].sig == s
}

proof fn lemma_bla_feed_output(m: BlaModel, outs: Seq<GcOutputModel>)
    ensures
        bla_feed(BlaOutcome::Next(m), outs) matches BlaOutcome::Done(b, s) ==> bla_output_ok(b, s, outs),
    decreases outs.len(),
{
    if outs.len() > 0 {
        assert(bla_feed(BlaOutcome::Next(m), outs) == bla_feed(bla_next(m, outs[0]), outs.drop_first()));
        match bla_next(m, outs[0]) {
            BlaOutcome::Done(b, s) => {
                if outs[0].grade == 2 {
                    assert(outs[0].b == b && outs[0].sig == s);
                }
            },
            BlaOutcome::Next(m2) => {
                lemma_bla_feed_output(m2, outs.drop_first());
                if let BlaOutcome::Done(b, s) = bla_feed(BlaOutcome::Next(m2), outs.drop_first()) {
                    if !(b == Set::<Transaction>::empty() && s == Set::<Transaction>::empty()) {
                        let i = choose|i: int|
                            0 <= i < outs.drop_first().len() && outs.drop_first()[i].grade == 2
                                && outs.drop_first()[i].b == b && outs.drop_first()[i].sig == s;
                        assert(outs[i + 1] == outs.drop_first()[i]);
                    }
                }
            },
        }
    }
}

/// Lattice agreement outputs either two empty sets or what some round of
/// graded consensus output with grade 2.
pub proof fn lemma_bla_output(
    beta: Set<Transaction>,
    sigma: Set<Transaction>,
    kappa: u32,
    outs: Seq<GcOutputModel>,
)
    ensures
        bla_feed(bla_begin(beta, sigma, kappa), outs) matches BlaOutcome::Done(b, s)
            ==> bla_output_ok(b, s, outs),
{
    if kappa > 0 {
        let m = BlaModel {
            k: 1,
            kappa,
            k_star: 0,
            b_star: beta,
            s_star: sigma,
            c_star: no_certificate(),
        };
        lemma_bla_feed_output(m, outs);
    }
}

/// The index of the last output in `outs` with a grade above 0, if any.
pub open spec fn last_graded(outs: Seq<GcOutputModel>) -> Option<int>
    decreases outs.len(),
{
    if outs.len() == 0 {
        None
    } else {
        match last_graded(outs.drop_first()) {
            Some(j) => Some(j + 1),
            None => if outs[0].grade > 0 {
                Some(0)
            } else {
                None
            },
        }
    }
}

proof fn lemma_last_graded_bound(outs: Seq<GcOutputModel>)
    ensures
        last_graded(outs) matches Some(i) ==> 0 <= i < outs.len() && outs[i].grade > 0,
    decreases outs.len(),
{
    if outs.len() > 0 {
        lemma_last_graded_bound(outs.drop_first());
        if let Some(j) = last_graded(outs.drop_first()) {
            assert(outs.drop_first()[j] == outs[j + 1]);
        }
    }
}

/// What lattice agreement in state `m` carries after the outputs `outs`
/// (none of grade 2): the round after them, and the last output of a
/// grade above 0 with its round, or what `m` carried when there is none.
pub open spec fn carried(m: BlaModel, outs: Seq<GcOutputModel>) -> BlaModel {
    match last_graded(outs) {
        None => BlaModel { k: (m.k + outs.len()) as u32, ..m },
        Some(i) => BlaModel {
            k: (m.k + outs.len()) as u32,
            k_star: (m.k + i) as u32,
            b_star: outs[i].b,
            s_star: outs[i].sig,
            c_star: outs[i].cert,
            ..m
        },
    }
}

proof fn lemma_bla_feed_carries(m: BlaModel, outs: Seq<GcOutputModel>)
    requires
        1 <= m.k,
        m.k + outs.len() <= m.kappa,
        forall|i: int| 0 <= i < outs.len() ==> #[trigger] outs[i].grade != 2,
    ensures
        bla_feed(BlaOutcome::Next(m), outs) == BlaOutcome::Next(carried(m, outs)),
    decreases outs.len(),
{
    if outs.len() == 0 {
        assert(carried(m, outs) == m);
    } else {
        assert(outs[0].grade != 2);
        let m1 = if outs[0].grade > 0 {
            BlaModel {
                k_star: m.k,
                b_star: outs[0].b,
                s_star: outs[0].sig,
                c_star: outs[0].cert,
                ..m
            }
        } else {
            m
        };
        let m2 = BlaModel { k: (m.k + 1) as u32, ..m1 };
        assert(bla_next(m, outs[0]) == BlaOutcome::Next(m2));
        let rest = outs.drop_first();
        assert forall|i: int| 0 <= i < rest.len() implies #[trigger] rest[i].grade != 2 by {
            assert(rest[i] == outs[i + 1]);
        }
        lemma_bla_feed_carries(m2, rest);
        lemma_last_graded_bound(rest);
        match last_graded(rest) {
            Some(j) => {
                assert(rest[j] == outs[j + 1]);
            },
            None => {},
        }
        assert(carried(m2, rest) == carried(m, outs));
    }
}

/// Until some round outputs with grade 2, lattice agreement started on
/// `(beta, sigma)` with `kappa` rounds carries into the next round the
/// last output of a grade above 0, with the round that gave it; while there
/// is none, it carries `(beta, sigma)` and no certificate from round 0.
pub proof fn lemma_bla_carries_last_graded(
    beta: Set<Transaction>,
    sigma: Set<Transaction>,
    kappa: u32,
    outs: Seq<GcOutputModel>,
)
    requires
        outs.len() < kappa,
        forall|i: int| 0 <= i < outs.len() ==> #[trigger] outs[i].grade != 2,
    ensures
        bla_feed(bla_begin(beta, sigma, kappa), outs) == BlaOutcome::Next(
            carried(
                BlaModel {
                    k: 1,
                    kappa,
                    k_star: 0,
                    b_star: beta,
                    s_star: sigma,
                    c_star: no_certificate(),
                },
                outs,
            ),
        ),
{
    let m = BlaModel { k: 1, kappa, k_star: 0, b_star: beta, s_star: sigma, c_star: no_certificate() };
    lemma_bla_feed_carries(m, outs);
}

/// The start of an epoch of state-machine replication.
pub struct SmrStart {
    /// Epoch number to the round it is in; epoch 1 is at round 1.
    pub epochs: HashMap<u32, u32>,
    /// The current epoch.
    pub k: u32,
    /// The batches collected this epoch (none yet).
    pub beta: HashSet<Transaction>,
    /// Their signatures (none yet).
    pub sigma: HashSet<Transaction>,
    /// This party's input buffer.
    pub buf: HashSet<Transaction>,
}

/// Starts the first epoch of state-machine replication: epoch 1 at round
/// 1, nothing collected, the input buffer filled with this party's share
/// of a batch by `generate_transactions`, and lattice agreement started on
/// the (empty) collection with `kappa` rounds.
pub fn smr(num_parties: u32, payload_size: u32, batch_size: u32, kappa: u32) -> (res: (
    SmrStart,
    BlaStep,
))
    ensures
        res.0.epochs@ == map![1u32 => 1u32],
        res.0.k == 1,
        res.0.beta@ == Set::<Transaction>::empty(),
        res.0.sigma@ == Set::<Transaction>::empty(),
        forall|x: Transaction| res.0.buf@.contains(x) <==> x < batch_share(batch_size, num_parties),
        res.0.buf@.len() == batch_share(batch_size, num_parties),
        bla_step_view(res.1) == bla_begin(Set::empty(), Set::empty(), kappa),
{
    let mut epochs: HashMap<u32, u32> = HashMap::new();
    let k: u32 = 1;
    epochs.insert(k, 1);
    let beta: HashSet<Transaction> = HashSet::new();
    let sigma: HashSet<Transaction> = HashSet::new();
    let buf = generate_transactions(payload_size, batch_size, num_parties);
    let agreement = bla(BlaInput::Begin { beta: copy_set(&beta), sigma: copy_set(&sigma), kappa });
    proof {
        assert(epochs@ =~= map![1u32 => 1u32]);
    }
    (SmrStart { epochs, k, beta, sigma, buf }, agreement)
}

/// The batch an epoch goes on with: lattice agreement's output when it
/// gave one in time, else the epoch's own collection.
pub fn choose_agreed_batch(
    bla_output: Option<(HashSet<Transaction>, HashSet<Transaction>)>,
    beta: HashSet<Transaction>,
    sigma: HashSet<Transaction>,
) -> (res: (HashSet<Transaction>, HashSet<Transaction>))
    ensures
        match bla_output {
            Some((b, s)) => res.0@ == b@ && res.1@ == s@,
            None => res.0@ == beta@ && res.1@ == sigma@,
        },
{
    match bla_output {
        Some(out) => out,
        None => (beta, sigma),
    }
}


/// How many parties graded consensus needs to hear from: `ceil((n + 1) / 2)`.
pub open spec fn gc_quorum(num_parties: u32) -> nat {
    ((num_parties + 2) / 2) as nat
}

/// The quorum of graded consensus among `num_parties` parties.
pub fn gc_threshold(num_parties: u32) -> (t: u32)
    requires
        num_parties < u32::MAX,
    ensures
        t == gc_quorum(num_parties),
{
    (num_parties + 1) / 2 + (num_parties + 1) % 2
}

/// Any two sets of `gc_quorum(n)` parties out of `n` have a party in
/// common: twice the quorum exceeds `n`.
pub proof fn lemma_gc_quorums_intersect(num_parties: u32)
    ensures
        2 * gc_quorum(num_parties) > num_parties,
{
}

/// The quorum of graded consensus is the smallest number of parties of
/// which any two sets intersect: one fewer would not be more than half.
pub proof fn lemma_gc_quorum_is_least(num_parties: u32)
    ensures
        2 * (gc_quorum(num_parties) - 1) <= num_parties,
{
}

/// The leader of every round of graded consensus.
pub open spec fn gc_leader() -> u32 {
    1
}

/// The leader of round `k` of graded consensus (party 1, whatever the round).
pub fn leader(k: u32) -> (l: u32)
    ensures
        l == gc_leader(),
{
    1
}

/// Whether `(b, sig)` is the empty proposal, which stands for "no
/// proposal".
pub open spec fn is_bottom(b: Set<Transaction>, sig: Set<Transaction>) -> bool {
    b.len() == 0 && sig.len() == 0
}

/// Whether `m` is `committer_id`'s commit to `(b, sig)` in round `k` of
/// epoch `smr_k`.
pub open spec fn is_commit(
    m: Message,
    smr_k: u32,
    k: u32,
    b: Set<Transaction>,
    sig: Set<Transaction>,
    committer_id: u32,
) -> bool {
    m matches Message::TardiGCCommit { smr_k: a, k: c, b: mb, sig: ms, committer_id: id } && a
        == smr_k && c == k && mb@ == b && ms@ == sig && id == committer_id
}

/// At `3 * delta`, having heard the leader's proposal `(b_l, sig_l)` (empty
/// sets when it proposed nothing), a party commits to it unless it is the
/// empty proposal.
pub fn gc_commit(
    smr_k: u32,
    k: u32,
    b_l: &HashSet<Transaction>,
    sig_l: &HashSet<Transaction>,
    my_id: u32,
) -> (res: Option<Message>)
    ensures
        !is_bottom(b_l@, sig_l@) <==> res is Some,
        (b_l@.len() > 0 || sig_l@.len() > 0) <==> res is Some,
        res matches Some(m) ==> is_commit(m, smr_k, k, b_l@, sig_l@, my_id),
{
    if b_l.len() > 0 || sig_l.len() > 0 {
        Some(
            Message::TardiGCCommit {
                smr_k,
                k,
                b: copy_set(b_l),
                sig: copy_set(sig_l),
                committer_id: my_id,
            },
        )
    } else {
        None
    }
}

/// Whether `m` is a commit of round `k` of epoch `smr_k` to `(b_l, sig_l)`,
/// and by whom.
pub open spec fn commit_by(
    m: Message,
    smr_k: u32,
    k: u32,
    b_l: Set<Transaction>,
    sig_l: Set<Transaction>,
) -> Option<u32> {
    match m {
        Message::TardiGCCommit { smr_k: a, k: c, b, sig, committer_id } => if a == smr_k && c
            == k && b@ == b_l && sig@ == sig_l {
            Some(committer_id)
        } else {
            None
        },
        _ => None,
    }
}

/// The parties among `msgs` that committed to `(b_l, sig_l)` in round `k`
/// of epoch `smr_k`.
pub open spec fn committers(
    msgs: Seq<Message>,
    smr_k: u32,
    k: u32,
    b_l: Set<Transaction>,
    sig_l: Set<Transaction>,
) -> Set<u32>
    decreases msgs.len(),
{
    if msgs.len() == 0 {
        Set::empty()
    } else {
        let before = committers(msgs.drop_last(), smr_k, k, b_l, sig_l);
        match commit_by(msgs.last(), smr_k, k, b_l, sig_l) {
            Some(id) => before.insert(id),
            None => before,
        }
    }
}

/// What a party that heard the proposal `(b_l, sig_l)` concludes at
/// `4 * delta` from the commits it received: when the proposal is not the
/// empty one and `t` distinct parties committed to it, a certificate of
/// round `k` with them.
pub open spec fn certify(
    commits: Seq<Message>,
    smr_k: u32,
    k: u32,
    b_l: Set<Transaction>,
    sig_l: Set<Transaction>,
    t: u32,
) -> Option<(u32, Set<u32>)> {
    let c = committers(commits, smr_k, k, b_l, sig_l);
    if !is_bottom(b_l, sig_l) && c.len() >= t {
        Some((k, c))
    } else {
        None
    }
}

/// The parties among `msgs` that sent a commit of epoch `smr_k`, round
/// `k`, to the proposal `(b_l, sig_l)`.
pub open spec fn commit_senders(
    msgs: Seq<Message>,
    smr_k: u32,
    k: u32,
    b_l: Set<Transaction>,
    sig_l: Set<Transaction>,
) -> Set<u32> {
    Set::new(|id: u32| exists|j: int| 0 <= j < msgs.len() && #[trigger] is_commit(msgs[j], smr_k, k, b_l, sig_l, id))
}

proof fn lemma_committers_are_senders(
    msgs: Seq<Message>,
    smr_k: u32,
    k: u32,
    b_l: Set<Transaction>,
    sig_l: Set<Transaction>,
)
    ensures
        committers(msgs, smr_k, k, b_l, sig_l) == commit_senders(msgs, smr_k, k, b_l, sig_l),
    decreases msgs.len(),
{
    if msgs.len() > 0 {
        let pre = msgs.drop_last();
        lemma_committers_are_senders(pre, smr_k, k, b_l, sig_l);
        let c = committers(msgs, smr_k, k, b_l, sig_l);
        let cs = commit_senders(msgs, smr_k, k, b_l, sig_l);
        assert forall|id: u32| c.contains(id) <==> cs.contains(id) by {
            if c.contains(id) {
                if commit_by(msgs.last(), smr_k, k, b_l, sig_l) == Some(id) {
                    assert(is_commit(msgs[msgs.len() - 1], smr_k, k, b_l, sig_l, id));
                } else {
                    assert(commit_senders(pre, smr_k, k, b_l, sig_l).contains(id));
                    let j = choose|j: int| 0 <= j < pre.len() && #[trigger] is_commit(pre[j], smr_k, k, b_l, sig_l, id);
                    assert(msgs[j] == pre[j]);
                }
            }
            if cs.contains(id) {
                let j = choose|j: int| 0 <= j < msgs.len() && #[trigger] is_commit(msgs[j], smr_k, k, b_l, sig_l, id);
                if j == msgs.len() - 1 {
                    assert(commit_by(msgs.last(), smr_k, k, b_l, sig_l) == Some(id));
                } else {
                    assert(pre[j] == msgs[j]);
                    assert(commit_senders(pre, smr_k, k, b_l, sig_l).contains(id));
                }
            }
        }
        assert(c =~= cs);
    } else {
        assert(commit_senders(msgs, smr_k, k, b_l, sig_l) =~= Set::<u32>::empty());
    }
}

/// What a party concludes from the commits it received at `4 * delta`: a
/// certificate of round `k` exactly when the proposal is not the empty one
/// and at least `t` distinct parties sent a commit of this epoch and round
/// to this very proposal; its committers are exactly those parties.
pub proof fn lemma_certificate_is_its_commits(
    commits: Seq<Message>,
    smr_k: u32,
    k: u32,
    b_l: Set<Transaction>,
    sig_l: Set<Transaction>,
    t: u32,
)
    ensures
        certify(commits, smr_k, k, b_l, sig_l, t) == if !is_bottom(b_l, sig_l)
            && commit_senders(commits, smr_k, k, b_l, sig_l).len() >= t {
            Some((k, commit_senders(commits, smr_k, k, b_l, sig_l)))
        } else {
            None
        },
{
    lemma_committers_are_senders(commits, smr_k, k, b_l, sig_l);
}

/// Whether `m` notifies every party that `(b, sig)` was certified by `cert`
/// in round `k` of epoch `smr_k`.
pub open spec fn is_notify(
    m: Message,
    smr_k: u32,
    k: u32,
    b: Set<Transaction>,
    sig: Set<Transaction>,
    cert: (u32, Set<u32>),
) -> bool {
    m matches Message::TardiGCNotify { smr_k: a, k: c, b: nb, sig: ns, cert: nc } && a == smr_k
        && c == k && nb@ == b && ns@ == sig && cert_view(nc) == cert
}

/// At `4 * delta`: when `t` distinct parties committed to the leader's
/// proposal `(b_l, sig_l)`, and it is not the empty one, the party outputs it with grade 2 and a
/// certificate of the committers, and notifies every party of it.
pub fn gc_certify(
    commits: &Vec<Message>,
    smr_k: u32,
    k: u32,
    b_l: &HashSet<Transaction>,
    sig_l: &HashSet<Transaction>,
    t: u32,
) -> (res: Option<(GcOutput, Message)>)
    ensures
        match certify(commits@, smr_k, k, b_l@, sig_l@, t) {
            None => res is None,
            Some(cert) => match res {
                None => false,
                Some((out, notify)) => {
                    &&& gc_output_view(out) == (GcOutputModel {
                        b: b_l@,
                        sig: sig_l@,
                        cert,
                        grade: 2,
                    })
                    &&& is_notify(notify, smr_k, k, b_l@, sig_l@, cert)
                },
            },
        },
{
    if b_l.len() == 0 && sig_l.len() == 0 {
        return None;
    }
    let mut ids: HashSet<u32> = HashSet::new();
    let mut i: usize = 0;
    while i < commits.len()
        invariant
            i <= commits.len(),
            ids@ == committers(commits@.take(i as int), smr_k, k, b_l@, sig_l@),
        decreases commits.len() - i,
    {
        proof {
            assert(commits@.take(i + 1).drop_last() =~= commits@.take(i as int));
        }
        match &commits[i] {
            Message::TardiGCCommit { smr_k: a, k: c, b, sig, committer_id } => {
                if *a == smr_k && *c == k && same_transactions(b, b_l) && same_transactions(
                    sig,
                    sig_l,
                ) {
                    ids.insert(*committer_id);
                }
            },
            _ => {},
        }
        i = i + 1;
    }
    proof {
        assert(commits@.take(commits.len() as int) =~= commits@);
    }
    if ids.len() < t as usize {
        return None;
    }
    let cert = Certificate { k, committers: ids };
    let notify = Message::TardiGCNotify {
        smr_k,
        k,
        b: copy_set(b_l),
        sig: copy_set(sig_l),
        cert: copy_certificate(&cert),
    };
    Some((GcOutput { b: copy_set(b_l), sig: copy_set(sig_l), cert, grade: 2 }, notify))
}

/// Whether `m` is a well-formed notification of round `k` of epoch
/// `smr_k`: its certificate is of round `k` and has `t` committers.
pub open spec fn valid_notify(m: Message, smr_k: u32, k: u32, t: u32) -> bool {
    m matches Message::TardiGCNotify { smr_k: a, k: c, cert, .. } && a == smr_k && c == k && cert.k
        == k && cert.committers@.len() >= t
}

/// What a party that did not certify concludes at `5 * delta`: the first
/// well-formed notification it received, with grade 1; otherwise no output
/// (grade 0).
pub open spec fn gc_result(notifies: Seq<Message>, smr_k: u32, k: u32, t: u32) -> GcOutputModel
    decreases notifies.len(),
{
    if notifies.len() == 0 {
        gc_bottom()
    } else if valid_notify(notifies[0], smr_k, k, t) {
        match notifies[0] {
            Message::TardiGCNotify { b, sig, cert, .. } => GcOutputModel {
                b: b@,
                sig: sig@,
                cert: cert_view(cert),
                grade: 1,
            },
            _ => gc_bottom(),
        }
    } else {
        gc_result(notifies.drop_first(), smr_k, k, t)
    }
}

/// Graded consensus at `5 * delta`, for a party that did not certify at
/// `4 * delta`: the first well-formed notification of this round among
/// those received, with grade 1, or no output (grade 0).
pub fn gc_notified(notifies: &Vec<Message>, smr_k: u32, k: u32, t: u32) -> (res: GcOutput)
    ensures
        gc_output_view(res) == gc_result(notifies@, smr_k, k, t),
{
    let mut i: usize = 0;
    assert(notifies@.skip(0) =~= notifies@);
    while i < notifies.len()
        invariant
            i <= notifies.len(),
            gc_result(notifies@, smr_k, k, t) == gc_result(notifies@.skip(i as int), smr_k, k, t),
        decreases notifies.len() - i,
    {
        proof {
            assert(notifies@.skip(i as int)[0] == notifies@[i as int]);
            assert(notifies@.skip(i as int).drop_first() =~= notifies@.skip(i + 1));
        }
        match &notifies[i] {
            Message::TardiGCNotify { smr_k: a, k: c, b, sig, cert } => {
                if *a == smr_k && *c == k && cert.k == k && cert.committers.len() >= t as usize {
                    return GcOutput {
                        b: copy_set(b),
                        sig: copy_set(sig),
                        cert: copy_certificate(cert),
                        grade: 1,
                    };
                }
            },
            _ => {},
        }
        i = i + 1;
    }
    assert(notifies@.skip(i as int) =~= Seq::<Message>::empty());
    GcOutput { b: HashSet::new(), sig: HashSet::new(), cert: empty_certificate(), grade: 0 }
}

/// A status as plain values.
pub struct StatusModel {
    pub smr_k: u32,
    pub k: u32,
    pub b: Set<Transaction>,
    pub sig: Set<Transaction>,
    pub cert: (u32, Set<u32>),
    pub sender_id: u32,
    pub proposer_id: u32,
}

pub open spec fn status_view(st: Status) -> StatusModel {
    StatusModel {
        smr_k: st.smr_k,
        k: st.k,
        b: st.b@,
        sig: st.sig@,
        cert: cert_view(st.cert),
        sender_id: st.sender_id,
        proposer_id: st.proposer_id,
    }
}

pub open spec fn statuses_view(sts: Seq<Status>) -> Seq<StatusModel> {
    sts.map_values(|st: Status| status_view(st))
}

/// Whether `statuses[i]` has the highest round `k` of all, and no earlier
/// status has as high a round.
pub open spec fn is_first_max(statuses: Seq<StatusModel>, i: int) -> bool {
    &&& 0 <= i < statuses.len()
    &&& forall|j: int| 0 <= j < statuses.len() ==> #[trigger] statuses[j].k <= statuses[i].k
    &&& forall|j: int| 0 <= j < i ==> #[trigger] statuses[j].k < statuses[i].k
}

/// At most one status is the first of the highest round.
pub proof fn lemma_first_max_unique(statuses: Seq<StatusModel>, i: int, j: int)
    requires
        is_first_max(statuses, i),
        is_first_max(statuses, j),
    ensures
        i == j,
{
    if i < j {
        assert(statuses[i].k < statuses[j].k);
        assert(statuses[j].k <= statuses[i].k);
    } else if j < i {
        assert(statuses[j].k < statuses[i].k);
        assert(statuses[i].k <= statuses[j].k);
    }
}

/// The batch and signatures of the status with the highest round (the
/// first of them on a tie); two empty sets when there are no statuses.
pub open spec fn highest(statuses: Seq<StatusModel>) -> (Set<Transaction>, Set<Transaction>) {
    if statuses.len() == 0 {
        (Set::empty(), Set::empty())
    } else {
        let i = choose|i: int| is_first_max(statuses, i);
        (statuses[i].b, statuses[i].sig)
    }
}

fn highest_status(statuses: Vec<Status>) -> (res: (HashSet<Transaction>, HashSet<Transaction>))
    ensures
        (res.0@, res.1@) == highest(statuses_view(statuses@)),
{
    let ghost sv = statuses_view(statuses@);
    let n = statuses.len();
    if n == 0 {
        return (HashSet::new(), HashSet::new());
    }
    let mut best: usize = 0;
    let mut i: usize = 1;
    while i < n
        invariant
            n == statuses@.len() == sv.len(),
            sv == statuses_view(statuses@),
            0 <= best < i <= n,
            forall|j: int| 0 <= j < i ==> #[trigger] sv[j].k <= sv[best as int].k,
            forall|j: int| 0 <= j < best ==> #[trigger] sv[j].k < sv[best as int].k,
        decreases n - i,
    {
        assert(sv[i as int].k == statuses@[i as int].k);
        assert(sv[best as int].k == statuses@[best as int].k);
        if statuses[i].k > statuses[best].k {
            best = i;
        }
        i = i + 1;
    }
    assert(is_first_max(sv, best as int));
    proof {
        let c = choose|c: int| is_first_max(sv, c);
        lemma_first_max_unique(sv, c, best as int);
    }
    let mut statuses = statuses;
    let chosen = statuses.remove(best);
    (chosen.b, chosen.sig)
}

fn copy_status(st: &Status) -> (res: Status)
    ensures
        status_view(res) == status_view(*st),
{
    Status {
        smr_k: st.smr_k,
        k: st.k,
        b: copy_set(&st.b),
        sig: copy_set(&st.sig),
        cert: copy_certificate(&st.cert),
        sender_id: st.sender_id,
        proposer_id: st.proposer_id,
    }
}

fn copy_statuses(v: &Vec<Status>) -> (res: Vec<Status>)
    ensures
        statuses_view(res@) == statuses_view(v@),
{
    let mut res: Vec<Status> = Vec::new();
    let mut i: usize = 0;
    while i < v.len()
        invariant
            i <= v.len(),
            res@.len() == i,
            forall|j: int| 0 <= j < i ==> status_view(#[trigger] res@[j]) == status_view(v@[j]),
        decreases v.len() - i,
    {
        res.push(copy_status(&v[i]));
        i = i + 1;
    }
    assert(statuses_view(res@) =~= statuses_view(v@));
    res
}

fn same_status(a: &Status, b: &Status) -> (res: bool)
    ensures
        res == (status_view(*a) == status_view(*b)),
{
    a.smr_k == b.smr_k && a.k == b.k && same_transactions(&a.b, &b.b) && same_transactions(
        &a.sig,
        &b.sig,
    ) && a.cert.k == b.cert.k && same_set(&a.cert.committers, &b.cert.committers) && a.sender_id
        == b.sender_id && a.proposer_id == b.proposer_id
}

fn same_statuses(a: &Vec<Status>, b: &Vec<Status>) -> (res: bool)
    ensures
        res == (statuses_view(a@) == statuses_view(b@)),
{
    if a.len() != b.len() {
        proof {
            assert(statuses_view(a@).len() != statuses_view(b@).len());
        }
        return false;
    }
    let mut i: usize = 0;
    while i < a.len()
        invariant
            i <= a.len() == b.len(),
            forall|j: int| 0 <= j < i ==> status_view(a@[j]) == status_view(b@[j]),
        decreases a.len() - i,
    {
        if !same_status(&a[i], &b[i]) {
            proof {
                assert(statuses_view(a@)[i as int] != statuses_view(b@)[i as int]);
            }
            return false;
        }
        i = i + 1;
    }
    assert(statuses_view(a@) =~= statuses_view(b@));
    true
}

/// A propose message as plain values.
pub struct ProposalModel {
    pub smr_k: u32,
    pub k: u32,
    pub statuses: Seq<StatusModel>,
    pub sender_id: u32,
    pub proposer_id: u32,
}

/// The propose message that `m` is, as plain values (all zero and no
/// statuses for another message).
pub open spec fn proposal_of(m: Message) -> ProposalModel {
    match m {
        Message::TardiProposePropose { smr_k, k, statuses, sender_id, proposer_id } => ProposalModel {
            smr_k,
            k,
            statuses: statuses_view(statuses@),
            sender_id,
            proposer_id,
        },
        _ => ProposalModel {
            smr_k: 0,
            k: 0,
            statuses: Seq::empty(),
            sender_id: 0,
            proposer_id: 0,
        },
    }
}

/// Whether `m` is the propose message `pm`.
pub open spec fn is_propose_msg(m: Message, pm: ProposalModel) -> bool {
    m is TardiProposePropose && proposal_of(m) == pm
}

fn copy_proposal(m: &Message) -> (res: Message)
    requires
        *m is TardiProposePropose,
    ensures
        is_propose_msg(res, proposal_of(*m)),
{
    match m {
        Message::TardiProposePropose { smr_k, k, statuses, sender_id, proposer_id } => {
            Message::TardiProposePropose {
                smr_k: *smr_k,
                k: *k,
                statuses: copy_statuses(statuses),
                sender_id: *sender_id,
                proposer_id: *proposer_id,
            }
        },
        _ => Message::Ping,
    }
}

/// The parties that the statuses in `acc` come from.
pub open spec fn status_senders(acc: Seq<StatusModel>) -> Seq<u32> {
    acc.map_values(|st: StatusModel| st.sender_id)
}

/// What the proposer concludes from the messages it received, in order,
/// having gathered `acc` so far: it gathers the statuses of epoch `smr_k`,
/// one per party, until it has `t` of them; `None` when the messages run
/// out first.
pub open spec fn gather(queue: Seq<Message>, smr_k: u32, t: u32, acc: Seq<StatusModel>) -> Option<
    Seq<StatusModel>,
>
    decreases queue.len(),
{
    if queue.len() == 0 {
        None
    } else {
        match queue[0] {
            Message::TardiProposeStatus(st) => if st.smr_k == smr_k && !status_senders(
                acc,
            ).contains(st.sender_id) {
                let acc2 = acc.push(status_view(st));
                if acc2.len() >= t {
                    Some(acc2)
                } else {
                    gather(queue.drop_first(), smr_k, t, acc2)
                }
            } else {
                gather(queue.drop_first(), smr_k, t, acc)
            },
            _ => gather(queue.drop_first(), smr_k, t, acc),
        }
    }
}

/// The propose message of round `k` of epoch `smr_k` that `proposer_id`
/// sends, as its own proposer, with `statuses`.
pub open spec fn own_proposal(smr_k: u32, k: u32, statuses: Seq<StatusModel>, proposer_id: u32) -> ProposalModel {
    ProposalModel { smr_k, k, statuses, sender_id: proposer_id, proposer_id }
}

/// The propose step, for its proposer, at `delta`: once `t` parties'
/// statuses of epoch `smr_k` are among the messages received, the propose
/// message to send to every party; `None` (no output) when fewer came.
pub fn propose_gather(queue: &Vec<Message>, smr_k: u32, k: u32, t: u32, my_id: u32) -> (res:
    Option<Message>)
    ensures
        match gather(queue@, smr_k, t, Seq::empty()) {
            None => res is None,
            Some(sts) => res matches Some(m) && is_propose_msg(m, own_proposal(smr_k, k, sts, my_id)),
        },
{
    let mut statuses: Vec<Status> = Vec::new();
    let mut senders: HashSet<u32> = HashSet::new();
    let mut i: usize = 0;
    assert(queue@.skip(0) =~= queue@);
    assert(statuses_view(statuses@) =~= Seq::<StatusModel>::empty());
    while i < queue.len()
        invariant
            i <= queue.len(),
            gather(queue@, smr_k, t, Seq::empty()) == gather(
                queue@.skip(i as int),
                smr_k,
                t,
                statuses_view(statuses@),
            ),
            forall|id: u32|
                senders@.contains(id) <==> status_senders(statuses_view(statuses@)).contains(id),
        decreases queue.len() - i,
    {
        let ghost acc = statuses_view(statuses@);
        proof {
            assert(queue@.skip(i as int)[0] == queue@[i as int]);
            assert(queue@.skip(i as int).drop_first() =~= queue@.skip(i + 1));
        }
        match &queue[i] {
            Message::TardiProposeStatus(st) => {
                if st.smr_k == smr_k && !senders.contains(&st.sender_id) {
                    let id = st.sender_id;
                    senders.insert(id);
                    statuses.push(copy_status(st));
                    proof {
                        assert(statuses_view(statuses@) =~= acc.push(status_view(*st)));
                        let ss = status_senders(statuses_view(statuses@));
                        let so = status_senders(acc);
                        assert(ss =~= so.push(id));
                        assert forall|x: u32| senders@.contains(x) <==> ss.contains(x) by {
                            if x == id {
                                assert(ss[acc.len() as int] == id);
                            } else {
                                if ss.contains(x) {
                                    let j = choose|j: int| 0 <= j < ss.len() && ss[j] == x;
                                    assert(so[j] == x);
                                }
                                if so.contains(x) {
                                    let j = choose|j: int| 0 <= j < so.len() && so[j] == x;
                                    assert(ss[j] == x);
                                }
                            }
                        }
                    }
                    if statuses.len() >= t as usize {
                        return Some(
                            Message::TardiProposePropose {
                                smr_k,
                                k,
                                statuses,
                                sender_id: my_id,
                                proposer_id: my_id,
                            },
                        );
                    }
                }
            },
            _ => {},
        }
        i = i + 1;
    }
    None
}

/// Whether `m` is a propose message of epoch `smr_k` sent as coming from
/// `proposer_id`.
pub open spec fn of_proposer(m: Message, smr_k: u32, proposer_id: u32) -> bool {
    m matches Message::TardiProposePropose { smr_k: a, sender_id, .. } && a == smr_k && sender_id
        == proposer_id
}

/// The first propose message among `queue` from `proposer_id` in epoch
/// `smr_k`.
pub open spec fn first_proposal(queue: Seq<Message>, smr_k: u32, proposer_id: u32) -> Option<
    Message,
>
    decreases queue.len(),
{
    if queue.len() == 0 {
        None
    } else if of_proposer(queue[0], smr_k, proposer_id) {
        Some(queue[0])
    } else {
        first_proposal(queue.drop_first(), smr_k, proposer_id)
    }
}

/// The propose step, for the other parties, at `2 * delta`: (a copy of) the
/// proposer's propose message of epoch `smr_k`, which the party passes on
/// to every party; `None` (no output) when it has not come.
pub fn propose_adopt(queue: &Vec<Message>, smr_k: u32, proposer_id: u32) -> (res: Option<Message>)
    ensures
        match first_proposal(queue@, smr_k, proposer_id) {
            None => res is None,
            Some(m) => res matches Some(r) && is_propose_msg(r, proposal_of(m)),
        },
{
    let mut i: usize = 0;
    assert(queue@.skip(0) =~= queue@);
    while i < queue.len()
        invariant
            i <= queue.len(),
            first_proposal(queue@, smr_k, proposer_id) == first_proposal(
                queue@.skip(i as int),
                smr_k,
                proposer_id,
            ),
        decreases queue.len() - i,
    {
        proof {
            assert(queue@.skip(i as int)[0] == queue@[i as int]);
            assert(queue@.skip(i as int).drop_first() =~= queue@.skip(i + 1));
        }
        let adopt = match &queue[i] {
            Message::TardiProposePropose { smr_k: a, sender_id, .. } => *a == smr_k && *sender_id
                == proposer_id,
            _ => false,
        };
        if adopt {
            return Some(copy_proposal(&queue[i]));
        }
        i = i + 1;
    }
    None
}

/// Whether `m`, if it is a propose message of epoch `smr_k` from
/// `proposer_id`, is the propose message `held`, field for field.
pub open spec fn agrees_with(m: Message, held: ProposalModel, smr_k: u32, proposer_id: u32) -> bool {
    of_proposer(m, smr_k, proposer_id) ==> proposal_of(m) == held
}

/// Whether every propose message of epoch `smr_k` from `proposer_id` among
/// `inbox` is the propose message `held`.
pub open spec fn proposals_agree(
    held: ProposalModel,
    inbox: Seq<Message>,
    smr_k: u32,
    proposer_id: u32,
) -> bool {
    forall|j: int| 0 <= j < inbox.len() ==> #[trigger] agrees_with(inbox[j], held, smr_k, proposer_id)
}

fn same_proposal(a: &Message, b: &Message) -> (res: bool)
    requires
        *a is TardiProposePropose,
        *b is TardiProposePropose,
    ensures
        res == (proposal_of(*a) == proposal_of(*b)),
{
    match (a, b) {
        (
            Message::TardiProposePropose { smr_k: a1, k: a2, statuses: a3, sender_id: a4, proposer_id: a5 },
            Message::TardiProposePropose { smr_k: b1, k: b2, statuses: b3, sender_id: b4, proposer_id: b5 },
        ) => *a1 == *b1 && *a2 == *b2 && *a4 == *b4 && *a5 == *b5 && same_statuses(a3, b3),
        _ => false,
    }
}

/// The check of the propose step at `3 * delta`: whether every propose
/// message of epoch `smr_k` from `proposer_id` that the party received is
/// the one it holds, field for field. When one differs, the step outputs
/// nothing.
pub fn propose_consistent(held: &Message, inbox: &Vec<Message>, smr_k: u32, proposer_id: u32) -> (res: bool)
    requires
        *held is TardiProposePropose,
    ensures
        res == proposals_agree(proposal_of(*held), inbox@, smr_k, proposer_id),
{
    let mut i: usize = 0;
    while i < inbox.len()
        invariant
            i <= inbox.len(),
            *held is TardiProposePropose,
            forall|j: int|
                0 <= j < i ==> #[trigger] agrees_with(inbox@[j], proposal_of(*held), smr_k, proposer_id),
        decreases inbox.len() - i,
    {
        let relevant = match &inbox[i] {
            Message::TardiProposePropose { smr_k: a, sender_id, .. } => *a == smr_k && *sender_id
                == proposer_id,
            _ => false,
        };
        if relevant && !same_proposal(&inbox[i], held) {
            assert(!agrees_with(inbox@[i as int], proposal_of(*held), smr_k, proposer_id));
            return false;
        }
        i = i + 1;
    }
    true
}

/// At `3 * delta`, a party holding the propose message `held` outputs the
/// highest of its statuses when every propose message of the epoch from
/// the proposer that it received is `held`, field for field (round,
/// proposer, and every status's epoch, round, batch, signatures,
/// certificate, sender and proposer); when one of them differs in anything,
/// it outputs nothing (two empty sets).
pub proof fn lemma_differing_copy_means_no_output(p: ProposeParams, held: ProposalModel, inbox: Seq<Message>)
    ensures
        (exists|j: int|
            0 <= j < inbox.len() && of_proposer(inbox[j], p.smr_k, p.proposer_id)
                && #[trigger] proposal_of(inbox[j]) != held) ==> propose_next(
            p,
            ProposeModel::Holding(held),
            inbox,
        ) == ProposeModel::Done(Set::<Transaction>::empty(), Set::<Transaction>::empty()),
        (forall|j: int|
            0 <= j < inbox.len() && of_proposer(inbox[j], p.smr_k, p.proposer_id)
                ==> #[trigger] proposal_of(inbox[j]) == held) ==> propose_next(
            p,
            ProposeModel::Holding(held),
            inbox,
        ) == ProposeModel::Done(highest(held.statuses).0, highest(held.statuses).1),
{
    if exists|j: int|
        0 <= j < inbox.len() && of_proposer(inbox[j], p.smr_k, p.proposer_id)
            && #[trigger] proposal_of(inbox[j]) != held {
        let j = choose|j: int|
            0 <= j < inbox.len() && of_proposer(inbox[j], p.smr_k, p.proposer_id)
                && #[trigger] proposal_of(inbox[j]) != held;
        assert(!agrees_with(inbox[j], held, p.smr_k, p.proposer_id));
    }
    if forall|j: int|
        0 <= j < inbox.len() && of_proposer(inbox[j], p.smr_k, p.proposer_id)
            ==> #[trigger] proposal_of(inbox[j]) == held {
        assert forall|j: int| 0 <= j < inbox.len() implies #[trigger] agrees_with(
            inbox[j],
            held,
            p.smr_k,
            p.proposer_id,
        ) by {
            if of_proposer(inbox[j], p.smr_k, p.proposer_id) {
                assert(proposal_of(inbox[j]) == held);
            }
        }
    }
}

/// Whether `m` is a notification of epoch `smr_k`, round `k`, whose
/// certificate is of round `k` and has at least `t` committers.
pub open spec fn notify_well_formed(m: Message, smr_k: u32, k: u32, t: u32) -> bool {
    match m {
        Message::TardiGCNotify { smr_k: a, k: c, cert, .. } => a == smr_k && c == k && cert.k == k
            && cert.committers@.len() >= t,
        _ => false,
    }
}

/// The output with grade 1 that the notification `m` gives.
pub open spec fn notified_output(m: Message) -> GcOutputModel {
    match m {
        Message::TardiGCNotify { b, sig, cert, .. } => GcOutputModel {
            b: b@,
            sig: sig@,
            cert: cert_view(cert),
            grade: 1,
        },
        _ => gc_bottom(),
    }
}

/// At `5 * delta`, a party that did not certify outputs, with grade 1, what
/// the first well-formed notification among those it received says; with
/// none, it outputs nothing with grade 0.
pub proof fn lemma_notified_output_is_first_well_formed(notifies: Seq<Message>, smr_k: u32, k: u32, t: u32)
    ensures
        (forall|j: int| 0 <= j < notifies.len() ==> !#[trigger] notify_well_formed(notifies[j], smr_k, k, t))
            ==> gc_result(notifies, smr_k, k, t) == gc_bottom(),
        forall|j: int|
            0 <= j < notifies.len() && #[trigger] notify_well_formed(notifies[j], smr_k, k, t) && (forall|i: int|
                0 <= i < j ==> !notify_well_formed(notifies[i], smr_k, k, t)) ==> gc_result(
                notifies,
                smr_k,
                k,
                t,
            ) == notified_output(notifies[j]),
    decreases notifies.len(),
{
    if notifies.len() > 0 {
        let rest = notifies.drop_first();
        lemma_notified_output_is_first_well_formed(rest, smr_k, k, t);
        assert(valid_notify(notifies[0], smr_k, k, t) == notify_well_formed(notifies[0], smr_k, k, t));
        if (forall|j: int| 0 <= j < notifies.len() ==> !#[trigger] notify_well_formed(notifies[j], smr_k, k, t)) {
            assert(!notify_well_formed(notifies[0], smr_k, k, t));
            assert forall|j: int| 0 <= j < rest.len() implies !#[trigger] notify_well_formed(rest[j], smr_k, k, t) by {
                assert(rest[j] == notifies[j + 1]);
            }
        }
        assert forall|j: int|
            0 <= j < notifies.len() && #[trigger] notify_well_formed(notifies[j], smr_k, k, t) && (forall|i: int|
                0 <= i < j ==> !notify_well_formed(notifies[i], smr_k, k, t)) implies gc_result(
            notifies,
            smr_k,
            k,
            t,
        ) == notified_output(notifies[j]) by {
            if j > 0 {
                assert(!notify_well_formed(notifies[0], smr_k, k, t));
                assert(rest[j - 1] == notifies[j]);
                assert forall|i: int| 0 <= i < j - 1 implies !notify_well_formed(rest[i], smr_k, k, t) by {
                    assert(rest[i] == notifies[i + 1]);
                }
            }
        }
    }
}

/// The status that `m` carries, as plain values, when it is a status.
pub open spec fn status_carried(m: Message) -> Option<StatusModel> {
    match m {
        Message::TardiProposeStatus(st) => Some(status_view(st)),
        _ => None,
    }
}

/// Whether the statuses `sts` are of epoch `smr_k`, come from distinct
/// parties, and were each received as a status in `src`.
pub open spec fn gathered_well(sts: Seq<StatusModel>, src: Seq<Message>, smr_k: u32) -> bool {
    &&& forall|i: int| 0 <= i < sts.len() ==> (#[trigger] sts[i]).smr_k == smr_k
    &&& forall|i: int, j: int| 0 <= i < j < sts.len() ==> (#[trigger] sts[i]).sender_id != (#[trigger] sts[j]).sender_id
    &&& forall|i: int|
        0 <= i < sts.len() ==> exists|q: int| 0 <= q < src.len() && #[trigger] status_carried(src[q]) == Some(#[trigger] sts[i])
}

proof fn lemma_gather_sound(src: Seq<Message>, m: int, smr_k: u32, t: u32, acc: Seq<StatusModel>)
    requires
        0 <= m <= src.len(),
        gathered_well(acc, src, smr_k),
        acc.len() < t || acc.len() == 0,
    ensures
        gather(src.skip(m), smr_k, t, acc) matches Some(sts) ==> gathered_well(sts, src, smr_k) && (sts.len()
            == t || (t == 0 && sts.len() == 1)),
    decreases src.len() - m,
{
    if m < src.len() {
        let q = src.skip(m);
        assert(q[0] == src[m]);
        assert(q.drop_first() =~= src.skip(m + 1));
        match src[m] {
            Message::TardiProposeStatus(st) => {
                if st.smr_k == smr_k && !status_senders(acc).contains(st.sender_id) {
                    let acc2 = acc.push(status_view(st));
                    assert(status_carried(src[m]) == Some(status_view(st)));
                    assert forall|i: int| 0 <= i < acc.len() implies acc[i].sender_id != st.sender_id by {
                        assert(status_senders(acc)[i] == acc[i].sender_id);
                    }
                    assert forall|i: int| 0 <= i < acc2.len() implies exists|q: int|
                        0 <= q < src.len() && #[trigger] status_carried(src[q]) == Some(#[trigger] acc2[i]) by {
                        if i == acc.len() {
                            assert(status_carried(src[m]) == Some(acc2[i]));
                        } else {
                            assert(acc2[i] == acc[i]);
                        }
                    }
                    assert forall|i: int, j: int| 0 <= i < j < acc2.len() implies (#[trigger] acc2[i]).sender_id
                        != (#[trigger] acc2[j]).sender_id by {
                        if j == acc.len() {
                            assert(acc2[i] == acc[i]);
                        } else {
                            assert(acc2[i] == acc[i] && acc2[j] == acc[j]);
                        }
                    }
                    assert forall|i: int| 0 <= i < acc2.len() implies (#[trigger] acc2[i]).smr_k == smr_k by {
                        if i < acc.len() {
                            assert(acc2[i] == acc[i]);
                        }
                    }
                    if acc2.len() < t {
                        lemma_gather_sound(src, m + 1, smr_k, t, acc2);
                    }
                } else {
                    lemma_gather_sound(src, m + 1, smr_k, t, acc);
                }
            },
            _ => {
                lemma_gather_sound(src, m + 1, smr_k, t, acc);
            },
        }
    }
}

/// What the proposer puts in its propose message: exactly `t` statuses (one
/// when `t` is 0), all of epoch `smr_k`, from distinct parties, each one
/// received as a status.
pub proof fn lemma_gathered_statuses(queue: Seq<Message>, smr_k: u32, t: u32)
    ensures
        gather(queue, smr_k, t, Seq::empty()) matches Some(sts) ==> gathered_well(sts, queue, smr_k) && (sts.len()
            == t || (t == 0 && sts.len() == 1)),
{
    assert(queue.skip(0) =~= queue);
    lemma_gather_sound(queue, 0, smr_k, t, Seq::empty());
}

/// Whether `m` is a propose message of epoch `smr_k` that names
/// `proposer_id` as its sender.
pub open spec fn sent_by_proposer(m: Message, smr_k: u32, proposer_id: u32) -> bool {
    match m {
        Message::TardiProposePropose { smr_k: a, sender_id, .. } => a == smr_k && sender_id == proposer_id,
        _ => false,
    }
}

/// Another party adopts the first propose message of the epoch from the
/// proposer among those it received, and none when there is none.
pub proof fn lemma_adopted_is_first_from_proposer(queue: Seq<Message>, smr_k: u32, proposer_id: u32)
    ensures
        (forall|j: int| 0 <= j < queue.len() ==> !#[trigger] sent_by_proposer(queue[j], smr_k, proposer_id))
            ==> first_proposal(queue, smr_k, proposer_id) is None,
        forall|j: int|
            0 <= j < queue.len() && #[trigger] sent_by_proposer(queue[j], smr_k, proposer_id) && (forall|i: int|
                0 <= i < j ==> !sent_by_proposer(queue[i], smr_k, proposer_id)) ==> first_proposal(
                queue,
                smr_k,
                proposer_id,
            ) == Some(queue[j]),
    decreases queue.len(),
{
    if queue.len() > 0 {
        let rest = queue.drop_first();
        lemma_adopted_is_first_from_proposer(rest, smr_k, proposer_id);
        assert(of_proposer(queue[0], smr_k, proposer_id) == sent_by_proposer(queue[0], smr_k, proposer_id));
        if (forall|j: int| 0 <= j < queue.len() ==> !#[trigger] sent_by_proposer(queue[j], smr_k, proposer_id)) {
            assert(!sent_by_proposer(queue[0], smr_k, proposer_id));
            assert forall|j: int| 0 <= j < rest.len() implies !#[trigger] sent_by_proposer(rest[j], smr_k, proposer_id) by {
                assert(rest[j] == queue[j + 1]);
            }
        }
        assert forall|j: int|
            0 <= j < queue.len() && #[trigger] sent_by_proposer(queue[j], smr_k, proposer_id) && (forall|i: int|
                0 <= i < j ==> !sent_by_proposer(queue[i], smr_k, proposer_id)) implies first_proposal(
            queue,
            smr_k,
            proposer_id,
        ) == Some(queue[j]) by {
            if j > 0 {
                assert(!sent_by_proposer(queue[0], smr_k, proposer_id));
                assert(rest[j - 1] == queue[j]);
                assert forall|i: int| 0 <= i < j - 1 implies !sent_by_proposer(rest[i], smr_k, proposer_id) by {
                    assert(rest[i] == queue[i + 1]);
                }
            }
        }
    }
}

proof fn lemma_first_max_exists(statuses: Seq<StatusModel>)
    requires
        statuses.len() > 0,
    ensures
        exists|i: int| is_first_max(statuses, i),
    decreases statuses.len(),
{
    if statuses.len() == 1 {
        assert(is_first_max(statuses, 0));
    } else {
        let pre = statuses.drop_last();
        lemma_first_max_exists(pre);
        let i = choose|i: int| is_first_max(pre, i);
        let n = statuses.len() - 1;
        assert forall|j: int| 0 <= j < n implies #[trigger] statuses[j] == pre[j] by {}
        if statuses[n].k > statuses[i].k {
            assert forall|j: int| 0 <= j < statuses.len() implies #[trigger] statuses[j].k <= statuses[n].k by {
                if j < n {
                    assert(pre[j].k <= pre[i].k);
                }
            }
            assert forall|j: int| 0 <= j < n implies #[trigger] statuses[j].k < statuses[n].k by {
                assert(pre[j].k <= pre[i].k);
            }
            assert(is_first_max(statuses, n));
        } else {
            assert forall|j: int| 0 <= j < statuses.len() implies #[trigger] statuses[j].k <= statuses[i].k by {
                if j < n {
                    assert(pre[j].k <= pre[i].k);
                }
            }
            assert forall|j: int| 0 <= j < i implies #[trigger] statuses[j].k < statuses[i].k by {
                assert(pre[j].k < pre[i].k);
            }
            assert(is_first_max(statuses, i));
        }
    }
}

/// The proposal taken from a list of statuses is that of a status whose
/// round is the highest of all, and no earlier status has as high a round;
/// from no statuses, it is two empty sets.
pub proof fn lemma_highest_has_the_highest_round(statuses: Seq<StatusModel>)
    ensures
        statuses.len() == 0 ==> highest(statuses) == (Set::<Transaction>::empty(), Set::<Transaction>::empty()),
        statuses.len() > 0 ==> exists|i: int|
            0 <= i < statuses.len() && highest(statuses) == (statuses[i].b, statuses[i].sig) && (forall|j: int|
                0 <= j < statuses.len() ==> #[trigger] statuses[j].k <= statuses[i].k) && (forall|j: int|
                0 <= j < i ==> #[trigger] statuses[j].k < statuses[i].k),
{
    if statuses.len() > 0 {
        lemma_first_max_exists(statuses);
        let i = choose|i: int| is_first_max(statuses, i);
        assert(is_first_max(statuses, i));
    }
}

/// What stays fixed during one propose step: the epoch, the round `k` of
/// graded consensus it belongs to, who this party is, who proposes, and how
/// many statuses the proposer needs.
#[derive(Clone, Copy, Debug)]
pub struct ProposeParams {
    pub smr_k: u32,
    pub k: u32,
    pub my_id: u32,
    pub proposer_id: u32,
    pub t: u32,
}

/// Where a party is in the propose step. `Start` holds its status: the
/// round `k_star` of its best certified proposal, that proposal and its
/// certificate; after sending it, the party has `Sent` it; once it sent or
/// adopted the propose message it is `Holding` it; `Done` holds the
/// output, two empty sets standing for "no output".
pub enum ProposePhase {
    Start { k_star: u32, beta: HashSet<Transaction>, sigma: HashSet<Transaction>, cert: Certificate },
    Sent,
    Holding(Message),
    Done(HashSet<Transaction>, HashSet<Transaction>),
}

/// A propose phase as plain values.
pub enum ProposeModel {
    Start { k_star: u32, beta: Set<Transaction>, sigma: Set<Transaction>, cert: (u32, Set<u32>) },
    Sent,
    Holding(ProposalModel),
    Done(Set<Transaction>, Set<Transaction>),
}

pub open spec fn propose_view(ph: ProposePhase) -> ProposeModel {
    match ph {
        ProposePhase::Start { k_star, beta, sigma, cert } => ProposeModel::Start {
            k_star,
            beta: beta@,
            sigma: sigma@,
            cert: cert_view(cert),
        },
        ProposePhase::Sent => ProposeModel::Sent,
        ProposePhase::Holding(m) => ProposeModel::Holding(proposal_of(m)),
        ProposePhase::Done(b, s) => ProposeModel::Done(b@, s@),
    }
}

/// Whether the phase holds a propose message, when it holds one.
pub open spec fn propose_wf(ph: ProposePhase) -> bool {
    ph matches ProposePhase::Holding(m) ==> m is TardiProposePropose
}

/// Whether `m` is this party's status: round `k_star` with the proposal
/// `(beta, sigma)` and its certificate, of epoch `p.smr_k`, sent to
/// `p.proposer_id`.
pub open spec fn is_status_msg(
    m: Message,
    p: ProposeParams,
    k_star: u32,
    beta: Set<Transaction>,
    sigma: Set<Transaction>,
    cert: (u32, Set<u32>),
) -> bool {
    m matches Message::TardiProposeStatus(st) && status_view(st) == (StatusModel {
        smr_k: p.smr_k,
        k: k_star,
        b: beta,
        sig: sigma,
        cert,
        sender_id: p.my_id,
        proposer_id: p.proposer_id,
    })
}

/// The phase the propose step moves to, given `inbox`, everything received
/// since the step started:
/// - from `Start`, the status is sent;
/// - at `delta`, the proposer holds its propose message with the first `t`
///   statuses of distinct parties, or outputs nothing when fewer came;
/// - at `2 * delta`, another party holds the proposer's propose message, or
///   outputs nothing when none came;
/// - at `3 * delta`, the output is the highest status of the message held,
///   or nothing when a propose message from the proposer that came
///   differs from it.
pub open spec fn propose_next(p: ProposeParams, ph: ProposeModel, inbox: Seq<Message>) -> ProposeModel {
    match ph {
        ProposeModel::Start { .. } => ProposeModel::Sent,
        ProposeModel::Sent => if p.my_id == p.proposer_id {
            match gather(inbox, p.smr_k, p.t, Seq::empty()) {
                None => ProposeModel::Done(Set::empty(), Set::empty()),
                Some(sts) => ProposeModel::Holding(own_proposal(p.smr_k, p.k, sts, p.my_id)),
            }
        } else {
            match first_proposal(inbox, p.smr_k, p.proposer_id) {
                None => ProposeModel::Done(Set::empty(), Set::empty()),
                Some(m) => ProposeModel::Holding(proposal_of(m)),
            }
        },
        ProposeModel::Holding(pm) => if proposals_agree(pm, inbox, p.smr_k, p.proposer_id) {
            ProposeModel::Done(highest(pm.statuses).0, highest(pm.statuses).1)
        } else {
            ProposeModel::Done(Set::empty(), Set::empty())
        },
        ProposeModel::Done(b, s) => ProposeModel::Done(b, s),
    }
}

/// What the propose step sends, given `inbox`: the status first; then the
/// propose message it comes to hold (the proposer's own, or the
/// proposer's passed on by another party); nothing else.
pub open spec fn propose_sends(p: ProposeParams, ph: ProposeModel, inbox: Seq<Message>, sent: Seq<Message>) -> bool {
    match ph {
        ProposeModel::Start { k_star, beta, sigma, cert } => sent.len() == 1 && is_status_msg(
            sent[0],
            p,
            k_star,
            beta,
            sigma,
            cert,
        ),
        ProposeModel::Sent => match propose_next(p, ph, inbox) {
            ProposeModel::Holding(pm) => sent.len() == 1 && is_propose_msg(sent[0], pm),
            _ => sent.len() == 0,
        },
        _ => sent.len() == 0,
    }
}

/// One move of the propose step: from `phase`, given `inbox`, everything
/// received since the step started, the next phase and the messages to
/// send.
pub fn propose(params: ProposeParams, phase: ProposePhase, inbox: &Vec<Message>) -> (res: (
    ProposePhase,
    Vec<Message>,
))
    requires
        propose_wf(phase),
    ensures
        propose_wf(res.0),
        propose_view(res.0) == propose_next(params, propose_view(phase), inbox@),
        propose_sends(params, propose_view(phase), inbox@, res.1@),
{
    let mut sent: Vec<Message> = Vec::new();
    match phase {
        ProposePhase::Start { k_star, beta, sigma, cert } => {
            let st = Status {
                smr_k: params.smr_k,
                k: k_star,
                b: beta,
                sig: sigma,
                cert,
                sender_id: params.my_id,
                proposer_id: params.proposer_id,
            };
            sent.push(Message::TardiProposeStatus(st));
            (ProposePhase::Sent, sent)
        },
        ProposePhase::Sent => {
            let found = if params.my_id == params.proposer_id {
                propose_gather(inbox, params.smr_k, params.k, params.t, params.my_id)
            } else {
                propose_adopt(inbox, params.smr_k, params.proposer_id)
            };
            match found {
                Some(m) => {
                    let held = copy_proposal(&m);
                    sent.push(m);
                    (ProposePhase::Holding(held), sent)
                },
                None => (ProposePhase::Done(HashSet::new(), HashSet::new()), sent),
            }
        },
        ProposePhase::Holding(m) => {
            if propose_consistent(&m, inbox, params.smr_k, params.proposer_id) {
                match m {
                    Message::TardiProposePropose { statuses, .. } => {
                        let (b, s) = highest_status(statuses);
                        (ProposePhase::Done(b, s), sent)
                    },
                    _ => (ProposePhase::Done(HashSet::new(), HashSet::new()), sent),
                }
            } else {
                (ProposePhase::Done(HashSet::new(), HashSet::new()), sent)
            }
        },
        ProposePhase::Done(b, s) => (ProposePhase::Done(b, s), sent),
    }
}

/// What stays fixed during one run of graded consensus: the epoch, the
/// round `k` of graded consensus (the round of lattice agreement that runs
/// it), who this party is, and how many parties there are.
#[derive(Clone, Copy, Debug)]
pub struct GcParams {
    pub smr_k: u32,
    pub k: u32,
    pub my_id: u32,
    pub num_parties: u32,
}

/// The propose step that a run of graded consensus starts with: its leader
/// proposes, and needs the statuses of a quorum.
pub open spec fn gc_propose_params(p: GcParams) -> ProposeParams {
    ProposeParams {
        smr_k: p.smr_k,
        k: p.k,
        my_id: p.my_id,
        proposer_id: gc_leader(),
        t: gc_quorum(p.num_parties) as u32,
    }
}

/// Where a party is in a run of graded consensus: in the propose step; past
/// it, with the leader's proposal (at `3 * delta`); waiting for
/// notifications, having certified nothing (at `4 * delta`); or done, with
/// its output.
pub enum GcPhase {
    Proposing(ProposePhase),
    Committed(HashSet<Transaction>, HashSet<Transaction>),
    AwaitNotify,
    Done(GcOutput),
}

/// A run of graded consensus: its phase, and every message received since
/// it started, which each timed move decides on.
pub struct GcState {
    pub phase: GcPhase,
    pub seen: Vec<Message>,
}

/// A graded-consensus phase as plain values.
pub enum GcModel {
    Proposing(ProposeModel),
    Committed(Set<Transaction>, Set<Transaction>),
    AwaitNotify,
    Done(GcOutputModel),
}

/// A run of graded consensus as plain values.
pub struct GcStateModel {
    pub phase: GcModel,
    pub seen: Seq<Message>,
}

pub open spec fn gc_view(ph: GcPhase) -> GcModel {
    match ph {
        GcPhase::Proposing(pp) => GcModel::Proposing(propose_view(pp)),
        GcPhase::Committed(b, s) => GcModel::Committed(b@, s@),
        GcPhase::AwaitNotify => GcModel::AwaitNotify,
        GcPhase::Done(o) => GcModel::Done(gc_output_view(o)),
    }
}

pub open spec fn gc_state_view(st: GcState) -> GcStateModel {
    GcStateModel { phase: gc_view(st.phase), seen: st.seen@ }
}

/// Whether the propose step of the run holds a propose message, when it
/// holds one.
pub open spec fn gc_wf(st: GcState) -> bool {
    st.phase matches GcPhase::Proposing(pp) ==> propose_wf(pp)
}

/// The phase graded consensus moves to, given `seen`, everything received
/// since the run started: the propose step runs until it has an output,
/// which is the leader's proposal; at `4 * delta` the party outputs it with
/// grade 2 and a certificate when a quorum of parties committed to it,
/// else it waits; at `5 * delta` it outputs the first well-formed
/// notification with grade 1, or nothing with grade 0.
pub open spec fn gc_phase_next(p: GcParams, ph: GcModel, seen: Seq<Message>) -> GcModel {
    match ph {
        GcModel::Proposing(pp) => match propose_next(gc_propose_params(p), pp, seen) {
            ProposeModel::Done(b, s) => GcModel::Committed(b, s),
            pp2 => GcModel::Proposing(pp2),
        },
        GcModel::Committed(b, s) => match certify(seen, p.smr_k, p.k, b, s, gc_quorum(p.num_parties) as u32) {
            Some(cert) => GcModel::Done(GcOutputModel { b, sig: s, cert, grade: 2 }),
            None => GcModel::AwaitNotify,
        },
        GcModel::AwaitNotify => GcModel::Done(gc_result(seen, p.smr_k, p.k, gc_quorum(p.num_parties) as u32)),
        GcModel::Done(o) => GcModel::Done(o),
    }
}

/// The run after a move on the messages `received` since the last one:
/// they join what was seen, and the phase moves on that.
pub open spec fn gc_next(p: GcParams, st: GcStateModel, received: Seq<Message>) -> GcStateModel {
    let seen = st.seen + received;
    GcStateModel { phase: gc_phase_next(p, st.phase, seen), seen }
}

/// What a move of graded consensus sends, given `seen`: what the propose
/// step sends, followed, once it has the leader's proposal and that
/// proposal is not the empty one, by this party's commit to it; the
/// notification of a certified proposal; nothing else.
pub open spec fn gc_phase_sends(p: GcParams, ph: GcModel, seen: Seq<Message>, sent: Seq<Message>) -> bool {
    match ph {
        GcModel::Proposing(pp) => {
            let pq = gc_propose_params(p);
            match propose_next(pq, pp, seen) {
                ProposeModel::Done(b, s) => if is_bottom(b, s) {
                    propose_sends(pq, pp, seen, sent)
                } else {
                    &&& sent.len() > 0
                    &&& propose_sends(pq, pp, seen, sent.drop_last())
                    &&& is_commit(sent.last(), p.smr_k, p.k, b, s, p.my_id)
                },
                _ => propose_sends(pq, pp, seen, sent),
            }
        },
        GcModel::Committed(b, s) => match certify(seen, p.smr_k, p.k, b, s, gc_quorum(p.num_parties) as u32) {
            Some(cert) => sent.len() == 1 && is_notify(sent[0], p.smr_k, p.k, b, s, cert),
            None => sent.len() == 0,
        },
        _ => sent.len() == 0,
    }
}

/// One move of graded consensus: from `state`, on the messages `received`
/// since the last move, the next state and the messages to send.
pub fn gc(params: GcParams, state: GcState, received: Vec<Message>) -> (res: (GcState, Vec<Message>))
    requires
        params.num_parties < u32::MAX,
        gc_wf(state),
    ensures
        gc_wf(res.0),
        gc_state_view(res.0) == gc_next(params, gc_state_view(state), received@),
        gc_phase_sends(params, gc_view(state.phase), state.seen@ + received@, res.1@),
{
    let t = gc_threshold(params.num_parties);
    let GcState { phase, seen } = state;
    let mut seen = seen;
    let mut received = received;
    seen.append(&mut received);
    match phase {
        GcPhase::Proposing(pp) => {
            let pparams = ProposeParams {
                smr_k: params.smr_k,
                k: params.k,
                my_id: params.my_id,
                proposer_id: leader(params.k),
                t,
            };
            assert(pparams == gc_propose_params(params));
            let (pp2, mut sent) = propose(pparams, pp, &seen);
            match pp2 {
                ProposePhase::Done(b, s) => {
                    let ghost before = sent@;
                    match gc_commit(params.smr_k, params.k, &b, &s, params.my_id) {
                        Some(c) => {
                            sent.push(c);
                            assert(sent@.drop_last() =~= before);
                        },
                        None => {},
                    }
                    (GcState { phase: GcPhase::Committed(b, s), seen }, sent)
                },
                other => (GcState { phase: GcPhase::Proposing(other), seen }, sent),
            }
        },
        GcPhase::Committed(b, s) => {
            let mut sent: Vec<Message> = Vec::new();
            match gc_certify(&seen, params.smr_k, params.k, &b, &s, t) {
                Some((out, notify)) => {
                    sent.push(notify);
                    (GcState { phase: GcPhase::Done(out), seen }, sent)
                },
                None => (GcState { phase: GcPhase::AwaitNotify, seen }, sent),
            }
        },
        GcPhase::AwaitNotify => {
            let out = gc_notified(&seen, params.smr_k, params.k, t);
            (GcState { phase: GcPhase::Done(out), seen }, Vec::new())
        },
        GcPhase::Done(o) => (GcState { phase: GcPhase::Done(o), seen }, Vec::new()),
    }
}

/// How a run of graded consensus begins for round `m.k` of lattice
/// agreement: the status carries what agreement carried into the round,
/// its round `k_star`, its batch, signatures and certificate; nothing is
/// seen yet.
pub open spec fn gc_begin(m: BlaModel) -> GcStateModel {
    GcStateModel {
        phase: GcModel::Proposing(
            ProposeModel::Start { k_star: m.k_star, beta: m.b_star, sigma: m.s_star, cert: m.c_star },
        ),
        seen: Seq::empty(),
    }
}

/// The run of graded consensus for the next round of lattice agreement
/// `state`, in epoch `smr_k`.
pub fn gc_start(state: &Bla, smr_k: u32, my_id: u32, num_parties: u32) -> (res: (GcParams, GcState))
    ensures
        res.0 == (GcParams { smr_k, k: state@.k, my_id, num_parties }),
        gc_state_view(res.1) == gc_begin(state@),
        gc_wf(res.1),
{
    let params = GcParams { smr_k, k: state.round(), my_id, num_parties };
    let cert = copy_certificate(state.c_star());
    let phase = GcPhase::Proposing(
        ProposePhase::Start {
            k_star: state.k_star(),
            beta: copy_set(state.b_star()),
            sigma: copy_set(state.s_star()),
            cert,
        },
    );
    (params, GcState { phase, seen: Vec::new() })
}

/// The first move of the run of graded consensus for a round of lattice
/// agreement sends one message: this party's status, carrying the round,
/// batch, signatures and certificate that agreement carried into the round.
pub proof fn lemma_round_sends_carried_status(
    p: GcParams,
    m: BlaModel,
    received: Seq<Message>,
    sent: Seq<Message>,
)
    requires
        gc_phase_sends(p, gc_begin(m).phase, gc_begin(m).seen + received, sent),
    ensures
        sent.len() == 1,
        is_status_msg(sent[0], gc_propose_params(p), m.k_star, m.b_star, m.s_star, m.c_star),
{
}

proof fn lemma_valid_notify_gives_grade_one(notifies: Seq<Message>, smr_k: u32, k: u32, t: u32, j: int)
    requires
        0 <= j < notifies.len(),
        valid_notify(notifies[j], smr_k, k, t),
    ensures
        gc_result(notifies, smr_k, k, t).grade == 1,
    decreases notifies.len(),
{
    if !valid_notify(notifies[0], smr_k, k, t) {
        assert(notifies.drop_first()[j - 1] == notifies[j]);
        lemma_valid_notify_gives_grade_one(notifies.drop_first(), smr_k, k, t, j - 1);
    }
}

/// A party that certifies the leader's proposal at `4 * delta` (grade 2)
/// notifies every party of it; any party of the same run that has that
/// notification among what it received by its `5 * delta` move, having
/// certified nothing itself, outputs with grade 1. So where one party has
/// grade 2, every party that hears from it in time has a grade above 0.
pub proof fn lemma_grade_two_gives_grade_one_elsewhere(
    p: GcParams,
    b: Set<Transaction>,
    s: Set<Transaction>,
    seen: Seq<Message>,
    sent: Seq<Message>,
    q: GcParams,
    other_seen: Seq<Message>,
    j: int,
)
    requires
        gc_phase_next(p, GcModel::Committed(b, s), seen) matches GcModel::Done(o) && o.grade == 2,
        gc_phase_sends(p, GcModel::Committed(b, s), seen, sent),
        q.smr_k == p.smr_k,
        q.k == p.k,
        q.num_parties == p.num_parties,
        0 <= j < other_seen.len(),
        sent.len() > 0 && notify_content(other_seen[j]) == notify_content(sent[0]),
    ensures
        gc_phase_next(q, GcModel::AwaitNotify, other_seen) matches GcModel::Done(o) && o.grade == 1,
{
    let t = gc_quorum(p.num_parties) as u32;
    let cert = certify(seen, p.smr_k, p.k, b, s, t)->0;
    assert(is_notify(sent[0], p.smr_k, p.k, b, s, cert));
    assert(valid_notify(other_seen[j], q.smr_k, q.k, t));
    lemma_valid_notify_gives_grade_one(other_seen, q.smr_k, q.k, t, j);
}

/// What a notification says, as plain values: its epoch, round, proposal
/// and certificate (nothing for another message).
pub open spec fn notify_content(m: Message) -> Option<(u32, u32, Set<Transaction>, Set<Transaction>, (u32, Set<u32>))> {
    match m {
        Message::TardiGCNotify { smr_k, k, b, sig, cert } => Some((smr_k, k, b@, sig@, cert_view(cert))),
        _ => None,
    }
}

/// When the next move of graded consensus is due, as a multiple of `delta`
/// after the run started: the status goes out at once; the proposer
/// gathers at `delta` and the others adopt at `2 * delta`; the proposal is
/// checked and committed to at `3 * delta`; commits are counted at
/// `4 * delta`; notifications at `5 * delta`. `None` once it is done.
pub open spec fn gc_due(p: GcParams, ph: GcModel) -> Option<u32> {
    match ph {
        GcModel::Proposing(pp) => match pp {
            ProposeModel::Start { .. } => Some(0),
            ProposeModel::Sent => if p.my_id == gc_leader() {
                Some(1)
            } else {
                Some(2)
            },
            _ => Some(3),
        },
        GcModel::Committed(_, _) => Some(4),
        GcModel::AwaitNotify => Some(5),
        GcModel::Done(_) => None,
    }
}

/// When the next move of graded consensus is due (see `gc_due`).
pub fn gc_next_due(params: &GcParams, state: &GcState) -> (res: Option<u32>)
    ensures
        res == gc_due(*params, gc_view(state.phase)),
{
    match &state.phase {
        GcPhase::Proposing(pp) => match pp {
            ProposePhase::Start { .. } => Some(0),
            ProposePhase::Sent => if params.my_id == leader(params.k) {
                Some(1)
            } else {
                Some(2)
            },
            _ => Some(3),
        },
        GcPhase::Committed(_, _) => Some(4),
        GcPhase::AwaitNotify => Some(5),
        GcPhase::Done(_) => None,
    }
}

/// The output of a run of graded consensus, once it is done.
pub fn gc_output(state: GcState) -> (res: Option<GcOutput>)
    ensures
        match gc_view(state.phase) {
            GcModel::Done(o) => res matches Some(r) && gc_output_view(r) == o,
            _ => res is None,
        },
{
    match state.phase {
        GcPhase::Done(o) => Some(o),
        _ => None,
    }
}

} // verus!
