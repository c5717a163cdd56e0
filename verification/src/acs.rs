//! Agreement on a common subset (ACS) of the parties' batches.
//!
//! Every party `i` broadcasts its batch in a broadcast instance `Bcast_i`
//! and the parties run a binary agreement `BA_i` on whether to include it.
//! What a party knows at any moment is, for each `i`, the batch `Bcast_i`
//! delivered (if any) and the bit `BA_i` decided (if any). From that it
//! decides which agreements to start and when to leave with an output.

use std::collections::HashSet;
use vstd::prelude::*;

use crate::messages::Transaction;
use crate::tardigrade::add_all;
use crate::tardigrade::copy_set;
use crate::tardigrade::same_transactions;

verus! {

broadcast use vstd::std_specs::hash::group_hash_axioms;

/// The delivered batches as plain values.
pub open spec fn batch_views(bcast: Seq<Option<HashSet<Transaction>>>) -> Seq<
    Option<Set<Transaction>>,
> {
    bcast.map_values(
        |o: Option<HashSet<Transaction>>|
            match o {
                Some(b) => Some(b@),
                None => None,
            },
    )
}

/// How many broadcast instances delivered the batch `v`.
pub open spec fn count_delivered(outs: Seq<Option<Set<Transaction>>>, v: Set<Transaction>) -> nat
    decreases outs.len(),
{
    if outs.len() == 0 {
        0
    } else {
        count_delivered(outs.drop_last(), v) + if outs.last() == Some(v) {
            1nat
        } else {
            0nat
        }
    }
}

/// How many binary agreements decided 1: `s = |S*|`.
pub open spec fn count_ones(ba: Seq<Option<bool>>) -> nat
    decreases ba.len(),
{
    if ba.len() == 0 {
        0
    } else {
        count_ones(ba.drop_last()) + if ba.last() == Some(true) {
            1nat
        } else {
            0nat
        }
    }
}

/// Whether instance `i` delivered a batch that at least `need` instances
/// delivered.
pub open spec fn is_common(outs: Seq<Option<Set<Transaction>>>, need: int, i: int) -> bool {
    0 <= i < outs.len() && outs[i] is Some && count_delivered(outs, outs[i]->0) >= need
}

/// Whether `i` is the first instance for which `is_common` holds.
pub open spec fn is_first_common(outs: Seq<Option<Set<Transaction>>>, need: int, i: int) -> bool {
    is_common(outs, need, i) && forall|j: int| 0 <= j < i ==> !#[trigger] is_common(outs, need, j)
}

/// The first instance whose delivered batch was delivered by at least
/// `need` instances.
pub open spec fn first_common(outs: Seq<Option<Set<Transaction>>>, need: int) -> Option<int> {
    if exists|i: int| #[trigger] is_common(outs, need, i) {
        Some(choose|i: int| #[trigger] is_first_common(outs, need, i))
    } else {
        None
    }
}

proof fn lemma_first_common(outs: Seq<Option<Set<Transaction>>>, need: int, i: int)
    requires
        is_first_common(outs, need, i),
    ensures
        first_common(outs, need) == Some(i),
{
    assert(is_common(outs, need, i));
    let k = choose|k: int| #[trigger] is_first_common(outs, need, k);
    assert(is_first_common(outs, need, k));
    if k < i {
        assert(!is_common(outs, need, k));
    } else if k > i {
        assert(!is_common(outs, need, i));
    }
}

/// The union of the batches delivered by the instances whose agreement
/// decided 1.
pub open spec fn included_union(outs: Seq<Option<Set<Transaction>>>, ba: Seq<Option<bool>>) -> Set<
    Transaction,
>
    decreases outs.len(),
{
    if outs.len() == 0 {
        Set::empty()
    } else {
        let before = included_union(outs.drop_last(), ba);
        let i = outs.len() - 1;
        if i < ba.len() && ba[i] == Some(true) && outs[i] is Some {
            before.union(outs[i]->0)
        } else {
            before
        }
    }
}

/// When a party leaves ACS, and with what:
/// 1. when `n - t_s` instances delivered the same batch `v`: `v`;
/// 2. otherwise, when `n - t_a` agreements decided 1, all agreements are
///    over, and a majority of the `n` instances delivered the same `v`: `v`;
/// 3. otherwise, when moreover all instances delivered: the union of the
///    batches of the instances whose agreement decided 1.
/// `None` while none of these holds. The batches `v` are taken among the
/// delivered ones, the first instance's first.
pub open spec fn acs_exit(
    outs: Seq<Option<Set<Transaction>>>,
    ba: Seq<Option<bool>>,
    n: nat,
    t_a: nat,
    t_s: nat,
) -> Option<Set<Transaction>> {
    let agreed = count_ones(ba) >= n - t_a && forall|i: int| 0 <= i < ba.len() ==> ba[i] is Some;
    let need = if t_s <= n {
        n - t_s
    } else {
        0
    };
    match first_common(outs, need) {
        Some(i) => Some(outs[i]->0),
        None => if agreed {
            match first_common(outs, (n / 2 + 1) as int) {
                Some(i) => Some(outs[i]->0),
                None => if forall|i: int| 0 <= i < outs.len() ==> outs[i] is Some {
                    Some(included_union(outs, ba))
                } else {
                    None
                },
            }
        } else {
            None
        },
    }
}

proof fn lemma_first_exists(outs: Seq<Option<Set<Transaction>>>, need: int, k: int)
    requires
        is_common(outs, need, k),
    ensures
        exists|i: int| #[trigger] is_first_common(outs, need, i),
    decreases k,
{
    if exists|j: int| 0 <= j < k && #[trigger] is_common(outs, need, j) {
        let j = choose|j: int| 0 <= j < k && #[trigger] is_common(outs, need, j);
        lemma_first_exists(outs, need, j);
    } else {
        assert(is_first_common(outs, need, k));
    }
}

proof fn lemma_first_common_found(outs: Seq<Option<Set<Transaction>>>, need: int)
    ensures
        first_common(outs, need) matches Some(i) ==> 0 <= i < outs.len() && outs[i] is Some
            && count_delivered(outs, outs[i]->0) >= need,
        first_common(outs, need) is None ==> forall|i: int|
            0 <= i < outs.len() && outs[i] is Some ==> count_delivered(outs, #[trigger] outs[i]->0) < need,
{
    if exists|i: int| #[trigger] is_common(outs, need, i) {
        let k = choose|i: int| #[trigger] is_common(outs, need, i);
        lemma_first_exists(outs, need, k);
        let i = choose|i: int| #[trigger] is_first_common(outs, need, i);
        assert(is_common(outs, need, i));
    } else {
        assert forall|i: int| 0 <= i < outs.len() && outs[i] is Some implies count_delivered(
            outs,
            #[trigger] outs[i]->0,
        ) < need by {
            assert(!is_common(outs, need, i));
        }
    }
}

/// Whether all agreements are over and at least `n - t_a` decided 1.
pub open spec fn agreements_over(ba: Seq<Option<bool>>, n: nat, t_a: nat) -> bool {
    count_ones(ba) + t_a >= n && forall|i: int| 0 <= i < ba.len() ==> ba[i] is Some
}

/// What a party leaves ACS with is backed: a batch that `n - t_s`
/// instances delivered; or, once all agreements are over with `n - t_a`
/// ones, a batch that a strict majority of the `n` instances delivered; or,
/// once moreover every instance delivered, the union of the batches of the
/// instances whose agreement decided 1.
pub proof fn lemma_acs_exit_backed(
    outs: Seq<Option<Set<Transaction>>>,
    ba: Seq<Option<bool>>,
    n: nat,
    t_a: nat,
    t_s: nat,
)
    ensures
        acs_exit(outs, ba, n, t_a, t_s) matches Some(v) ==> {
            ||| count_delivered(outs, v) + t_s >= n
            ||| agreements_over(ba, n, t_a) && 2 * count_delivered(outs, v) > n
            ||| agreements_over(ba, n, t_a) && (forall|i: int| 0 <= i < outs.len() ==> outs[i] is Some)
                && v == included_union(outs, ba)
        },
{
    let need = if t_s <= n {
        n - t_s
    } else {
        0
    };
    lemma_first_common_found(outs, need as int);
    lemma_first_common_found(outs, (n / 2 + 1) as int);
}

/// When all agreements are over with `n - t_a` ones and every instance
/// delivered, but no batch was delivered by `n - t_s` instances nor by a
/// strict majority of the `n`, a party leaves ACS with the union of the
/// batches of the instances whose agreement decided 1.
pub proof fn lemma_acs_exit_union(
    outs: Seq<Option<Set<Transaction>>>,
    ba: Seq<Option<bool>>,
    n: nat,
    t_a: nat,
    t_s: nat,
)
    requires
        agreements_over(ba, n, t_a),
        forall|i: int| 0 <= i < outs.len() ==> outs[i] is Some,
        forall|i: int|
            0 <= i < outs.len() ==> count_delivered(outs, #[trigger] outs[i]->0) + t_s < n
                && 2 * count_delivered(outs, outs[i]->0) <= n,
    ensures
        acs_exit(outs, ba, n, t_a, t_s) == Some(included_union(outs, ba)),
{
    let need = if t_s <= n {
        n - t_s
    } else {
        0
    };
    lemma_first_common_found(outs, need as int);
    lemma_first_common_found(outs, (n / 2 + 1) as int);
    if let Some(i) = first_common(outs, need as int) {
        assert(count_delivered(outs, outs[i]->0) + t_s < n);
    }
    if let Some(i) = first_common(outs, (n / 2 + 1) as int) {
        assert(2 * count_delivered(outs, outs[i]->0) <= n);
    }
}

fn count_matching(bcast: &Vec<Option<HashSet<Transaction>>>, v: &HashSet<Transaction>) -> (c: u64)
    requires
        bcast.len() < u64::MAX,
    ensures
        c == count_delivered(batch_views(bcast@), v@),
{
    let mut c: u64 = 0;
    let mut j: usize = 0;
    while j < bcast.len()
        invariant
            j <= bcast.len() < u64::MAX,
            c == count_delivered(batch_views(bcast@).take(j as int), v@),
            c <= j,
        decreases bcast.len() - j,
    {
        proof {
            assert(batch_views(bcast@).take(j + 1).drop_last() =~= batch_views(bcast@).take(
                j as int,
            ));
        }
        match &bcast[j] {
            Some(b) => {
                if same_transactions(b, v) {
                    c = c + 1;
                }
            },
            None => {},
        }
        j = j + 1;
    }
    proof {
        assert(batch_views(bcast@).take(bcast.len() as int) =~= batch_views(bcast@));
    }
    c
}

fn find_common(bcast: &Vec<Option<HashSet<Transaction>>>, need: u64) -> (res: Option<usize>)
    requires
        bcast.len() < u64::MAX,
    ensures
        res matches Some(i) ==> is_first_common(batch_views(bcast@), need as int, i as int)
            && first_common(batch_views(bcast@), need as int) == Some(i as int),
        res is None ==> first_common(batch_views(bcast@), need as int) is None,
{
    let ghost outs = batch_views(bcast@);
    let mut i: usize = 0;
    while i < bcast.len()
        invariant
            i <= bcast.len() < u64::MAX,
            outs == batch_views(bcast@),
            forall|j: int| 0 <= j < i ==> !#[trigger] is_common(outs, need as int, j),
        decreases bcast.len() - i,
    {
        match &bcast[i] {
            Some(b) => {
                let c = count_matching(bcast, b);
                if c >= need {
                    proof {
                        assert(is_common(outs, need as int, i as int));
                        lemma_first_common(outs, need as int, i as int);
                    }
                    return Some(i);
                }
            },
            None => {},
        }
        i = i + 1;
    }
    None
}

/// How many agreements decided 1, and whether all of them decided.
fn tally_decisions(ba: &Vec<Option<bool>>) -> (res: (u64, bool))
    requires
        ba.len() < u64::MAX,
    ensures
        res.0 == count_ones(ba@),
        res.1 == forall|k: int| 0 <= k < ba@.len() ==> ba@[k] is Some,
{
    let mut ones: u64 = 0;
    let mut all_agreed = true;
    let mut j: usize = 0;
    while j < ba.len()
        invariant
            j <= ba.len() < u64::MAX,
            ones == count_ones(ba@.take(j as int)),
            ones <= j,
            all_agreed == forall|k: int| 0 <= k < j ==> ba@[k] is Some,
        decreases ba.len() - j,
    {
        proof {
            assert(ba@.take(j + 1).drop_last() =~= ba@.take(j as int));
        }
        match ba[j] {
            Some(true) => {
                ones = ones + 1;
            },
            Some(false) => {},
            None => {
                all_agreed = false;
            },
        }
        j = j + 1;
    }
    proof {
        assert(ba@.take(ba.len() as int) =~= ba@);
    }
    (ones, all_agreed)
}

/// Whether a party leaves ACS now, and with which transactions (see
/// `acs_exit`). `bcast[i]` is the batch that broadcast `i` delivered, if
/// any; `ba[i]` the bit that agreement `i` decided, if any.
pub fn acs_star(
    bcast: &Vec<Option<HashSet<Transaction>>>,
    ba: &Vec<Option<bool>>,
    num_parties: u32,
    t_a: u32,
    t_s: u32,
) -> (res: Option<HashSet<Transaction>>)
    requires
        bcast.len() < u64::MAX,
        ba.len() < u64::MAX,
    ensures
        match acs_exit(
            batch_views(bcast@),
            ba@,
            num_parties as nat,
            t_a as nat,
            t_s as nat,
        ) {
            None => res is None,
            Some(v) => res matches Some(r) && r@ == v,
        },
{
    let ghost outs = batch_views(bcast@);
    let need_common: u64 = if t_s <= num_parties {
        (num_parties - t_s) as u64
    } else {
        0
    };
    if let Some(i) = find_common(bcast, need_common) {
        match &bcast[i] {
            Some(b) => {
                return Some(copy_set(b));
            },
            None => {
                assert(outs[i as int] is None);
                return None;
            },
        }
    }
    let (ones, all_agreed) = tally_decisions(ba);
    let agreed = all_agreed && (ones as u128) + (t_a as u128) >= (num_parties as u128);
    if !agreed {
        return None;
    }
    let need_majority: u64 = (num_parties / 2) as u64 + 1;
    if let Some(i) = find_common(bcast, need_majority) {
        match &bcast[i] {
            Some(b) => {
                return Some(copy_set(b));
            },
            None => {
                assert(outs[i as int] is None);
                return None;
            },
        }
    }
    let mut union: HashSet<Transaction> = HashSet::new();
    let mut i: usize = 0;
    assert(acs_exit(outs, ba@, num_parties as nat, t_a as nat, t_s as nat) == (if forall|k: int|
        0 <= k < outs.len() ==> outs[k] is Some {
        Some(included_union(outs, ba@))
    } else {
        None
    }));
    while i < bcast.len()
        invariant
            acs_exit(outs, ba@, num_parties as nat, t_a as nat, t_s as nat) == (if forall|k: int|
                0 <= k < outs.len() ==> outs[k] is Some {
                Some(included_union(outs, ba@))
            } else {
                None
            }),
            i <= bcast.len(),
            outs == batch_views(bcast@),
            union@ == included_union(outs.take(i as int), ba@),
            forall|k: int| 0 <= k < i ==> outs[k] is Some,
        decreases bcast.len() - i,
    {
        proof {
            assert(outs.take(i + 1).drop_last() =~= outs.take(i as int));
        }
        match &bcast[i] {
            Some(b) => {
                if i < ba.len() {
                    if ba[i] == Some(true) {
                        add_all(&mut union, b);
                    }
                }
            },
            None => {
                assert(outs[i as int] is None);
                return None;
            },
        }
        i = i + 1;
    }
    proof {
        assert(outs.take(bcast.len() as int) =~= outs);
    }
    Some(union)
}

/// Which agreements a party starts now, and with which input: agreement
/// `i`, not yet begun, starts with 1 once broadcast `i` delivered, and with
/// 0 once `n - t_a` agreements decided 1.
pub open spec fn ba_input(
    delivered: bool,
    begun: bool,
    ones: nat,
    n: nat,
    t_a: nat,
) -> Option<bool> {
    if begun {
        None
    } else if delivered {
        Some(true)
    } else if ones >= n - t_a {
        Some(false)
    } else {
        None
    }
}

/// For each agreement: the input to start it with now, or `None`.
pub fn acs_ba_inputs(
    bcast: &Vec<Option<HashSet<Transaction>>>,
    ba: &Vec<Option<bool>>,
    begun: &Vec<bool>,
    num_parties: u32,
    t_a: u32,
) -> (res: Vec<Option<bool>>)
    requires
        bcast.len() == begun.len(),
        ba.len() < u64::MAX,
    ensures
        res.len() == begun.len(),
        forall|i: int|
            0 <= i < res.len() ==> res[i] == ba_input(
                bcast@[i] is Some,
                begun@[i],
                count_ones(ba@),
                num_parties as nat,
                t_a as nat,
            ),
{
    let (ones, _) = tally_decisions(ba);
    let enough = (ones as u128) + (t_a as u128) >= (num_parties as u128);
    let mut res: Vec<Option<bool>> = Vec::new();
    let mut i: usize = 0;
    while i < begun.len()
        invariant
            i <= begun.len() == bcast.len(),
            res.len() == i,
            enough == (count_ones(ba@) >= num_parties as nat - t_a as nat),
            forall|k: int|
                0 <= k < i ==> res[k] == ba_input(
                    bcast@[k] is Some,
                    begun@[k],
                    count_ones(ba@),
                    num_parties as nat,
                    t_a as nat,
                ),
        decreases begun.len() - i,
    {
        let input = if begun[i] {
            None
        } else if bcast[i].is_some() {
            Some(true)
        } else if enough {
            Some(false)
        } else {
            None
        };
        res.push(input);
        i = i + 1;
    }
    res
}

/// An agreement already begun is not started again; one not begun starts
/// with 1 once its broadcast delivered, else with 0 once `n - t_a`
/// agreements decided 1, and otherwise waits.
pub proof fn lemma_agreement_inputs(delivered: bool, begun: bool, ones: nat, n: nat, t_a: nat)
    ensures
        begun ==> ba_input(delivered, begun, ones, n, t_a) is None,
        !begun && delivered ==> ba_input(delivered, begun, ones, n, t_a) == Some(true),
        !begun && !delivered && ones + t_a >= n ==> ba_input(delivered, begun, ones, n, t_a) == Some(false),
        !begun && !delivered && ones + t_a < n ==> ba_input(delivered, begun, ones, n, t_a) is None,
{
}

} // verus!
