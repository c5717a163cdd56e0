use propped_blockchain::acs::acs_ba_inputs;
use propped_blockchain::acs::acs_star;
use std::collections::HashSet;

fn set(xs: &[u64]) -> HashSet<u64> {
    xs.iter().copied().collect()
}

#[test]
fn exit_one_on_n_minus_t_s_equal_batches() {
    let bcast = vec![Some(set(&[1])), Some(set(&[2])), Some(set(&[2])), Some(set(&[2]))];
    let ba = vec![None, None, None, None];
    assert_eq!(acs_star(&bcast, &ba, 4, 1, 1), Some(set(&[2])));
    assert_eq!(acs_star(&bcast, &ba, 4, 1, 0), None);
}

#[test]
fn exit_two_on_a_majority_once_agreement_is_over() {
    let bcast = vec![Some(set(&[1])), Some(set(&[3, 4])), Some(set(&[4, 3])), None, Some(set(&[3, 4]))];
    // n = 5, t_s = 1: no four equal batches; three is a majority of five.
    let ba = vec![Some(true), Some(true), Some(true), Some(false), Some(true)];
    assert_eq!(acs_star(&bcast, &ba, 5, 1, 1), Some(set(&[3, 4])));
    // agreement not over yet
    let ba = vec![Some(true), Some(true), Some(true), None, Some(true)];
    assert_eq!(acs_star(&bcast, &ba, 5, 1, 1), None);
    // too few ones
    let ba = vec![Some(true), Some(false), Some(true), Some(false), Some(false)];
    assert_eq!(acs_star(&bcast, &ba, 5, 1, 1), None);
}

#[test]
fn exit_three_takes_the_union_of_the_included_batches() {
    let bcast = vec![Some(set(&[1])), Some(set(&[2])), Some(set(&[3, 1])), Some(set(&[4]))];
    let ba = vec![Some(true), Some(false), Some(true), Some(true)];
    assert_eq!(acs_star(&bcast, &ba, 4, 1, 1), Some(set(&[1, 3, 4])));
    // not every broadcast has delivered
    let bcast = vec![Some(set(&[1])), None, Some(set(&[3, 1])), Some(set(&[4]))];
    assert_eq!(acs_star(&bcast, &ba, 4, 1, 1), None);
}

#[test]
fn agreements_start_with_one_on_delivery_and_zero_later() {
    let bcast = vec![Some(set(&[1])), None, None, Some(set(&[2]))];
    let begun = vec![true, false, false, false];
    let ba = vec![Some(true), None, None, None];
    assert_eq!(acs_ba_inputs(&bcast, &ba, &begun, 4, 1), vec![None, None, None, Some(true)]);
    let ba = vec![Some(true), None, Some(true), Some(true)];
    assert_eq!(
        acs_ba_inputs(&bcast, &ba, &begun, 4, 1),
        vec![None, Some(false), Some(false), Some(true)]
    );
}
