use packages_in_bags::count::{calculate_num_states, checked_num_states};
use packages_in_bags::solver::{generate_all_states, is_constrain_satisfied, solve};
use packages_in_bags::state::State;

fn lines(states: &Vec<State>, flag_sort: bool) -> Vec<String> {
    let mut out = Vec::new();
    for state in states {
        out.push(state.render(flag_sort));
    }
    out
}

fn items_sorted(state: &State) -> Vec<char> {
    let mut items = Vec::new();
    for i in 0..state.num_bags() {
        for c in state.bag(i) {
            if *c != '_' {
                items.push(*c);
            }
        }
    }
    items.sort();
    items
}

#[test]
fn three_packages_three_bags_in_walk_order() {
    let (counter, all_states) = generate_all_states(vec!['A', 'B', 'C'], 3);
    assert_eq!(counter, 15);
    assert_eq!(
        lines(&all_states, false),
        vec![
            "( A, B, C : _ : _ )",
            "( A, B : C : _ )",
            "( A : C, B : _ )",
            "( _ : C, B, A : _ )",
            "( _ : C, B : A )",
            "( A : C : B )",
            "( _ : C, A : B )",
            "( _ : C : B, A )",
            "( A, B : _ : C )",
            "( A : B : C )",
            "( _ : B, A : C )",
            "( _ : B : C, A )",
            "( A : _ : C, B )",
            "( _ : A : C, B )",
            "( _ : _ : C, B, A )",
        ]
    );
}

#[test]
fn three_packages_three_bags_sorted_lines() {
    let (_, all_states) = generate_all_states(vec!['A', 'B', 'C'], 3);
    let shown = lines(&all_states, true);
    assert_eq!(shown.len(), 15);
    assert_eq!(shown[0], "( A, B, C : _ : _ )");
    assert!(shown.contains(&String::from("( A, B : C : _ )")));
    assert!(shown.contains(&String::from("( _ : A, B : C )")));
    assert!(shown.contains(&String::from("( _ : B, C : A )")));
    assert_eq!(shown[14], "( _ : _ : A, B, C )");
}

#[test]
fn three_packages_three_bags_leaves_have_empty_first_bag() {
    let (_, all_states) = generate_all_states(vec!['A', 'B', 'C'], 3);
    let mut leaves = 0;
    for state in &all_states {
        if state.first_bag_is_empty() {
            leaves += 1;
            assert_eq!(state.bag(0), &vec!['_']);
        }
    }
    assert_eq!(leaves, 8);
}

#[test]
fn count_matches_closed_form() {
    for num_bags in 1..6usize {
        for num_packages in 0..6usize {
            let list: Vec<char> = "ABCDEF".chars().take(num_packages).collect();
            let (counter, all_states) = generate_all_states(list, num_bags);
            assert_eq!(all_states.len(), calculate_num_states(num_packages, num_bags));
            assert_eq!(counter, all_states.len());
        }
    }
}

#[test]
fn every_state_keeps_all_packages() {
    let (_, all_states) = generate_all_states(vec!['D', 'A', 'C', 'B'], 4);
    assert_eq!(all_states.len(), 1 + 3 + 9 + 27 + 81);
    for state in &all_states {
        assert_eq!(state.num_bags(), 4);
        assert_eq!(items_sorted(state), vec!['A', 'B', 'C', 'D']);
    }
}

#[test]
fn repeated_labels_are_kept_as_often_as_given() {
    let (_, all_states) = generate_all_states(vec!['A', 'A', 'B'], 2);
    assert_eq!(lines(&all_states, false), vec![
        "( A, A, B : _ )",
        "( A, A : B )",
        "( A : B, A )",
        "( _ : B, A, A )",
    ]);
    for state in &all_states {
        assert_eq!(items_sorted(state), vec!['A', 'A', 'B']);
    }
}

#[test]
fn two_runs_give_the_same_states_in_the_same_order() {
    let (first_count, first) = generate_all_states(vec!['X', 'Y', 'Z', 'W'], 3);
    let (second_count, second) = generate_all_states(vec!['X', 'Y', 'Z', 'W'], 3);
    assert_eq!(first_count, second_count);
    assert_eq!(lines(&first, false), lines(&second, false));
}

#[test]
fn first_state_holds_everything_in_the_first_bag() {
    for num_bags in 1..5usize {
        let (_, all_states) = generate_all_states(vec!['Q', 'P'], num_bags);
        let first = &all_states[0];
        assert_eq!(first.num_bags(), num_bags);
        assert_eq!(first.bag(0), &vec!['Q', 'P']);
        for i in 1..num_bags {
            assert_eq!(first.bag(i), &vec!['_']);
        }
    }
}

#[test]
fn no_packages_give_one_state_of_empty_bags() {
    for num_bags in 1..5usize {
        let (counter, all_states) = generate_all_states(Vec::new(), num_bags);
        assert_eq!(counter, 1);
        assert_eq!(all_states.len(), 1);
        assert_eq!(calculate_num_states(0, num_bags), 1);
        for i in 0..num_bags {
            assert_eq!(all_states[0].bag(i), &vec!['_']);
        }
    }
    let (_, all_states) = generate_all_states(Vec::new(), 3);
    assert_eq!(all_states[0].render(true), "( _ : _ : _ )");
}

#[test]
fn single_bag_gives_one_state_with_everything() {
    let (counter, all_states) = generate_all_states(vec!['A', 'B', 'C'], 1);
    assert_eq!(counter, 1);
    assert_eq!(all_states.len(), 1);
    assert_eq!(all_states[0].bag(0), &vec!['A', 'B', 'C']);
    assert_eq!(all_states[0].render(false), "( A, B, C )");
    assert_eq!(calculate_num_states(3, 1), 1);
}

#[test]
fn solve_seeds_an_empty_list_and_restores_the_state() {
    let mut curr_state = State::new(3);
    curr_state.set_bag(0, vec!['A', 'B']);
    let mut all_states: Vec<State> = Vec::new();
    let mut counter = 1usize;
    solve(&mut counter, &mut curr_state, &mut all_states);
    assert_eq!(counter, 7);
    assert_eq!(all_states.len(), 7);
    assert_eq!(curr_state.render(false), "( A, B : _ : _ )");
    assert_eq!(
        lines(&all_states, false),
        vec![
            "( A, B : _ : _ )",
            "( A : B : _ )",
            "( _ : B, A : _ )",
            "( _ : B : A )",
            "( A : _ : B )",
            "( _ : A : B )",
            "( _ : _ : B, A )",
        ]
    );
}

#[test]
fn solve_appends_to_a_list_that_holds_states() {
    let mut earlier = State::new(2);
    earlier.set_bag(1, vec!['Z']);
    let mut all_states: Vec<State> = vec![earlier];
    let mut curr_state = State::new(2);
    curr_state.set_bag(0, vec!['A', 'B']);
    let mut counter = 1usize;
    solve(&mut counter, &mut curr_state, &mut all_states);
    assert_eq!(counter, 3);
    assert_eq!(
        lines(&all_states, false),
        vec!["( _ : Z )", "( A : B )", "( _ : B, A )"]
    );
    assert_eq!(curr_state.render(false), "( A, B : _ )");
}

#[test]
fn solve_from_a_state_in_the_middle_of_the_walk() {
    let mut curr_state = State::new(3);
    curr_state.set_bag(0, vec!['A']);
    curr_state.set_bag(1, vec!['C', 'B']);
    let mut all_states: Vec<State> = Vec::new();
    let mut counter = 1usize;
    solve(&mut counter, &mut curr_state, &mut all_states);
    assert_eq!(counter, 3);
    assert_eq!(
        lines(&all_states, false),
        vec!["( A : C, B : _ )", "( _ : C, B, A : _ )", "( _ : C, B : A )"]
    );
    assert_eq!(curr_state.render(false), "( A : C, B : _ )");
}

#[test]
fn solve_counts_on_from_any_counter() {
    let mut curr_state = State::new(3);
    curr_state.set_bag(0, vec!['A', 'B']);
    let mut all_states: Vec<State> = Vec::new();
    let mut counter = 40usize;
    solve(&mut counter, &mut curr_state, &mut all_states);
    assert_eq!(counter, 46);
    assert_eq!(all_states.len(), 7);
}

#[test]
fn solve_with_an_empty_first_bag_records_nothing_more() {
    let mut curr_state = State::new(2);
    curr_state.set_bag(1, vec!['A']);
    let mut all_states: Vec<State> = Vec::new();
    let mut counter = 1usize;
    solve(&mut counter, &mut curr_state, &mut all_states);
    assert_eq!(counter, 1);
    assert_eq!(lines(&all_states, false), vec!["( _ : A )"]);
}

#[test]
fn every_state_passes_the_constraint() {
    let (_, all_states) = generate_all_states(vec!['A', 'B'], 3);
    for state in &all_states {
        assert!(is_constrain_satisfied(state));
    }
    assert!(is_constrain_satisfied(&State::new(0)));
}

#[test]
fn closed_form_values() {
    assert_eq!(calculate_num_states(3, 3), 15);
    assert_eq!(calculate_num_states(0, 5), 1);
    assert_eq!(calculate_num_states(4, 1), 1);
    assert_eq!(calculate_num_states(2, 4), 13);
    assert_eq!(calculate_num_states(5, 2), 6);
    assert_eq!(calculate_num_states(10, 3), 2047);
    assert_eq!(calculate_num_states(3, 11), 1111);
}

#[test]
fn checked_closed_form_tells_when_it_does_not_fit() {
    assert_eq!(checked_num_states(3, 3), Some(15));
    assert_eq!(checked_num_states(0, 1), Some(1));
    assert_eq!(checked_num_states(1000, 1), Some(1));
    assert_eq!(checked_num_states(1000, 2), Some(1001));
    let bits = usize::BITS as usize;
    assert_eq!(checked_num_states(bits - 1, 3), Some(usize::MAX));
    assert_eq!(checked_num_states(bits, 3), None);
    assert_eq!(checked_num_states(2, usize::MAX), None);
    assert_eq!(checked_num_states(usize::MAX, 3), None);
}

#[test]
fn no_two_states_hold_the_same_bags() {
    let (_, all_states) = generate_all_states(vec!['A', 'B', 'C', 'D'], 3);
    let shown = lines(&all_states, true);
    assert_eq!(shown.len(), 31);
    for a in 0..shown.len() {
        for b in (a + 1)..shown.len() {
            assert_ne!(shown[a], shown[b]);
        }
    }
}

#[test]
fn bag_zero_always_holds_a_beginning_of_the_list() {
    let list = vec!['A', 'B', 'C', 'D'];
    let (_, all_states) = generate_all_states(list.clone(), 3);
    for state in &all_states {
        let first = state.bag(0);
        if !state.first_bag_is_empty() {
            assert_eq!(first[..], list[..first.len()]);
        }
    }
}

#[test]
fn every_spread_of_three_packages_over_three_bags_is_recorded() {
    let list = vec!['A', 'B', 'C'];
    let (_, all_states) = generate_all_states(list.clone(), 3);
    let shown = lines(&all_states, true);
    let mut spreads = 0;
    for kept in 0..=list.len() {
        let moving = list.len() - kept;
        for code in 0..(1usize << moving) {
            let mut expected = State::new(3);
            let mut bags: Vec<Vec<char>> = vec![list[..kept].to_vec(), Vec::new(), Vec::new()];
            for m in 0..moving {
                let target = 1 + ((code >> m) & 1);
                bags[target].push(list[kept + m]);
            }
            for (i, bag) in bags.into_iter().enumerate() {
                expected.set_bag(i, bag);
            }
            assert!(shown.contains(&expected.render(true)));
            spreads += 1;
        }
    }
    assert_eq!(spreads, all_states.len());
}
