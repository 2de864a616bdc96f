use packages_in_bags::render::sort_labels;
use packages_in_bags::state::State;

fn bags(state: &State) -> Vec<Vec<char>> {
    let mut out = Vec::new();
    for i in 0..state.num_bags() {
        out.push(state.bag(i).clone());
    }
    out
}

#[test]
fn new_state_has_only_empty_bags() {
    let state = State::new(4);
    assert_eq!(state.num_bags(), 4);
    assert_eq!(bags(&state), vec![vec!['_'], vec!['_'], vec!['_'], vec!['_']]);
    assert!(state.first_bag_is_empty());
    assert_eq!(State::new(0).num_bags(), 0);
}

#[test]
fn set_bag_replaces_one_bag() {
    let mut state = State::new(3);
    state.set_bag(1, vec!['A', 'B']);
    assert_eq!(bags(&state), vec![vec!['_'], vec!['A', 'B'], vec!['_']]);
    state.set_bag(1, vec!['C']);
    assert_eq!(bags(&state), vec![vec!['_'], vec!['C'], vec!['_']]);
    assert!(state.first_bag_is_empty());
    state.set_bag(0, vec!['D']);
    assert!(!state.first_bag_is_empty());
}

#[test]
fn set_bag_without_packages_leaves_the_placeholder() {
    let mut state = State::new(2);
    state.set_bag(0, vec!['A']);
    state.set_bag(0, Vec::new());
    assert_eq!(bags(&state), vec![vec!['_'], vec!['_']]);
    assert!(state.first_bag_is_empty());
    state.set_bag(1, vec!['B']);
    state.set_bag(1, vec!['_']);
    assert_eq!(bags(&state), vec![vec!['_'], vec!['_']]);
}

#[test]
fn shift_moves_the_last_package() {
    let mut state = State::new(3);
    state.set_bag(0, vec!['A', 'B', 'C']);
    state.set_bag(1, vec!['D']);
    assert!(state.shift_last_from_bags(0, 1));
    assert_eq!(bags(&state), vec![vec!['A', 'B'], vec!['D', 'C'], vec!['_']]);
}

#[test]
fn shift_into_an_empty_bag_drops_the_placeholder() {
    let mut state = State::new(2);
    state.set_bag(0, vec!['A', 'B']);
    assert!(state.shift_last_from_bags(0, 1));
    assert_eq!(bags(&state), vec![vec!['A'], vec!['B']]);
}

#[test]
fn shift_of_the_only_package_restores_the_placeholder() {
    let mut state = State::new(2);
    state.set_bag(0, vec!['A']);
    assert!(state.shift_last_from_bags(0, 1));
    assert_eq!(bags(&state), vec![vec!['_'], vec!['A']]);
    assert!(state.first_bag_is_empty());
}

#[test]
fn shift_from_an_empty_bag_is_rejected() {
    let mut state = State::new(3);
    state.set_bag(1, vec!['A', 'B']);
    assert!(!state.shift_last_from_bags(0, 1));
    assert!(!state.shift_last_from_bags(2, 1));
    assert_eq!(bags(&state), vec![vec!['_'], vec!['A', 'B'], vec!['_']]);
}

#[test]
fn shift_within_one_bag_changes_nothing() {
    let mut state = State::new(2);
    state.set_bag(0, vec!['A', 'B']);
    assert!(state.shift_last_from_bags(0, 0));
    assert_eq!(bags(&state), vec![vec!['A', 'B'], vec!['_']]);
    state.set_bag(1, vec!['C']);
    assert!(state.shift_last_from_bags(1, 1));
    assert_eq!(bags(&state), vec![vec!['A', 'B'], vec!['C']]);
}

#[test]
fn shift_and_shift_back_restore_the_bags() {
    let mut state = State::new(3);
    state.set_bag(0, vec!['A', 'B', 'C']);
    state.set_bag(2, vec!['D', 'E']);
    let before = bags(&state);
    assert!(state.shift_last_from_bags(0, 2));
    assert_eq!(bags(&state), vec![vec!['A', 'B'], vec!['_'], vec!['D', 'E', 'C']]);
    assert!(state.shift_last_from_bags(2, 0));
    assert_eq!(bags(&state), before);
}

#[test]
fn shift_and_shift_back_restore_the_placeholders() {
    let mut state = State::new(2);
    state.set_bag(0, vec!['A']);
    let before = bags(&state);
    assert!(state.shift_last_from_bags(0, 1));
    assert!(state.shift_last_from_bags(1, 0));
    assert_eq!(bags(&state), before);
}

#[test]
fn two_shifts_in_a_row_equal_one_direct_shift() {
    let mut chained = State::new(3);
    chained.set_bag(0, vec!['A', 'B']);
    chained.set_bag(2, vec!['C']);
    let mut direct = chained.clone_it();
    assert!(chained.shift_last_from_bags(0, 1));
    assert!(chained.shift_last_from_bags(1, 2));
    assert!(direct.shift_last_from_bags(0, 2));
    assert_eq!(bags(&chained), bags(&direct));
    assert_eq!(bags(&direct), vec![vec!['A'], vec!['_'], vec!['C', 'B']]);
}

#[test]
fn clone_it_shares_nothing_with_the_state() {
    let mut state = State::new(2);
    state.set_bag(0, vec!['A', 'B']);
    let copy = state.clone_it();
    assert!(state.shift_last_from_bags(0, 1));
    assert_eq!(bags(&copy), vec![vec!['A', 'B'], vec!['_']]);
    assert_eq!(copy.num_bags(), 2);
    assert_eq!(bags(&state), vec![vec!['A'], vec!['B']]);
}

#[test]
fn render_shows_bags_and_placeholders() {
    let mut state = State::new(3);
    assert_eq!(state.render(false), "( _ : _ : _ )");
    state.set_bag(0, vec!['A', 'B', 'C']);
    assert_eq!(state.render(false), "( A, B, C : _ : _ )");
    state.set_bag(0, vec!['A', 'B']);
    state.set_bag(1, vec!['C']);
    assert_eq!(state.render(false), "( A, B : C : _ )");
    assert_eq!(state.render(true), "( A, B : C : _ )");
}

#[test]
fn render_sorts_only_where_asked() {
    let mut state = State::new(2);
    state.set_bag(0, vec!['C', 'A', 'B']);
    state.set_bag(1, vec!['Z', 'Y']);
    assert_eq!(state.render(false), "( C, A, B : Z, Y )");
    assert_eq!(state.render(true), "( A, B, C : Y, Z )");
    assert_eq!(bags(&state), vec![vec!['C', 'A', 'B'], vec!['Z', 'Y']]);
}

#[test]
fn render_of_one_bag_and_of_none() {
    let mut one = State::new(1);
    assert_eq!(one.render(true), "( _ )");
    one.set_bag(0, vec!['A']);
    assert_eq!(one.render(false), "( A )");
    assert_eq!(State::new(0).render(false), "(  )");
}

#[test]
fn sort_labels_orders_by_code_point() {
    let mut labels = vec!['b', 'B', 'a', '1', 'é', 'A', 'b'];
    sort_labels(&mut labels);
    assert_eq!(labels, vec!['1', 'A', 'B', 'a', 'b', 'b', 'é']);
    let mut none: Vec<char> = Vec::new();
    sort_labels(&mut none);
    assert_eq!(none, Vec::<char>::new());
    let mut single = vec!['x'];
    sort_labels(&mut single);
    assert_eq!(single, vec!['x']);
    let mut reversed = vec!['E', 'D', 'C', 'B', 'A'];
    sort_labels(&mut reversed);
    assert_eq!(reversed, vec!['A', 'B', 'C', 'D', 'E']);
}
