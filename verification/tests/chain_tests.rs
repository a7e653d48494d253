use simumech::chain::{
    chance, context_choice, generate_in_line, next_in_line, prefers_parent, stops_by_chance, strength_bound, ChainCore, END, MILLION, NONE,
};

fn learned(lines: &[&[u32]]) -> ChainCore {
    let mut core = ChainCore::new();
    for line in lines {
        core.learn(line.to_vec());
    }
    core
}

#[test]
fn new_chain_is_empty() {
    let core = ChainCore::new();
    assert_eq!(core.forward_len(), 0);
    assert_eq!(core.backward_len(), 0);
    assert_eq!(core.consume(), 0);
    assert_eq!(core.strength(), MILLION);
    assert_eq!(core.nth_forward_key(0), None);
}

#[test]
fn learned_words_follow_the_words_before_them() {
    let core = learned(&[&[1, 2, 3]]);
    assert_eq!(core.list_of(&[1, NONE, NONE], 1), Some(vec![2]));
    assert_eq!(core.list_of(&[2, NONE, NONE], 1), Some(vec![3]));
    assert_eq!(core.list_of(&[1, 2, NONE], 1), Some(vec![3]));
    assert_eq!(core.list_of(&[END, 1, 2], 1), Some(vec![3]));
    assert_eq!(core.list_of(&[END, END, 1], 1), Some(vec![2]));
    // The first word follows nothing, and the end of the line is not recorded forwards.
    assert_eq!(core.list_of(&[END, NONE, NONE], 1), None);
    assert_eq!(core.list_of(&[3, NONE, NONE], 1), None);
}

#[test]
fn learned_words_precede_the_words_after_them() {
    let core = learned(&[&[1, 2, 3]]);
    assert_eq!(core.list_of(&[1, NONE, NONE], 0), Some(vec![END]));
    assert_eq!(core.list_of(&[2, NONE, NONE], 0), Some(vec![1]));
    assert_eq!(core.list_of(&[3, 2, NONE], 0), Some(vec![1]));
    assert_eq!(core.list_of(&[END, 3, 2], 0), Some(vec![1]));
    assert_eq!(core.list_of(&[2, 1, NONE], 0), Some(vec![END]));
}

#[test]
fn learning_only_appends() {
    let mut core = learned(&[&[1, 2]]);
    assert_eq!(core.list_of(&[1, NONE, NONE], 1), Some(vec![2]));
    core.learn(vec![1, 5]);
    assert_eq!(core.list_of(&[1, NONE, NONE], 1), Some(vec![2, 5]));
    core.learn(vec![7]);
    assert_eq!(core.list_of(&[1, NONE, NONE], 1), Some(vec![2, 5]));
}

#[test]
fn key_counts_after_learning() {
    let core = learned(&[&[1, 2, 3]]);
    // Forward keys: [END,END,1] [END,1] [1] for 2, then [END,1,2] [1,2] [2] for 3.
    assert_eq!(core.forward_len(), 6);
    // Backward keys: three for each of the three words.
    assert_eq!(core.backward_len(), 9);
    for n in 0..6 {
        assert!(core.nth_forward_key(n).is_some());
    }
    assert_eq!(core.nth_forward_key(6), None);
}

#[test]
fn reading_without_consuming_keeps_the_list() {
    let mut core = learned(&[&[1, 2]]);
    for _ in 0..20 {
        assert_eq!(core.next(&[1, NONE, NONE], 1), Some(vec![2]));
    }
    assert_eq!(core.next(&[9, NONE, NONE], 1), None);
}

#[test]
fn reading_while_always_consuming_removes_the_list() {
    let mut core = learned(&[&[1, 2]]);
    core.set_consume(MILLION);
    assert_eq!(core.consume(), MILLION);
    assert_eq!(core.next(&[1, NONE, NONE], 1), Some(vec![2]));
    assert_eq!(core.next(&[1, NONE, NONE], 1), None);
    // The other direction is untouched.
    assert_eq!(core.list_of(&[2, NONE, NONE], 0), Some(vec![1]));
}

#[test]
fn chance_edges() {
    assert!(!chance(0, 0));
    assert!(!chance(u32::MAX, 0));
    assert!(chance(0, MILLION));
    assert!(chance(u32::MAX, MILLION));
    assert!(!chance(1 << 31, 500_000));
    assert!(chance((1 << 31) - 1, 500_000));
}

#[test]
fn strength_bound_values() {
    assert_eq!(strength_bound(1, MILLION), 1);
    assert_eq!(strength_bound(2, 500_000), 2);
    assert_eq!(strength_bound(3, MILLION), 9);
    assert_eq!(strength_bound(0, 0), 1);
    assert_eq!(strength_bound(10, 0), 1);
    assert!(strength_bound(1, 0) > 0);
    assert_eq!(strength_bound(usize::MAX, MILLION), u32::MAX);
}

#[test]
fn lower_strength_never_raises_the_bound() {
    for len in 1..20usize {
        let mut last = strength_bound(len, 0);
        for s in (0..=MILLION).step_by(50_000) {
            let b = strength_bound(len, s);
            assert!(last <= b);
            last = b;
        }
    }
}

#[test]
fn strength_and_consume_setters() {
    let mut core = ChainCore::new();
    core.set_strength(300_000);
    core.set_consume(100_000);
    assert_eq!(core.strength(), 300_000);
    assert_eq!(core.consume(), 100_000);
}

#[test]
fn choose_best_prefers_the_rarest_usable_key() {
    let core = learned(&[&[1, 2, 3], &[1, 4], &[1, 5], &[2, 6]]);
    // [1] is followed by 2, 4, 5; [2] by 3, 6; [1, 2] only by 3.
    assert_eq!(core.choose_best(&[1, 2]), [1, 2, NONE]);
    // Nothing follows 9: the opening words stay.
    assert_eq!(core.choose_best(&[9]), [9, NONE, NONE]);
}

#[test]
fn generate_grows_around_the_key_with_held_words() {
    let mut core = learned(&[&[1, 2, 3]]);
    for _ in 0..20 {
        let s = core.generate([2, NONE, NONE], 0, false);
        assert!(s.contains(&2));
        assert!(s.iter().all(|w| [1, 2, 3].contains(w)));
    }
    let s = core.generate([1, 2, 3], 0, false);
    assert_eq!(s, vec![1, 2, 3]);
}

#[test]
fn generate_with_consume_removes_only() {
    let mut core = learned(&[&[1, 2, 3], &[3, 4]]);
    core.set_consume(MILLION);
    let before = core.forward_len();
    let s = core.generate([3, NONE, NONE], 0, false);
    assert!(s.contains(&3));
    assert!(core.forward_len() <= before);
}

#[test]
fn parent_answers_what_the_child_lacks() {
    let child = learned(&[&[1, 2]]);
    let parent = learned(&[&[7, 8]]);
    let mut cores = vec![child, parent];
    assert_eq!(next_in_line(&mut cores, 0, &[7, NONE, NONE], 1), Some(vec![8]));
    assert_eq!(next_in_line(&mut cores, 0, &[9, NONE, NONE], 1), None);
    assert_eq!(next_in_line(&mut cores, 1, &[1, NONE, NONE], 1), None);
}

#[test]
fn generate_in_line_uses_the_parent() {
    let child = learned(&[&[1, 2]]);
    let parent = learned(&[&[2, 9]]);
    let mut cores = vec![child, parent];
    let s = generate_in_line(&mut cores, [2, NONE, NONE], 100, false);
    assert!(s.contains(&2));
    assert!(s.iter().all(|w| [1, 2, 9].contains(w)));
}

#[test]
fn strict_limit_caps_the_sentence() {
    let line: Vec<u32> = (1..=12).collect();
    let mut core = learned(&[&line]);
    for ideal in 1..6usize {
        for _ in 0..10 {
            let s = core.generate([6, NONE, NONE], ideal, true);
            assert!(s.contains(&6));
            assert!(s.len() <= ideal.max(1), "{:?} for {}", s, ideal);
        }
    }
    let s = core.generate([6, 7, 8], 2, true);
    assert_eq!(s, vec![6, 7, 8]);
}

#[test]
fn own_list_answers_when_the_parent_has_at_most_one_word() {
    let mut cores = vec![learned(&[&[7, 8], &[7, 9]]), learned(&[&[7, 5]])];
    for _ in 0..20 {
        assert_eq!(next_in_line(&mut cores, 0, &[7, NONE, NONE], 1), Some(vec![8, 9]));
    }
}

#[test]
fn grown_words_follow_the_words_before_them() {
    let mut cores = vec![learned(&[&[1, 2, 3, 4]])];
    let s = generate_in_line(&mut cores, [2, NONE, NONE], 100, false);
    assert_eq!(s, vec![1, 2, 3, 4]);
}

#[test]
fn context_and_parent_decisions() {
    assert_eq!(context_choice(0, 5, u32::MAX), 1);
    assert_eq!(context_choice(2, 0, u32::MAX), 2);
    assert_eq!(context_choice(8, 1, u32::MAX), 3);
    assert_eq!(context_choice(8, 1, 0), 2);
    assert!(stops_by_chance(u32::MAX, 1, 2));
    assert!(!stops_by_chance(u32::MAX, 2, 2));
    assert!(!prefers_parent(7, 0, 0, 1, MILLION));
    assert!(!prefers_parent(7, 0, 1, 1, MILLION));
    assert!(prefers_parent(7, 0, 5, 1, MILLION));
    assert!(!prefers_parent(0, 0, 5, 1, MILLION));
}
