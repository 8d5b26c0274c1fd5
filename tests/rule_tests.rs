use mregex_counter::rule::{PatternType, State};

#[test]
fn check_block() {
    let vec_states = vec![State::new(1, Some(1), vec![PatternType::Numeric]), State::new(1, Some(1), vec![PatternType::Alphabetic])];
    let block_state = State::new_block(1, Some(2), vec_states);
    assert_eq!(block_state.does_char_qualify('1'), true);
}

#[test]
fn classes_classify_characters() {
    assert!(PatternType::Alphabetic.is_of_type('a'));
    assert!(PatternType::Alphabetic.is_of_type('Z'));
    assert!(PatternType::Alphabetic.is_of_type('é'));
    assert!(!PatternType::Alphabetic.is_of_type('1'));
    assert!(!PatternType::Alphabetic.is_of_type('.'));
    assert!(PatternType::Numeric.is_of_type('0'));
    assert!(PatternType::Numeric.is_of_type('9'));
    assert!(!PatternType::Numeric.is_of_type('a'));
    assert!(!PatternType::Numeric.is_of_type('٣'));
    assert!(PatternType::Everything.is_of_type('"'));
    assert!(PatternType::Everything.is_of_type(' '));
    assert!(PatternType::Specific('(').is_of_type('('));
    assert!(!PatternType::Specific('(').is_of_type(')'));
}

#[test]
fn leaf_matches_any_of_its_classes() {
    let leaf = State::new(1, Some(1), vec![PatternType::Numeric, PatternType::Specific('.')]);
    assert!(leaf.does_char_qualify('7'));
    assert!(leaf.does_char_qualify('.'));
    assert!(!leaf.does_char_qualify('x'));
    let empty = State::new(1, Some(1), vec![]);
    assert!(!empty.does_char_qualify('x'));
}

#[test]
fn group_peek_skips_optional_children() {
    let children = vec![
        State::new(0, Some(3), vec![PatternType::Numeric]),
        State::new(1, Some(1), vec![PatternType::Specific('.')]),
    ];
    let group = State::new_block(1, Some(1), children);
    assert!(group.does_char_qualify('4'));
    assert!(group.does_char_qualify('.'));
    assert!(!group.does_char_qualify('a'));
    let empty_group = State::new_block(1, Some(1), vec![]);
    assert!(!empty_group.does_char_qualify('a'));
    let all_optional = State::new_block(1, None, vec![State::new(0, None, vec![PatternType::Numeric])]);
    assert!(!all_optional.does_char_qualify('a'));
}

#[test]
fn bounds_with_and_without_max() {
    let open = State::new(2, None, vec![PatternType::Everything]);
    assert!(!open.within_count(1));
    assert!(open.within_count(2));
    assert!(open.within_count(1000));
    assert!(open.within_upper_count(usize::MAX));
    let closed = State::new(1, Some(3), vec![PatternType::Everything]);
    assert!(!closed.within_count(0));
    assert!(closed.within_count(1));
    assert!(closed.within_count(3));
    assert!(!closed.within_count(4));
    assert!(closed.within_upper_count(0));
    assert!(!closed.within_upper_count(4));
}

#[test]
fn skip_only_when_min_is_zero() {
    assert!(State::new(0, Some(1), vec![PatternType::Numeric]).allows_skip());
    assert!(!State::new(1, Some(1), vec![PatternType::Numeric]).allows_skip());
    assert!(State::new_block(0, None, vec![]).allows_skip());
}

#[test]
fn constructors_and_getters() {
    let leaf = State::new(1, Some(2), vec![PatternType::Numeric]).set_identifier(5);
    assert_eq!(leaf.identifier, 5);
    assert_eq!(leaf.get_min(), 1);
    assert_eq!(leaf.get_max(), Some(2));
    assert!(!leaf.is_block_type());
    assert!(!leaf.is_coalesce());
    assert_eq!(leaf.block_size(), None);
    assert!(leaf.expand_block_states().is_none());

    let group = State::new_coalesce_block(0, None, vec![leaf.clone(), State::new(1, Some(1), vec![PatternType::Alphabetic])]);
    assert!(group.is_block_type());
    assert!(group.is_coalesce());
    assert_eq!(group.block_size(), Some(2));
    let children = group.expand_block_states().unwrap();
    assert_eq!(children.len(), 2);
    assert_eq!(children[0].identifier, 5);
    assert_eq!(children[1].get_min(), 1);
}

#[test]
fn nth_option_of_a_group() {
    let group = State::new_coalesce_block(1, Some(4), vec![
        State::new(1, Some(1), vec![PatternType::Numeric]).set_identifier(3),
        State::new(1, Some(1), vec![PatternType::Alphabetic]).set_identifier(4),
    ]);
    let second = group.nth_coalesce_option(1).unwrap();
    assert!(second.is_block_type());
    assert!(!second.is_coalesce());
    assert_eq!(second.get_min(), 1);
    assert_eq!(second.get_max(), Some(4));
    let only = second.expand_block_states().unwrap();
    assert_eq!(only.len(), 1);
    assert_eq!(only[0].identifier, 4);
    assert!(group.nth_coalesce_option(2).is_err());
    assert!(State::new(1, Some(1), vec![PatternType::Numeric]).nth_coalesce_option(0).is_err());
}
