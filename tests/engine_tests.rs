use mregex_counter::engine::{Engine, EMPTY_INPUT_ERROR, NO_RULES_ERROR};
use mregex_counter::helpers::Cache;
use mregex_counter::rule::{PatternType, State};

#[test]
fn simple_tests() {
    let subset = vec![PatternType::Alphabetic];
    let alphabet_rule = vec![State::new(1, Some(4), subset)];
    let mut engine = Engine::new("abcde".to_string(), alphabet_rule);
    let result = engine.process().unwrap();
    assert_eq!(result, false);
}

#[test]
fn letter_then_digit_rejects_digits() {
    let rules = vec![
        State::new(1, Some(1), vec![PatternType::Alphabetic]),
        State::new(1, Some(1), vec![PatternType::Numeric]),
    ];
    let mut engine = Engine::new("123".to_string(), rules);
    assert_eq!(engine.process(), Ok(false));
    assert!(engine.extract_results().is_none());
}

#[test]
fn group_of_letter_then_digit_rejects_digits() {
    let block_states = vec![State::new(1, Some(1), vec![PatternType::Alphabetic]), State::new(1, Some(1), vec![PatternType::Numeric])];
    let block_state = State::new_coalesce_block(1, Some(4), block_states);
    let mut engine = Engine::new("123".to_string(), vec![block_state]);
    assert_eq!(engine.process(), Ok(false));
}

#[test]
fn empty_input_is_an_error() {
    let mut engine = Engine::new(String::new(), vec![State::new(1, None, vec![PatternType::Everything])]);
    assert_eq!(engine.process(), Err(EMPTY_INPUT_ERROR));
    assert!(engine.get_counts().is_empty());
    assert_eq!(engine.get_cur_pos(), 0);
    let mut no_rules_either = Engine::new(String::new(), vec![]);
    assert_eq!(no_rules_either.process(), Err(EMPTY_INPUT_ERROR));
}

#[test]
fn no_rules_is_an_error() {
    let mut engine = Engine::new("abc".to_string(), vec![]);
    assert_eq!(engine.process(), Err(NO_RULES_ERROR));
    assert!(engine.extract_results().is_none());
}

#[test]
fn run_of_letters_is_accepted() {
    let rules = vec![State::new(1, Some(4), vec![PatternType::Alphabetic]).set_identifier(1)];
    let mut engine = Engine::new("abcd".to_string(), rules);
    assert_eq!(engine.process(), Ok(true));
    assert_eq!(engine.get_counts().clone(), vec![4]);
    let results = engine.extract_results().unwrap();
    assert_eq!(results.len(), 1);
    assert_eq!(results[0].0.identifier, 1);
    assert_eq!(results[0].1, "abcd");
}

#[test]
fn group_is_expanded_and_matched() {
    let pair = State::new_block(1, Some(2), vec![
        State::new(1, None, vec![PatternType::Numeric]).set_identifier(1),
        State::new(1, None, vec![PatternType::Alphabetic]).set_identifier(2),
    ]);
    let mut engine = Engine::new("12ab".to_string(), vec![pair]);
    assert_eq!(engine.process(), Ok(true));
    assert_eq!(engine.get_states().len(), 2);
    let results = engine.extract_results().unwrap();
    let texts: Vec<String> = results.iter().map(|p| p.1.clone()).collect();
    assert_eq!(texts, vec!["12".to_string(), "ab".to_string()]);
}

#[test]
fn multibyte_characters_are_counted_by_character() {
    let rules = vec![State::new(1, None, vec![PatternType::Everything]).set_identifier(9)];
    let mut engine = Engine::new("héllo".to_string(), rules);
    assert_eq!(engine.input_string_len(), 5);
    assert_eq!(engine.process(), Ok(true));
    let results = engine.extract_results().unwrap();
    assert_eq!(results[0].1, "héllo");
}

#[test]
fn extraction_twice_gives_the_same() {
    let rules = vec![
        State::new(1, None, vec![PatternType::Numeric]).set_identifier(1),
        State::new(1, None, vec![PatternType::Alphabetic]).set_identifier(2),
    ];
    let mut engine = Engine::new("12ab".to_string(), rules);
    assert_eq!(engine.process(), Ok(true));
    let first = engine.extract_results().unwrap();
    let second = engine.extract_results().unwrap();
    assert_eq!(first.len(), second.len());
    for (a, b) in first.iter().zip(second.iter()) {
        assert_eq!(a.0.identifier, b.0.identifier);
        assert_eq!(a.1, b.1);
    }
}

#[test]
fn accepted_counts_lie_within_bounds() {
    let rules = vec![
        State::new(0, Some(2), vec![PatternType::Numeric]),
        State::new(1, Some(3), vec![PatternType::Alphabetic]),
    ];
    let mut engine = Engine::new("xyz".to_string(), rules);
    assert_eq!(engine.process(), Ok(true));
    let counts = engine.get_counts().clone();
    assert_eq!(counts.len(), engine.get_states().len());
    for (i, c) in counts.iter().enumerate() {
        assert!(engine.get_states()[i].within_count(*c));
    }
    assert_eq!(counts.iter().sum::<usize>(), engine.input_string_len());
}

#[test]
fn moving_to_the_next_node_moves_the_cursor() {
    let rules = vec![
        State::new(0, Some(2), vec![PatternType::Numeric]),
        State::new(1, Some(3), vec![PatternType::Alphabetic]),
    ];
    let mut engine = Engine::new("xyz".to_string(), rules);
    assert_eq!(engine.process(), Ok(true));
    assert_eq!(engine.get_counts().clone(), vec![0, 3]);
    let tight = vec![
        State::new(0, Some(2), vec![PatternType::Numeric]),
        State::new(1, Some(2), vec![PatternType::Alphabetic]),
    ];
    let mut rejected = Engine::new("xyz".to_string(), tight);
    assert_eq!(rejected.process(), Ok(false));
}

#[test]
fn letter_then_digit_accepts_one_of_each() {
    let rules = vec![
        State::new(1, Some(1), vec![PatternType::Alphabetic]).set_identifier(1),
        State::new(1, Some(1), vec![PatternType::Numeric]).set_identifier(2),
    ];
    let mut engine = Engine::new("a1".to_string(), rules);
    assert_eq!(engine.process(), Ok(true));
    assert_eq!(engine.get_counts().clone(), vec![1, 1]);
    let results = engine.extract_results().unwrap();
    assert_eq!(results[0].1, "a");
    assert_eq!(results[1].1, "1");
}

#[test]
fn three_runs_extract_their_own_characters() {
    let rules = vec![
        State::new(1, Some(3), vec![PatternType::Alphabetic]).set_identifier(1),
        State::new(1, Some(3), vec![PatternType::Numeric]).set_identifier(2),
        State::new(1, Some(3), vec![PatternType::Alphabetic]).set_identifier(3),
    ];
    let mut engine = Engine::new("ab12cd".to_string(), rules);
    assert_eq!(engine.process(), Ok(true));
    let texts: Vec<String> = engine.extract_results().unwrap().iter().map(|p| p.1.clone()).collect();
    assert_eq!(texts, vec!["ab".to_string(), "12".to_string(), "cd".to_string()]);
}

#[test]
fn spans_rebuild_the_input() {
    let rules = vec![
        State::new(1, Some(3), vec![PatternType::Numeric]).set_identifier(1),
        State::new(1, None, vec![PatternType::Alphabetic]),
    ];
    let mut engine = Engine::new("42abc".to_string(), rules);
    assert_eq!(engine.process(), Ok(true));
    let results = engine.extract_results().unwrap();
    assert_eq!(results.len(), 1);
    assert_eq!(results[0].1, "42");
    let mut start = 0usize;
    let mut rebuilt = String::new();
    let chars: Vec<char> = engine.get_input_string().chars().collect();
    assert_eq!(engine.get_counts().iter().sum::<usize>(), chars.len());
    for c in engine.get_counts().iter() {
        let end = start + c;
        rebuilt.extend(chars[start..end].iter());
        start = end;
    }
    assert_eq!(rebuilt, "42abc");
}

#[test]
fn extraction_before_a_run_is_none() {
    let engine = Engine::new("abc".to_string(), vec![State::new(1, None, vec![PatternType::Everything])]);
    assert!(engine.extract_results().is_none());
}

#[test]
fn cursor_and_frontier_helpers() {
    let mut engine = Engine::new("ab".to_string(), vec![
        State::new(1, Some(1), vec![PatternType::Alphabetic]),
        State::new(1, Some(1), vec![PatternType::Alphabetic]),
    ]);
    assert!(engine.init().is_ok());
    assert_eq!(engine.get_counts().clone(), vec![0]);
    assert_eq!(engine.get_cur_pos(), 0);
    assert_eq!(engine.get_cur_char(), Some('a'));
    assert!(!engine.cursor_is_at_end());
    assert!(engine.add_current_count().is_ok());
    assert_eq!(engine.get_counts().clone(), vec![1]);
    assert!(engine.get_next_state().is_some());
    assert!(engine.advance_state());
    assert!(!engine.advance_state());
    assert!(engine.get_current_state().is_some());
    assert!(engine.get_next_state().is_none());
    assert!(engine.advance());
    assert!(engine.cursor_is_at_end());
    assert!(!engine.advance());
    assert!(!engine.is_finished());
    engine.finish();
    assert!(engine.is_finished());
    assert_eq!(engine.get_cur_char(), None);
}

#[test]
fn snapshot_hands_back_what_it_kept() {
    let cache = Cache::new(vec![1, 2], 3, vec![State::new(0, None, vec![PatternType::Numeric])]);
    let (counts, pos, states) = cache.extract();
    assert_eq!(counts, vec![1, 2]);
    assert_eq!(pos, 3);
    assert_eq!(states.len(), 1);
}

#[test]
fn group_is_matched_through_its_children() {
    let grammar = || {
        vec![
            State::new(1, Some(1), vec![PatternType::Specific('1')]),
            State::new_block(1, Some(1), vec![
                State::new(1, Some(1), vec![PatternType::Specific('a')]).set_identifier(1),
                State::new(1, Some(1), vec![PatternType::Specific('b')]).set_identifier(2),
            ]),
        ]
    };
    let mut full = Engine::new("1ab".to_string(), grammar());
    assert_eq!(full.process(), Ok(true));
    assert_eq!(full.get_counts().clone(), vec![1, 1, 1]);
    let pairs: Vec<(usize, String)> = full.extract_results().unwrap().iter().map(|p| (p.0.identifier, p.1.clone())).collect();
    assert_eq!(pairs, vec![(1, "a".to_string()), (2, "b".to_string())]);
    let mut short = Engine::new("1a".to_string(), grammar());
    assert_eq!(short.process(), Ok(false));
}

#[test]
fn trailing_optional_group_left_out_is_an_error() {
    let rules = vec![
        State::new(1, Some(1), vec![PatternType::Alphabetic]),
        State::new_block(0, Some(1), vec![State::new(1, None, vec![PatternType::Alphabetic])]),
    ];
    let mut engine = Engine::new("ab".to_string(), rules);
    assert_eq!(engine.process(), Err(mregex_counter::engine::NO_CURRENT_STATE_ERROR));
}
