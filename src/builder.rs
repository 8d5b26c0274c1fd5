use vstd::prelude::*;

use crate::engine::{
    pairs_view, search, total, Engine, EMPTY_INPUT_ERROR, NO_RULES_ERROR,
};
use crate::rule::{lemma_rules_of, rules_of, PatternType, Rule, State};
use crate::DEFAULT_ENGINE_TYPICAL_MAX;

verus! {

/// The builder was given an input with no characters.
pub const NULL_INPUT_ERROR: &'static str = "Input string is null, fatal error.";

/// An accepted run gave no results.
pub const NO_RESULTS_ERROR: &'static str = "Unexpected failure, engine ran properly but failed to extract results.";

/// A leaf of one character class.
pub open spec fn leaf_rule(min: usize, max: Option<usize>, pattern: PatternType, identifier: usize) -> Rule {
    Rule { identifier, min, max, patterns: seq![pattern], group: None, coalesce: false }
}

/// A group over the given children.
pub open spec fn group_rule(min: usize, max: Option<usize>, children: Seq<Rule>, coalesce: bool) -> Rule {
    Rule { identifier: 0, min, max, patterns: Seq::empty(), group: Some(children), coalesce }
}

/// The example grammar: one or more units, each `digits . digits` and then a
/// run of letters, a quoted string or an opening parenthesis, and then `)`.
/// The leaves are tagged 1 to 8 in that order, the closing quote untagged.
pub open spec fn example_grammar() -> Rule {
    let typical = DEFAULT_ENGINE_TYPICAL_MAX;
    let quote = group_rule(
        1,
        Some(1),
        seq![
            leaf_rule(1, Some(1), PatternType::Specific('"'), 5),
            leaf_rule(1, None, PatternType::Everything, 6),
            leaf_rule(1, Some(1), PatternType::Specific('"'), 0),
        ],
        false,
    );
    let choice = group_rule(
        1,
        Some(1),
        seq![
            leaf_rule(1, Some(typical), PatternType::Alphabetic, 4),
            quote,
            leaf_rule(0, Some(1), PatternType::Specific('('), 7),
        ],
        true,
    );
    let unit = group_rule(
        1,
        Some(1),
        seq![
            leaf_rule(0, Some(typical), PatternType::Numeric, 1),
            leaf_rule(1, Some(1), PatternType::Specific('.'), 2),
            leaf_rule(0, Some(typical), PatternType::Numeric, 3),
            choice,
        ],
        false,
    );
    group_rule(1, None, seq![unit, leaf_rule(1, Some(1), PatternType::Specific(')'), 8)], true)
}

/// Builds the example grammar of tagged numbers for an input, runs it, and
/// keeps what each tagged leaf matched.
pub struct Builder {
    pub input_string: String,
    pub engine: Engine,
    pub interpreted_substrings: Vec<(State, String)>,
}

impl Builder {
    /// A builder over the input with the example grammar.
    pub fn init_default(input_string: String) -> (r: Self)
        ensures
            r.input_string@ == input_string@,
            r.engine.input() == input_string@,
            r.input_string@ == r.engine.input(),
            r.engine.model() == seq![example_grammar()],
            r.engine.states@.len() == 1,
            r.engine.counts@.len() == 0,
            r.engine.cur_char_pos == 0,
            !r.engine.matched,
            r.interpreted_substrings@.len() == 0,
    {
        let copy = input_string.clone();
        Self::new(input_string, Self::default_engine_rebuild(copy))
    }

    /// Runs the engine; on acceptance keeps the extracted pairs.
    pub fn process(&mut self) -> (r: Result<bool, &'static str>)
        ensures
            old(self).input_string@.len() == 0 ==> r == Err::<bool, &str>(NULL_INPUT_ERROR),
            old(self).input_string@.len() == 0 ==> final(self).engine == old(self).engine,
            (old(self).input_string@.len() > 0 && old(self).engine.input().len() == 0) ==> r == Err::<
                bool,
                &str,
            >(EMPTY_INPUT_ERROR),
            (old(self).input_string@.len() > 0 && old(self).engine.input().len() > 0
                && old(self).engine.states@.len() == 0) ==> r == Err::<bool, &str>(NO_RULES_ERROR),
            (old(self).input_string@.len() > 0 && old(self).engine.input().len() > 0
                && old(self).engine.states@.len() > 0) ==> ({
                let s = search(old(self).engine.input(), old(self).engine.model(), seq![0usize], 0);
                &&& r is Ok <==> s is Ok
                &&& r is Ok ==> r->Ok_0 == s->Ok_0.0
                &&& r is Ok ==> final(self).engine.model() == s->Ok_0.1
                &&& r is Ok ==> final(self).engine.counts@ == s->Ok_0.2
                &&& r is Err ==> r->Err_0 == s->Err_0
            }),
            r is Ok && r->Ok_0 ==> final(self).engine.accepts(),
            r is Ok && r->Ok_0 ==> total(final(self).engine.counts@) == final(self).engine.input().len(),
            r is Ok && r->Ok_0 ==> final(self).engine.spans(final(self).engine.counts@.len() as int)
                == final(self).engine.input(),
            (r is Ok && r->Ok_0 && old(self).input_string@ == old(self).engine.input())
                ==> final(self).engine.spans(final(self).engine.counts@.len() as int)
                == final(self).input_string@,
            r is Ok && r->Ok_0 ==> pairs_view(final(self).interpreted_substrings@)
                == final(self).engine.picked(final(self).engine.states@.len() as int),
            !(r is Ok && r->Ok_0) ==> final(self).interpreted_substrings
                == old(self).interpreted_substrings,
            final(self).input_string == old(self).input_string,
            final(self).engine.input_string == old(self).engine.input_string,
    {
        if self.input_string.as_str().unicode_len() == 0 {
            return Err(NULL_INPUT_ERROR);
        }
        match self.engine.process() {
            Err(e) => Err(e),
            Ok(false) => Ok(false),
            Ok(true) => {
                match self.engine.extract_results() {
                    Some(results) => {
                        self.interpreted_substrings = results;
                        proof {
                            crate::engine::lemma_spans_rebuild_input(&self.engine);
                        }
                        Ok(true)
                    },
                    None => Err(NO_RESULTS_ERROR),
                }
            },
        }
    }

    fn new(input_string: String, engine: Engine) -> (r: Self)
        ensures
            r.input_string == input_string,
            r.engine == engine,
            r.interpreted_substrings@.len() == 0,
    {
        Builder { input_string, engine, interpreted_substrings: Vec::new() }
    }

    /// The example grammar: repetitions of `digits . digits` followed by a
    /// run of letters, a quoted string or an opening parenthesis, each
    /// closed by `)`.
    fn default_engine_rebuild(input_string: String) -> (r: Engine)
        ensures
            r.input_string == input_string,
            r.model() == seq![example_grammar()],
            r.states@.len() == 1,
            r.counts@.len() == 0,
            r.cur_char_pos == 0,
            !r.matched,
    {
        let typical = DEFAULT_ENGINE_TYPICAL_MAX;
        let whole = Self::class_state(0, Some(typical), PatternType::Numeric, 1);
        let dot = Self::specific_state(1, Some(1), '.').set_identifier(2);
        let fraction = Self::class_state(0, Some(typical), PatternType::Numeric, 3);

        let letters = Self::class_state(1, Some(typical), PatternType::Alphabetic, 4);
        let open_quote = Self::specific_state(1, Some(1), '"').set_identifier(5);
        let quoted = Self::class_state(1, None, PatternType::Everything, 6);
        let close_quote = Self::specific_state(1, Some(1), '"');
        let quote_block = vec![open_quote, quoted, close_quote];
        let ghost quote_rules = seq![quote_block@[0]@, quote_block@[1]@, quote_block@[2]@];
        proof {
            lemma_rules_of(quote_block@);
            assert(rules_of(quote_block@) =~= quote_rules);
        }
        let quote_state = State::new_block(1, Some(1), quote_block);
        let open_paren = Self::specific_state(0, Some(1), '(').set_identifier(7);
        let coalesce_block = vec![letters, quote_state, open_paren];
        proof {
            lemma_rules_of(coalesce_block@);
            assert(rules_of(coalesce_block@) =~= seq![
                coalesce_block@[0]@,
                coalesce_block@[1]@,
                coalesce_block@[2]@,
            ]);
        }
        let choice = State::new_coalesce_block(1, Some(1), coalesce_block);
        let unit_block = vec![whole, dot, fraction, choice];
        proof {
            lemma_rules_of(unit_block@);
            assert(rules_of(unit_block@) =~= seq![
                unit_block@[0]@,
                unit_block@[1]@,
                unit_block@[2]@,
                unit_block@[3]@,
            ]);
        }
        let unit_state = State::new_block(1, Some(1), unit_block);
        let close_paren = Self::specific_state(1, Some(1), ')').set_identifier(8);
        let main_block = vec![unit_state, close_paren];
        proof {
            lemma_rules_of(main_block@);
            assert(rules_of(main_block@) =~= seq![main_block@[0]@, main_block@[1]@]);
        }
        let top = State::new_coalesce_block(1, None, main_block);
        let engine_states = vec![top];
        proof {
            lemma_rules_of(engine_states@);
            assert(rules_of(engine_states@) =~= seq![example_grammar()]);
        }
        Engine::new(input_string, engine_states)
    }

    /// A tagged leaf of one character class.
    fn class_state(min: usize, max: Option<usize>, pattern: PatternType, identifier: usize) -> (r: State)
        ensures
            r@ == leaf_rule(min, max, pattern, identifier),
    {
        let patterns = vec![pattern];
        assert(patterns@ =~= seq![pattern]);
        State::new(min, max, patterns).set_identifier(identifier)
    }

    /// The fuller example grammar: `digits . digits` with letters or a quoted
    /// string, or `digits . digits (` with such units inside and `)`.
    fn default_engine(input_string: String) -> (r: Engine)
        ensures
            r.input_string == input_string,
            r.states@.len() == 1,
            r.counts@.len() == 0,
            r.cur_char_pos == 0,
            !r.matched,
    {
        let mut core_block: Vec<State> = Vec::new();
        core_block.push(
            State::new(0, Some(DEFAULT_ENGINE_TYPICAL_MAX), vec![PatternType::Numeric]).set_identifier(1),
        );
        core_block.push(State::new(1, Some(1), vec![PatternType::Specific('.')]).set_identifier(2));
        core_block.push(
            State::new(0, Some(DEFAULT_ENGINE_TYPICAL_MAX), vec![PatternType::Numeric]).set_identifier(3),
        );

        let mut inner_block: Vec<State> = Vec::new();
        inner_block.push(
            State::new(1, Some(DEFAULT_ENGINE_TYPICAL_MAX), vec![PatternType::Alphabetic]).set_identifier(3),
        );

        let mut quote_block: Vec<State> = Vec::new();
        let quote_state = State::new(1, Some(1), vec![PatternType::Specific('"')]).set_identifier(4);
        quote_block.push(quote_state.clone());
        quote_block.push(State::new(1, None, vec![PatternType::Everything]).set_identifier(5));
        quote_block.push(quote_state.set_identifier(6));

        let quote_state = State::new_block(1, Some(1), quote_block);

        inner_block.push(quote_state);
        let inner_coalesce_state = State::new_coalesce_block(1, Some(1), inner_block);
        core_block.push(inner_coalesce_state);

        let core_state = State::new_block(1, Some(1), core_block);

        let mut block_block: Vec<State> = Vec::new();
        block_block.push(
            State::new(0, Some(DEFAULT_ENGINE_TYPICAL_MAX), vec![PatternType::Numeric]).set_identifier(7),
        );
        block_block.push(Self::specific_state(1, Some(1), '.'));
        block_block.push(
            State::new(0, Some(DEFAULT_ENGINE_TYPICAL_MAX), vec![PatternType::Numeric]).set_identifier(8),
        );
        block_block.push(Self::specific_state(1, Some(1), '(').set_identifier(9));
        block_block.push(
            State::new_block(1, Some(DEFAULT_ENGINE_TYPICAL_MAX), vec![core_state.clone()]),
        );
        block_block.push(Self::specific_state(1, Some(1), ')').set_identifier(10));
        let block_state = State::new_block(1, Some(1), block_block);

        let combined_state = State::new_coalesce_block(1, None, vec![core_state, block_state]);
        Engine::new(input_string, vec![combined_state])
    }

    /// A leaf that takes one given character.
    fn specific_state(min: usize, max: Option<usize>, character: char) -> (r: State)
        ensures
            r@ == leaf_rule(min, max, PatternType::Specific(character), 0),
    {
        let patterns = vec![PatternType::Specific(character)];
        assert(patterns@ =~= seq![PatternType::Specific(character)]);
        State::new(min, max, patterns)
    }
}

/// After an accepted run of a builder whose input is its engine's, the
/// characters that the top-level nodes took, in order and untagged nodes
/// included, make up the builder's input exactly.
pub proof fn lemma_builder_spans_rebuild_input(b: &Builder)
    requires
        b.input_string@ == b.engine.input(),
        b.engine.accepts(),
        total(b.engine.counts@) == b.engine.input().len(),
    ensures
        b.engine.spans(b.engine.counts@.len() as int) == b.input_string@,
{
    crate::engine::lemma_spans_rebuild_input(&b.engine);
}

} // verus!
